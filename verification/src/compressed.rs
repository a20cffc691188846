use crate::error::DecodeError;
use crate::graph_iterator::EdgeMapper;
use crate::graph_iterator::EdgeVisitor;
use crate::hilbert_curve::BytewiseHilbert;
use crate::varint::Decoder;
use vstd::prelude::*;

verus! {

/// The edges with the Hilbert indices `zs`, in the same order.
pub open spec fn points(zs: Seq<u64>) -> Seq<(u32, u32)> {
    Seq::new(zs.len(), |i: int| crate::hilbert_curve::hilbert_point(zs[i]))
}

/// A stream holds no more indices than bytes.
pub proof fn lemma_stream_len(s: Seq<u8>, pos: int, acc: nat)
    requires
        0 <= pos <= s.len(),
    ensures
        crate::varint::stream(s, pos, acc).0.len() <= s.len() - pos,
    decreases s.len() - pos,
{
    if pos < s.len() {
        crate::varint::lemma_decoding_end(s, pos);
        match crate::varint::decoding(s, pos) {
            None => {},
            Some((delta, end)) => {
                if !(delta > u64::MAX) && !(delta == 0 || acc + delta > u64::MAX) {
                    lemma_stream_len(s, end, acc + delta);
                }
            },
        }
    }
}

/// A graph as a stream of deltas between the Hilbert indices of its edges,
/// which rise strictly.
pub struct DeltaCompressedReaderMapper<'a> {
    bytes: &'a [u8],
    hilbert: BytewiseHilbert,
}

impl<'a> DeltaCompressedReaderMapper<'a> {
    /// The Hilbert indices that the stream holds.
    pub closed spec fn indices(&self) -> Seq<u64> {
        crate::varint::stream(self.bytes@, 0, 0).0
    }

    /// Takes a stream of deltas, and checks that it decodes to its end.
    pub fn new(bytes: &'a [u8]) -> (r: Result<Self, DecodeError>)
        ensures
            match r {
                Ok(m) => {
                    &&& crate::varint::stream(bytes@, 0, 0).1 is None
                    &&& m.wf()
                    &&& m.indices() == crate::varint::stream(bytes@, 0, 0).0
                },
                Err(e) => crate::varint::stream(bytes@, 0, 0).1 == Some(e),
            },
    {
        let len: usize = bytes.len();
        let mut reader = Decoder::new(bytes);
        let mut done: bool = false;
        while !done
            invariant
                reader.pending().1 == crate::varint::stream(bytes@, 0, 0).1,
                done ==> reader.pending().1 is None,
            decreases
                    (if done {
                        0
                    } else {
                        1 + reader.pending().0.len()
                    }),
        {
            match reader.next() {
                Ok(Some(_z)) => {},
                Ok(None) => {
                    done = true;
                },
                Err(e) => {
                    return Err(e);
                },
            }
        }
        let hilbert = BytewiseHilbert::new();
        Ok(DeltaCompressedReaderMapper { bytes, hilbert })
    }
}

impl<'a> EdgeMapper for DeltaCompressedReaderMapper<'a> {
    closed spec fn wf(&self) -> bool {
        &&& self.hilbert.wf()
        &&& self.bytes@.len() <= usize::MAX
        &&& crate::varint::stream(self.bytes@, 0, 0).1 is None
    }

    open spec fn edges(&self) -> Seq<(u32, u32)> {
        points(self.indices())
    }

    proof fn edge_count_fits(&self) {
        lemma_stream_len(self.bytes@, 0, 0);
    }

    fn map_edges<A: EdgeVisitor>(&self, action: &mut A) {
        let ghost zs = self.indices();
        let ghost all = self.edges();
        let ghost s0 = action.state();
        let mut reader = Decoder::new(self.bytes);
        let mut done: bool = false;
        let ghost mut n: int = 0;
        proof {
            assert(zs.skip(0) == zs);
            assert(all.take(0) == Seq::<(u32, u32)>::empty());
        }
        while !done
            invariant
                self.wf(),
                zs == self.indices(),
                all == points(zs),
                0 <= n <= zs.len(),
                reader.pending().1 is None,
                !done ==> reader.pending().0 == zs.skip(n),
                done ==> n == zs.len(),
                action.inv(),
                action.state() == crate::graph_iterator::fold_edges::<A>(s0, all.take(n)),
                crate::graph_iterator::accepts_all::<A>(s0, all),
            decreases
                    (if done {
                        0
                    } else {
                        1 + reader.pending().0.len()
                    }),
        {
            match reader.next() {
                Ok(Some(z)) => {
                    let p = self.hilbert.detangle(z);
                    proof {
                        assert(zs.skip(n)[0] == zs[n]);
                        assert(zs.skip(n).skip(1) == zs.skip(n + 1));
                        assert(all[n] == p);
                    }
                    action.visit(p.0, p.1);
                    proof {
                        crate::graph_iterator::lemma_fold_push::<A>(s0, all.take(n), p);
                        assert(all.take(n).push(p) == all.take(n + 1));
                        n = n + 1;
                    }
                },
                Ok(None) => {
                    proof {
                        assert(zs.skip(n).len() == 0);
                    }
                    done = true;
                },
                Err(_e) => {
                    done = true;
                },
            }
        }
        proof {
            assert(all.take(n) == all);
        }
    }
}

} // verus!
