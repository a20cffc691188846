use crate::error::DecodeError;
use crate::varint::Decoder;
use vstd::prelude::*;

verus! {

/// Each element is smaller than the next.
pub open spec fn strictly_rising(s: Seq<u64>) -> bool {
    forall|i: int, j: int| 0 <= i < j < s.len() ==> s[i] < s[j]
}

/// One of the streams holds `z`.
pub open spec fn in_some(streams: Seq<Seq<u64>>, z: u64) -> bool {
    exists|i: int, k: int|
        0 <= i < streams.len() && 0 <= k < streams[i].len() && #[trigger] streams[i][k] == z
}

/// One of the streams holds `z` among the first elements, as many of each
/// stream as `taken` says.
pub open spec fn in_taken(streams: Seq<Seq<u64>>, taken: Seq<int>, z: u64) -> bool {
    exists|i: int, k: int|
        0 <= i < streams.len() && 0 <= k < taken[i] && k < streams[i].len()
            && #[trigger] streams[i][k] == z
}

/// The number of elements that the first `n` streams hold beyond those
/// taken.
pub open spec fn left(streams: Seq<Seq<u64>>, taken: Seq<int>, n: nat) -> int
    decreases n,
{
    if n == 0 {
        0
    } else {
        left(streams, taken, (n - 1) as nat) + streams[n - 1].len() - taken[n - 1]
    }
}

/// Streams of which no more was taken than they hold have something or
/// nothing left.
proof fn lemma_left_bound(streams: Seq<Seq<u64>>, taken: Seq<int>, n: nat)
    requires
        n <= streams.len(),
        forall|i: int| 0 <= i < n ==> taken[i] <= streams[i].len(),
    ensures
        left(streams, taken, n) >= 0,
    decreases n,
{
    if n > 0 {
        lemma_left_bound(streams, taken, (n - 1) as nat);
    }
}

/// One more element taken is one less left.
proof fn lemma_left_step(streams: Seq<Seq<u64>>, taken: Seq<int>, n: nat, at: int)
    requires
        n <= streams.len(),
        n <= taken.len(),
        0 <= at < taken.len(),
    ensures
        left(streams, taken.update(at, taken[at] + 1), n) == left(streams, taken, n) - (if at
            < n {
            1int
        } else {
            0int
        }),
    decreases n,
{
    if n > 0 {
        lemma_left_step(streams, taken, (n - 1) as nat, at);
    }
}

/// A merge meets the fault of stream `i` no later than that of stream `j`.
/// It meets the fault of a stream without indices at once, and that of
/// another stream once it has taken the last index of the stream; of two
/// streams that are equal in this, the one that was handed over first comes
/// first.
pub open spec fn met_first(streams: Seq<Seq<u64>>, i: int, j: int) -> bool {
    if streams[i].len() == 0 {
        streams[j].len() > 0 || i <= j
    } else {
        streams[j].len() > 0 && (streams[i].last() < streams[j].last() || (streams[i].last()
            == streams[j].last() && i <= j))
    }
}

/// What the readers still hold when they are handed over.
pub open spec fn pendings(sources: Seq<Decoder>) -> Seq<Seq<u64>> {
    Seq::new(sources.len(), |i: int| sources[i].pending().0)
}

/// The smallest of the heads, the first of them where several are equal.
fn smallest(heads: &Vec<Option<u64>>) -> (best: Option<usize>)
    ensures
        match best {
            Some(b) => {
                &&& b < heads@.len()
                &&& heads@[b as int] is Some
                &&& forall|t: int|
                    0 <= t < heads@.len() && (#[trigger] heads@[t]) is Some
                        ==> heads@[b as int].unwrap() <= heads@[t].unwrap()
                &&& forall|t: int|
                    0 <= t < b && (#[trigger] heads@[t]) is Some ==> heads@[b as int].unwrap()
                        < heads@[t].unwrap()
            },
            None => forall|t: int| 0 <= t < heads@.len() ==> (#[trigger] heads@[t]) is None,
        },
{
    let mut best: Option<usize> = None;
    let mut low: u64 = 0;
    let mut j: usize = 0;
    while j < heads.len()
        invariant
            j <= heads@.len(),
            match best {
                Some(b) => {
                    &&& b < j
                    &&& heads@[b as int] == Some(low)
                    &&& forall|t: int|
                        0 <= t < j && (#[trigger] heads@[t]) is Some ==> low <= heads@[t].unwrap()
                    &&& forall|t: int|
                        0 <= t < b && (#[trigger] heads@[t]) is Some ==> low < heads@[t].unwrap()
                },
                None => forall|t: int| 0 <= t < j ==> (#[trigger] heads@[t]) is None,
            },
        decreases heads@.len() - j,
    {
        match heads[j] {
            Some(h) => {
                if best.is_none() || h < low {
                    best = Some(j);
                    low = h;
                }
            },
            None => {},
        }
        j = j + 1;
    }
    best
}

/// Merges streams of rising indices into one: each index that some stream
/// holds comes out once, the smallest first. A fault in one of the streams
/// ends the merge with that fault; of several faults, with the one that the
/// merge meets first.
pub fn merge<'a>(sources: Vec<Decoder<'a>>) -> (r: Result<Vec<u64>, DecodeError>)
    ensures
        match r {
            Ok(out) => {
                &&& forall|i: int|
                    0 <= i < sources@.len() ==> (#[trigger] sources@[i]).pending().1 is None
                &&& crate::varint::rising(out@)
                &&& forall|z: u64| out@.contains(z) <==> in_some(pendings(sources@), z)
            },
            Err(e) => exists|i: int|
                0 <= i < sources@.len() && (#[trigger] sources@[i]).pending().1 == Some(e)
                    && forall|j: int|
                    0 <= j < sources@.len() && (#[trigger] sources@[j]).pending().1 is Some
                        ==> met_first(pendings(sources@), i, j),
        },
{
    let ghost first = sources@;
    let ghost streams = pendings(first);
    let mut readers = sources;
    let n: usize = readers.len();
    let mut heads: Vec<Option<u64>> = Vec::new();
    let mut i: usize = 0;
    while i < n
        invariant
            i <= n,
            first == sources@,
            n == first.len(),
            readers@.len() == n,
            heads@.len() == i,
            streams == pendings(first),
            forall|j: int| i <= j < n ==> readers@[j] == first[j],
            forall|j: int|
                0 <= j < i ==> match #[trigger] heads@[j] {
                    Some(h) => {
                        &&& 0 < streams[j].len()
                        &&& 0 < h
                        &&& h == streams[j][0]
                        &&& readers@[j].last() == h
                        &&& readers@[j].pending() == (streams[j].skip(1), first[j].pending().1)
                    },
                    None => streams[j].len() == 0 && first[j].pending().1 is None,
                },
        decreases n - i,
    {
        let next = readers[i].next();
        match next {
            Ok(Some(z)) => {
                heads.push(Some(z));
            },
            Ok(None) => {
                heads.push(None);
            },
            Err(e) => {
                proof {
                    assert(sources@[i as int].pending().1 == Some(e));
                    assert(streams[i as int].len() == 0);
                    assert forall|j: int|
                        0 <= j < sources@.len() && (#[trigger] sources@[j]).pending().1
                            is Some implies met_first(streams, i as int, j) by {
                        if j < i {
                            assert(heads@[j] is Some);
                        }
                    }
                }
                return Err(e);
            },
        }
        i = i + 1;
    }
    let mut out: Vec<u64> = Vec::new();
    let ghost mut taken: Seq<int> = Seq::new(n as nat, |j: int| 0int);
    let mut finished: bool = false;
    proof {
        lemma_left_bound(streams, taken, n as nat);
    }
    while !finished
        invariant
            first == sources@,
            n == first.len(),
            readers@.len() == n,
            heads@.len() == n,
            taken.len() == n,
            streams == pendings(first),
            strictly_rising(out@),
            forall|k: int| 0 <= k < out@.len() ==> 0 < #[trigger] out@[k],
            forall|j: int| 0 <= j < n ==> 0 <= #[trigger] taken[j] <= streams[j].len(),
            forall|j: int|
                0 <= j < n ==> match #[trigger] heads@[j] {
                    Some(h) => {
                        &&& taken[j] < streams[j].len()
                        &&& 0 < h
                        &&& h == streams[j][taken[j]]
                        &&& readers@[j].last() == h
                        &&& readers@[j].pending() == (
                            streams[j].skip(taken[j] + 1),
                            first[j].pending().1,
                        )
                        &&& out@.len() > 0 ==> out@.last() <= h
                    },
                    None => taken[j] == streams[j].len() && first[j].pending().1 is None,
                },
            forall|k: int| 0 <= k < out@.len() ==> in_taken(streams, taken, #[trigger] out@[k]),
            forall|j: int, k: int|
                0 <= j < n && 0 <= k < taken[j] ==> out@.contains(#[trigger] streams[j][k]),
            finished ==> forall|j: int| 0 <= j < n ==> (#[trigger] heads@[j]) is None,
            left(streams, taken, n as nat) >= 0,
        decreases
                (if finished {
                    0
                } else {
                    1 + left(streams, taken, n as nat)
                }),
    {
        match smallest(&heads) {
            None => {
                finished = true;
            },
            Some(b) => {
                let m: u64 = heads[b].unwrap();
                let ghost old_out = out@;
                let ghost old_taken = taken;
                if out.len() == 0 || out[out.len() - 1] < m {
                    out.push(m);
                }
                proof {
                    taken = taken.update(b as int, taken[b as int] + 1);
                    lemma_left_step(streams, old_taken, n as nat, b as int);
                    lemma_left_bound(streams, taken, n as nat);
                    assert(out@.contains(m)) by {
                        assert(out@[out@.len() - 1] == m);
                    }
                    assert forall|k: int| 0 <= k < out@.len() implies in_taken(
                        streams,
                        taken,
                        #[trigger] out@[k],
                    ) by {
                        if k < old_out.len() {
                            assert(in_taken(streams, old_taken, old_out[k]));
                            let (si, sk) = choose|si: int, sk: int|
                                0 <= si < streams.len() && 0 <= sk < old_taken[si] && sk
                                    < streams[si].len() && #[trigger] streams[si][sk]
                                    == old_out[k];
                            assert(streams[si][sk] == out@[k] && sk < taken[si]);
                        } else {
                            assert(streams[b as int][old_taken[b as int]] == out@[k]);
                        }
                    }
                    assert forall|j: int, k: int| 0 <= j < n && 0 <= k < taken[j] implies out@.contains(
                     #[trigger] streams[j][k]) by {
                        if j == b && k == old_taken[b as int] {
                        } else {
                            assert(old_out.contains(streams[j][k]));
                            let w = choose|w: int|
                                0 <= w < old_out.len() && old_out[w] == streams[j][k];
                            assert(out@[w] == streams[j][k]);
                        }
                    }
                }
                let next = readers[b].next();
                match next {
                    Ok(Some(z)) => {
                        heads.set(b, Some(z));
                        proof {
                            let rest = streams[b as int].skip(old_taken[b as int] + 1);
                            assert(rest[0] == streams[b as int][taken[b as int]]);
                            assert(rest.skip(1) == streams[b as int].skip(taken[b as int] + 1));
                        }
                    },
                    Ok(None) => {
                        heads.set(b, None);
                        proof {
                            let rest = streams[b as int].skip(old_taken[b as int] + 1);
                            assert(rest.len() == 0);
                        }
                    },
                    Err(e) => {
                        proof {
                            assert(sources@[b as int].pending().1 == Some(e));
                            let mine = streams[b as int];
                            assert(mine.skip(old_taken[b as int] + 1).len() == 0);
                            assert(mine.last() == m);
                            assert forall|j: int|
                                0 <= j < sources@.len() && (#[trigger] sources@[j]).pending().1
                                    is Some implies met_first(streams, b as int, j) by {
                                if j != b {
                                    assert(heads@[j] is Some);
                                    sources@[j].lemma_pending_rises();
                                    assert(streams[j][old_taken[j]] <= streams[j].last());
                                }
                            }
                        }
                        return Err(e);
                    },
                }
            },
        }
    }
    proof {
        assert forall|z: u64| out@.contains(z) <==> in_some(streams, z) by {
            if out@.contains(z) {
                let w = choose|w: int| 0 <= w < out@.len() && out@[w] == z;
                assert(in_taken(streams, taken, out@[w]));
                let (si, sk) = choose|si: int, sk: int|
                    0 <= si < streams.len() && 0 <= sk < taken[si] && sk < streams[si].len()
                        && #[trigger] streams[si][sk] == z;
                assert(streams[si][sk] == z);
            }
            if in_some(streams, z) {
                let (si, sk) = choose|si: int, sk: int|
                    0 <= si < streams.len() && 0 <= sk < streams[si].len()
                        && #[trigger] streams[si][sk] == z;
                assert(heads@[si] is None);
                assert(out@.contains(streams[si][sk]));
            }
        }
        assert forall|i: int| 0 <= i < sources@.len() implies (#[trigger] sources@[i]).pending().1 is None by {
            assert(heads@[i] is None);
        }
    }
    Ok(out)
}

/// Merges streams of deltas into one stream of deltas: the bytes for the
/// indices that `merge` gives.
pub fn merge_streams<'a>(sources: Vec<Decoder<'a>>) -> (r: Result<Vec<u8>, DecodeError>)
    ensures
        match r {
            Ok(bytes) => {
                &&& forall|i: int|
                    0 <= i < sources@.len() ==> (#[trigger] sources@[i]).pending().1 is None
                &&& exists|out: Seq<u64>|
                    {
                        &&& #[trigger] crate::varint::rising(out)
                        &&& forall|z: u64| out.contains(z) <==> in_some(pendings(sources@), z)
                        &&& bytes@ == crate::varint::deltas(out, 0)
                        &&& crate::varint::stream(bytes@, 0, 0) == (out, None::<DecodeError>)
                    }
            },
            Err(e) => exists|i: int|
                0 <= i < sources@.len() && (#[trigger] sources@[i]).pending().1 == Some(e)
                    && forall|j: int|
                    0 <= j < sources@.len() && (#[trigger] sources@[j]).pending().1 is Some
                        ==> met_first(pendings(sources@), i, j),
        },
{
    match merge(sources) {
        Ok(out) => {
            let bytes = crate::varint::encode_deltas(&out);
            proof {
                crate::varint::lemma_stream_of_deltas(Seq::empty(), out@, 0);
                assert(Seq::<u8>::empty() + crate::varint::deltas(out@, 0)
                    == crate::varint::deltas(out@, 0));
                assert(crate::varint::rising(out@));
            }
            Ok(bytes)
        },
        Err(e) => Err(e),
    }
}

} // verus!
