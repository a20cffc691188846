use crate::error::ParseError;
use crate::graph_iterator::EdgeMapper;
use crate::graph_iterator::EdgeVisitor;
use vstd::prelude::*;

verus! {

/// A blank, a tab, a line feed, a vertical tab, a form feed or a carriage
/// return.
pub open spec fn is_space(b: u8) -> bool {
    b == 32 || (9 <= b && b <= 13)
}

/// A decimal digit.
pub open spec fn is_digit(b: u8) -> bool {
    48 <= b && b <= 57
}

/// Where the word that holds position `pos` ends: the next position with
/// white space, or the end of the text.
pub open spec fn token_end(s: Seq<u8>, pos: int) -> int
    decreases s.len() - pos,
{
    if pos < 0 || pos >= s.len() || is_space(s[pos]) {
        pos
    } else {
        token_end(s, pos + 1)
    }
}

/// The decimal value of the bytes from `from` up to `to`; `None` where one
/// of them is no digit.
pub open spec fn number(s: Seq<u8>, from: int, to: int) -> Option<nat>
    decreases to - from,
{
    if to <= from {
        Some(0)
    } else if !is_digit(s[to - 1]) {
        None
    } else {
        match number(s, from, to - 1) {
            Some(v) => Some(10 * v + (s[to - 1] - 48) as nat),
            None => None,
        }
    }
}

/// The numbers that the text holds from `pos` on: its words, which white
/// space parts, each a decimal number that fits in 32 bits. `None` where a
/// word is no such number.
pub open spec fn numbers(s: Seq<u8>, pos: int) -> Option<Seq<u32>>
    decreases s.len() - pos,
    via numbers_decreases
{
    if pos < 0 || pos >= s.len() {
        Some(Seq::empty())
    } else if is_space(s[pos]) {
        numbers(s, pos + 1)
    } else {
        match number(s, pos, token_end(s, pos)) {
            Some(v) => if v <= u32::MAX {
                match numbers(s, token_end(s, pos)) {
                    Some(rest) => Some(seq![v as u32] + rest),
                    None => None,
                }
            } else {
                None
            },
            None => None,
        }
    }
}

#[via_fn]
proof fn numbers_decreases(s: Seq<u8>, pos: int) {
    if 0 <= pos < s.len() && !is_space(s[pos]) {
        lemma_token_end(s, pos + 1);
    }
}

/// The edges that a sequence of numbers holds: each number at an even place
/// with the one behind it.
pub open spec fn pairs(nums: Seq<u32>) -> Seq<(u32, u32)> {
    Seq::new((nums.len() / 2) as nat, |i: int| (nums[2 * i], nums[2 * i + 1]))
}

/// What a text of edges holds: its edges, or why it holds none.
pub open spec fn parse(s: Seq<u8>) -> Result<Seq<(u32, u32)>, ParseError> {
    match numbers(s, 0) {
        None => Err(ParseError::BadNumber),
        Some(nums) => if nums.len() % 2 == 0 {
            Ok(pairs(nums))
        } else {
            Err(ParseError::OddCount)
        },
    }
}

/// A word ends at or behind each of its positions, within the text.
pub proof fn lemma_token_end(s: Seq<u8>, pos: int)
    requires
        0 <= pos <= s.len(),
    ensures
        pos <= token_end(s, pos) <= s.len(),
    decreases s.len() - pos,
{
    if pos < s.len() && !is_space(s[pos]) {
        lemma_token_end(s, pos + 1);
    }
}

/// The value of the first digits of a word is no larger than the value of
/// the word, and bytes that are no number do not begin one.
pub proof fn lemma_number_prefix(s: Seq<u8>, from: int, mid: int, to: int)
    requires
        from <= mid <= to,
    ensures
        number(s, from, to) matches Some(v) ==> (number(s, from, mid) matches Some(u) && u <= v),
    decreases to - mid,
{
    if mid < to {
        lemma_number_prefix(s, from, mid, to - 1);
    }
}

/// A text holds no more numbers than bytes.
pub proof fn lemma_numbers_len(s: Seq<u8>, pos: int)
    requires
        0 <= pos <= s.len(),
    ensures
        numbers(s, pos) matches Some(v) ==> v.len() <= s.len() - pos,
    decreases s.len() - pos,
{
    if pos < s.len() {
        if is_space(s[pos]) {
            lemma_numbers_len(s, pos + 1);
        } else {
            lemma_token_end(s, pos + 1);
            lemma_numbers_len(s, token_end(s, pos));
        }
    }
}

/// Whether `b` is white space.
pub fn space(b: u8) -> (r: bool)
    ensures
        r == is_space(b),
{
    b == 32 || (9 <= b && b <= 13)
}

/// Reads the next number of the text from `pos` on: its value and where
/// its word ends. `Ok(None)` where only white space is left.
pub fn next_number(text: &[u8], pos: usize) -> (r: Result<Option<(u32, usize)>, ParseError>)
    requires
        pos <= text@.len(),
    ensures
        match r {
            Ok(Some((v, end))) => {
                &&& pos < end <= text@.len()
                &&& numbers(text@, pos as int) == (match numbers(text@, end as int) {
                    Some(rest) => Some(seq![v] + rest),
                    None => None,
                })
            },
            Ok(None) => numbers(text@, pos as int) == Some(Seq::<u32>::empty()),
            Err(e) => e == ParseError::BadNumber && numbers(text@, pos as int) is None,
        },
{
    let len: usize = text.len();
    let mut i: usize = pos;
    while i < len && space(text[i])
        invariant
            pos <= i <= len,
            len == text@.len(),
            numbers(text@, pos as int) == numbers(text@, i as int),
        decreases len - i,
    {
        i = i + 1;
    }
    if i >= len {
        return Ok(None);
    }
    let start: usize = i;
    let mut v: u64 = 0;
    proof {
        lemma_token_end(text@, start as int);
    }
    while i < len && !space(text[i])
        invariant
            start <= i <= len,
            start < len,
            len == text@.len(),
            !is_space(text@[start as int]),
            pos <= start,
            numbers(text@, pos as int) == numbers(text@, start as int),
            token_end(text@, start as int) == token_end(text@, i as int),
            i <= token_end(text@, start as int) <= len,
            number(text@, start as int, i as int) == Some(v as nat),
            v <= u32::MAX,
        decreases len - i,
    {
        let b: u8 = text[i];
        proof {
            lemma_token_end(text@, i + 1);
            lemma_number_prefix(text@, start as int, i + 1, token_end(text@, start as int));
        }
        if b < 48 || b > 57 {
            return Err(ParseError::BadNumber);
        }
        let next: u64 = 10 * v + (b - 48) as u64;
        if next > 0xffff_ffff {
            return Err(ParseError::BadNumber);
        }
        v = next;
        i = i + 1;
    }
    Ok(Some((v as u32, i)))
}

/// A graph as a text: the numbers of source and target of each edge in
/// turn, parted by white space.
pub struct ReaderMapper<'a> {
    text: &'a [u8],
}

impl<'a> ReaderMapper<'a> {
    /// The text.
    pub closed spec fn text(&self) -> Seq<u8> {
        self.text@
    }

    /// Takes a text, and checks that it holds edges.
    pub fn new(text: &'a [u8]) -> (r: Result<Self, ParseError>)
        ensures
            match r {
                Ok(m) => m.wf() && m.text() == text@ && parse(text@) == Ok::<
                    Seq<(u32, u32)>,
                    ParseError,
                >(m.edges()),
                Err(e) => parse(text@) == Err::<Seq<(u32, u32)>, ParseError>(e),
            },
    {
        let len: usize = text.len();
        let mut pos: usize = 0;
        let mut even: bool = true;
        let ghost mut seen: Seq<u32> = Seq::empty();
        loop
            invariant
                pos <= len,
                len == text@.len(),
                even == (seen.len() % 2 == 0),
                numbers(text@, 0) == (match numbers(text@, pos as int) {
                    Some(rest) => Some(seen + rest),
                    None => None,
                }),
            decreases len - pos,
        {
            match next_number(text, pos) {
                Err(e) => {
                    return Err(e);
                },
                Ok(None) => {
                    proof {
                        assert(seen + Seq::<u32>::empty() == seen);
                    }
                    if even {
                        return Ok(ReaderMapper { text });
                    } else {
                        return Err(ParseError::OddCount);
                    }
                },
                Ok(Some((v, end))) => {
                    proof {
                        match numbers(text@, end as int) {
                            Some(rest) => {
                                assert(seen + (seq![v] + rest) == seen.push(v) + rest);
                            },
                            None => {},
                        }
                        seen = seen.push(v);
                    }
                    even = !even;
                    pos = end;
                },
            }
        }
    }
}

impl<'a> EdgeMapper for ReaderMapper<'a> {
    closed spec fn wf(&self) -> bool {
        &&& self.text@.len() <= usize::MAX
        &&& numbers(self.text@, 0) matches Some(nums) && nums.len() % 2 == 0
    }

    open spec fn edges(&self) -> Seq<(u32, u32)> {
        pairs(numbers(self.text(), 0).unwrap())
    }

    proof fn edge_count_fits(&self) {
        lemma_numbers_len(self.text@, 0);
    }

    fn map_edges<A: EdgeVisitor>(&self, action: &mut A) {
        let ghost nums = numbers(self.text@, 0).unwrap();
        let ghost all = self.edges();
        let ghost s0 = action.state();
        let len: usize = self.text.len();
        let mut pos: usize = 0;
        let mut done: bool = false;
        let ghost mut n: int = 0;
        proof {
            assert(nums.skip(0) == nums);
            assert(all.take(0) == Seq::<(u32, u32)>::empty());
        }
        while !done
            invariant
                self.wf(),
                len == self.text@.len(),
                pos <= len,
                nums == numbers(self.text@, 0).unwrap(),
                nums.len() % 2 == 0,
                all == pairs(nums),
                0 <= n <= all.len(),
                !done ==> numbers(self.text@, pos as int) == Some(nums.skip(2 * n)),
                done ==> n == all.len(),
                action.inv(),
                action.state() == crate::graph_iterator::fold_edges::<A>(s0, all.take(n)),
                crate::graph_iterator::accepts_all::<A>(s0, all),
            decreases
                    (if done {
                        0
                    } else {
                        1 + len - pos
                    }),
        {
            match next_number(self.text, pos) {
                Ok(Some((x, mid))) => {
                    proof {
                        let rest = numbers(self.text@, mid as int).unwrap();
                        assert((seq![x] + rest)[0] == x);
                        assert((seq![x] + rest).skip(1) == rest);
                        assert(nums.skip(2 * n)[0] == nums[2 * n]);
                        assert(nums.skip(2 * n).skip(1) == nums.skip(2 * n + 1));
                    }
                    match next_number(self.text, mid) {
                        Ok(Some((y, end))) => {
                            proof {
                                let rest = numbers(self.text@, end as int).unwrap();
                                assert((seq![y] + rest)[0] == y);
                                assert((seq![y] + rest).skip(1) == rest);
                                assert(nums.skip(2 * n + 1)[0] == nums[2 * n + 1]);
                                assert(nums.skip(2 * n + 1).skip(1) == nums.skip(2 * (n + 1)));
                                assert(all[n] == (x, y));
                            }
                            action.visit(x, y);
                            proof {
                                crate::graph_iterator::lemma_fold_push::<A>(s0, all.take(n), (x, y));
                                assert(all.take(n).push((x, y)) == all.take(n + 1));
                                n = n + 1;
                            }
                            pos = end;
                        },
                        Ok(None) => {
                            proof {
                                assert(nums.skip(2 * n + 1).len() == 0);
                            }
                            done = true;
                        },
                        Err(_e) => {
                            done = true;
                        },
                    }
                },
                Ok(None) => {
                    proof {
                        assert(nums.skip(2 * n).len() == 0);
                    }
                    done = true;
                },
                Err(_e) => {
                    done = true;
                },
            }
        }
        proof {
            assert(all.take(n) == all);
        }
    }
}

/// Turns a text of edges into a stream of deltas between the Hilbert
/// indices of its edges, the smallest first. An edge that the text holds
/// several times is written once. The edge from vertex 0 to vertex 0 has
/// the index zero, which no positive delta reaches: a text that holds it
/// is refused.
pub fn parse_to_hilbert(text: &[u8]) -> (r: Result<Vec<u8>, ParseError>)
    ensures
        match r {
            Ok(bytes) => parse(text@) matches Ok(edges) && !edges.contains((0u32, 0u32))
                && exists|zs: Seq<u64>|
                {
                    &&& #[trigger] crate::varint::rising(zs)
                    &&& forall|z: u64|
                        zs.contains(z) <==> crate::convert::indices_of(edges).contains(z)
                    &&& bytes@ == crate::varint::deltas(zs, 0)
                    &&& crate::varint::stream(bytes@, 0, 0) == (
                        zs,
                        None::<crate::error::DecodeError>,
                    )
                },
            Err(ParseError::Origin) => parse(text@) matches Ok(edges) && edges.contains(
                (0u32, 0u32),
            ),
            Err(e) => parse(text@) == Err::<Seq<(u32, u32)>, ParseError>(e),
        },
{
    let graph = match ReaderMapper::new(text) {
        Ok(graph) => graph,
        Err(e) => {
            return Err(e);
        },
    };
    let ghost edges = graph.edges();
    let all: Vec<u64> = crate::convert::to_hilbert(&graph);
    let zs: Vec<u64> = crate::convert::distinct(&all);
    proof {
        broadcast use vstd::seq_lib::group_to_multiset_ensures;

        crate::hilbert_curve::lemma_curve_start(32);
        assert forall|z: u64|
            zs@.contains(z) <==> crate::convert::indices_of(edges).contains(z) by {
            assert(all@.contains(z) <==> all@.to_multiset().count(z) > 0);
            assert(crate::convert::indices_of(edges).contains(z) <==> crate::convert::indices_of(
                edges,
            ).to_multiset().count(z) > 0);
        }
        if edges.contains((0u32, 0u32)) {
            let v = choose|v: int| 0 <= v < edges.len() && edges[v] == (0u32, 0u32);
            assert(crate::convert::indices_of(edges)[v] == 0);
            assert(crate::convert::indices_of(edges).contains(0));
            assert(zs@.contains(0));
            let w = choose|w: int| 0 <= w < zs@.len() && zs@[w] == 0;
            assert(zs@[0] <= zs@[w]);
        }
        if zs@.len() > 0 && zs@[0] == 0 {
            assert(zs@.contains(zs@[0]));
            assert(crate::convert::indices_of(edges).contains(0));
            let v = choose|v: int|
                0 <= v < crate::convert::indices_of(edges).len() && crate::convert::indices_of(
                    edges,
                )[v] == 0;
            crate::hilbert_curve::lemma_hilbert_injective(edges[v].0, edges[v].1, 0, 0);
            assert(edges[v] == (0u32, 0u32));
        }
    }
    if zs.len() > 0 && zs[0] == 0 {
        return Err(ParseError::Origin);
    }
    proof {
        assert(crate::varint::rising(zs@)) by {
            assert forall|i: int| 0 <= i < zs@.len() implies 0 < #[trigger] zs@[i] by {
                if i > 0 {
                    assert(zs@[0] < zs@[i]);
                }
            }
        }
        crate::convert::lemma_compressed_round_trip(edges, zs@);
    }
    let bytes = crate::varint::encode_deltas(&zs);
    Ok(bytes)
}

} // verus!
