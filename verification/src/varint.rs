use crate::error::DecodeError;
use vstd::prelude::*;

verus! {

/// The variable-byte form of `n`: seven bits per byte, least significant
/// group first, the high bit set on every byte but the last.
pub open spec fn encoding(n: nat) -> Seq<u8>
    decreases n,
{
    if n < 128 {
        seq![n as u8]
    } else {
        seq![(128 + n % 128) as u8] + encoding(n / 128)
    }
}

/// Appends the variable-byte form of `n` to `out`.
pub fn encode(out: &mut Vec<u8>, n: u64)
    ensures
        final(out)@ == old(out)@ + encoding(n as nat),
{
    let mut rest: u64 = n;
    while rest >= 128
        invariant
            out@ + encoding(rest as nat) == old(out)@ + encoding(n as nat),
        decreases rest,
    {
        let low: u64 = rest % 128;
        let byte: u8 = (128 + low) as u8;
        proof {
            let tail = encoding((rest / 128) as nat);
            assert(encoding(rest as nat) == seq![byte] + tail);
            assert(out@.push(byte) + tail == out@ + (seq![byte] + tail));
        }
        out.push(byte);
        rest = rest / 128;
    }
    proof {
        assert(encoding(rest as nat) == seq![rest as u8]);
        assert(out@.push(rest as u8) == out@ + seq![rest as u8]);
    }
    out.push(rest as u8);
}

/// What the variable-byte group that starts at `pos` holds: its value, and
/// the position behind its last byte. `None` where the bytes end before
/// the group does.
pub open spec fn decoding(s: Seq<u8>, pos: int) -> Option<(nat, int)>
    decreases s.len() - pos,
{
    if pos < 0 || pos >= s.len() {
        None
    } else if s[pos] < 128 {
        Some((s[pos] as nat, pos + 1))
    } else {
        match decoding(s, pos + 1) {
            Some((v, end)) => Some(((s[pos] - 128) as nat + 128 * v, end)),
            None => None,
        }
    }
}

/// The weight of the group with the number `n`: 128 to the power `n`.
pub open spec fn weight(n: nat) -> nat
    decreases n,
{
    if n == 0 {
        1
    } else {
        128 * weight((n - 1) as nat)
    }
}

/// A group ends behind its first byte or later, within the bytes.
pub proof fn lemma_decoding_end(s: Seq<u8>, pos: int)
    ensures
        decoding(s, pos) matches Some((v, end)) ==> pos < end <= s.len(),
    decreases s.len() - pos,
{
    if 0 <= pos < s.len() && s[pos] >= 128 {
        lemma_decoding_end(s, pos + 1);
    }
}

/// The group that `encode` writes holds the number that was written, and
/// ends where `encode` stopped.
pub proof fn lemma_decode_encode(before: Seq<u8>, n: nat, after: Seq<u8>)
    ensures
        decoding(before + encoding(n) + after, before.len() as int) == Some(
            (n, (before.len() + encoding(n).len()) as int),
        ),
    decreases n,
{
    let s = before + encoding(n) + after;
    if n < 128 {
        assert(s[before.len() as int] == n as u8);
    } else {
        let first = (128 + n % 128) as u8;
        let more = before.push(first);
        lemma_decode_encode(more, n / 128, after);
        assert(more + encoding(n / 128) + after == s);
        assert(s[before.len() as int] == first);
    }
}

/// The weights of the first ten groups.
proof fn lemma_weights()
    ensures
        weight(0) == 1,
        weight(1) == 0x80,
        weight(2) == 0x4000,
        weight(3) == 0x20_0000,
        weight(4) == 0x1000_0000,
        weight(5) == 0x8_0000_0000,
        weight(6) == 0x400_0000_0000,
        weight(7) == 0x2_0000_0000_0000,
        weight(8) == 0x100_0000_0000_0000,
        weight(9) == 0x8000_0000_0000_0000,
        weight(10) == 0x40_0000_0000_0000_0000,
{
    reveal_with_fuel(weight, 11);
}

/// Weights grow with the number of the group.
proof fn lemma_weight_grows(m: nat, n: nat)
    requires
        m <= n,
    ensures
        weight(m) <= weight(n),
    decreases n,
{
    if m < n {
        lemma_weight_grows(m, (n - 1) as nat);
    }
}

/// Reads the variable-byte group that starts at `pos`: its value, and the
/// position behind its last byte.
pub fn decode(bytes: &[u8], pos: usize) -> (r: Result<(u64, usize), DecodeError>)
    ensures
        match r {
            Ok((v, end)) => decoding(bytes@, pos as int) == Some((v as nat, end as int)),
            Err(DecodeError::Truncated) => decoding(bytes@, pos as int) is None,
            Err(DecodeError::Overflow) => decoding(bytes@, pos as int) matches Some((v, end))
                && v > u64::MAX,
            Err(DecodeError::NotIncreasing) => false,
        },
{
    let len: usize = bytes.len();
    let mut i: usize = pos;
    let mut n: u8 = 0;
    let mut w: u64 = 1;
    let mut acc: u64 = 0;
    let mut overflow: bool = false;
    let ghost mut value: nat = 0;
    let ghost mut groups: nat = 0;
    while i < len
        invariant
            len == bytes@.len(),
            pos <= i,
            n <= 10,
            n < 10 ==> n == groups && w == weight(groups),
            n == 10 ==> groups >= 10,
            overflow ==> value > u64::MAX,
            !overflow ==> acc == value,
            decoding(bytes@, pos as int) == (match decoding(bytes@, i as int) {
                Some((v, end)) => Some((value + weight(groups) * v, end)),
                None => None,
            }),
        decreases len - i,
    {
        let byte: u8 = bytes[i];
        let g: u8 = byte % 128;
        let ghost before = value;
        proof {
            lemma_weights();
            if groups >= 10 {
                lemma_weight_grows(10, groups);
            } else {
                lemma_weight_grows(groups, 9);
            }
            let wt = weight(groups);
            assert(wt * (g as nat) >= 0) by (nonlinear_arith);
            assert(g == 0 ==> wt * (g as nat) == 0) by (nonlinear_arith);
            assert(g >= 1 ==> wt * (g as nat) >= wt) by (nonlinear_arith);
            assert(wt * (g as nat) <= wt * 127) by (nonlinear_arith)
                requires
                    g <= 127,
            ;
            value = value + wt * (g as nat);
            match decoding(bytes@, i + 1) {
                Some((v, end)) => {
                    assert(wt * ((g as nat) + 128 * v) == wt * (g as nat) + (128 * wt) * v)
                        by (nonlinear_arith);
                },
                None => {},
            }
            if byte < 128 {
                assert(wt * (g as nat) == wt * (byte as nat));
            }
        }
        if g > 0 && !overflow {
            if n >= 10 {
                overflow = true;
            } else {
                assert(w as nat * (g as nat) == weight(groups) * (g as nat));
                assert(w * g <= w * 127) by (nonlinear_arith)
                    requires
                        g <= 127,
                ;
                let add: u128 = (w as u128) * (g as u128);
                let sum: u128 = acc as u128 + add;
                if sum > u64::MAX as u128 {
                    overflow = true;
                } else {
                    acc = sum as u64;
                }
            }
        }
        if byte < 128 {
            if overflow {
                return Err(DecodeError::Overflow);
            } else {
                return Ok((acc, i + 1));
            }
        }
        if n < 9 {
            w = w * 128;
            n = n + 1;
        } else {
            n = 10;
        }
        proof {
            groups = groups + 1;
        }
        i = i + 1;
    }
    Err(DecodeError::Truncated)
}

/// What a stream of deltas holds from `pos` on, after the index `acc`: the
/// indices that decode, in order, and the fault that ends them, if there is
/// one. Each delta is a variable-byte group; each index is the one before
/// plus the delta.
pub open spec fn stream(s: Seq<u8>, pos: int, acc: nat) -> (Seq<u64>, Option<DecodeError>)
    decreases s.len() - pos,
    via stream_decreases
{
    if pos < 0 || pos >= s.len() {
        (Seq::empty(), None)
    } else {
        match decoding(s, pos) {
            None => (Seq::empty(), Some(DecodeError::Truncated)),
            Some((delta, end)) => {
                if delta > u64::MAX {
                    (Seq::empty(), Some(DecodeError::Overflow))
                } else if delta == 0 || acc + delta > u64::MAX {
                    (Seq::empty(), Some(DecodeError::NotIncreasing))
                } else {
                    let rest = stream(s, end, acc + delta);
                    (seq![(acc + delta) as u64] + rest.0, rest.1)
                }
            },
        }
    }
}

#[via_fn]
proof fn stream_decreases(s: Seq<u8>, pos: int, acc: nat) {
    lemma_decoding_end(s, pos);
}

/// The indices of a stream rise strictly, from above the index before the
/// first.
pub proof fn lemma_stream_rises(s: Seq<u8>, pos: int, acc: nat)
    requires
        acc <= u64::MAX,
    ensures
        forall|i: int| 0 <= i < stream(s, pos, acc).0.len() ==> acc < stream(s, pos, acc).0[i],
        forall|i: int, j: int|
            0 <= i < j < stream(s, pos, acc).0.len() ==> stream(s, pos, acc).0[i] < stream(
                s,
                pos,
                acc,
            ).0[j],
    decreases s.len() - pos,
{
    if 0 <= pos < s.len() {
        lemma_decoding_end(s, pos);
        match decoding(s, pos) {
            None => {},
            Some((delta, end)) => {
                if !(delta > u64::MAX) && !(delta == 0 || acc + delta > u64::MAX) {
                    lemma_stream_rises(s, end, acc + delta);
                    let rest = stream(s, end, acc + delta).0;
                    let all = stream(s, pos, acc).0;
                    assert(all == seq![(acc + delta) as u64] + rest);
                    assert forall|i: int| 0 <= i < all.len() implies acc < all[i] by {
                        if i > 0 {
                            assert(all[i] == rest[i - 1]);
                        }
                    }
                    assert forall|i: int, j: int| 0 <= i < j < all.len() implies all[i]
                        < all[j] by {
                        assert(all[j] == rest[j - 1]);
                        if i > 0 {
                            assert(all[i] == rest[i - 1]);
                        }
                    }
                }
            },
        }
    }
}

/// A reader of a stream of deltas: it hands out the indices one by one.
pub struct Decoder<'a> {
    bytes: &'a [u8],
    pos: usize,
    current: u64,
}

impl<'a> Decoder<'a> {
    /// What is still to come: the indices, and the fault that ends them, if
    /// there is one.
    pub closed spec fn pending(&self) -> (Seq<u64>, Option<DecodeError>) {
        stream(self.bytes@, self.pos as int, self.current as nat)
    }

    /// The last index handed out, zero before the first.
    pub closed spec fn last(&self) -> u64 {
        self.current
    }

    /// What is still to come rises strictly, from above the last index
    /// handed out.
    pub proof fn lemma_pending_rises(&self)
        ensures
            forall|i: int| 0 <= i < self.pending().0.len() ==> self.last() < self.pending().0[i],
            forall|i: int, j: int|
                0 <= i < j < self.pending().0.len() ==> self.pending().0[i] < self.pending().0[j],
    {
        lemma_stream_rises(self.bytes@, self.pos as int, self.current as nat);
    }

    /// A reader at the start of `bytes`.
    pub fn new(bytes: &'a [u8]) -> (r: Self)
        ensures
            r.pending() == stream(bytes@, 0, 0),
            r.last() == 0,
    {
        Decoder { bytes, pos: 0, current: 0 }
    }

    /// The next index. `Ok(None)` at the end of the stream; a fault where the
    /// stream breaks off inside a group, holds a delta beyond 64 bits, or
    /// does not rise. After the end or a fault the reader stays where it is.
    pub fn next(&mut self) -> (r: Result<Option<u64>, DecodeError>)
        ensures
            match r {
                Ok(Some(z)) => {
                    &&& old(self).pending().0.len() > 0
                    &&& z == old(self).pending().0[0]
                    &&& z > old(self).last()
                    &&& final(self).last() == z
                    &&& final(self).pending() == (
                        old(self).pending().0.skip(1),
                        old(self).pending().1,
                    )
                },
                Ok(None) => {
                    &&& old(self).pending() == (Seq::<u64>::empty(), None::<DecodeError>)
                    &&& *final(self) == *old(self)
                },
                Err(e) => {
                    &&& old(self).pending() == (Seq::<u64>::empty(), Some(e))
                    &&& *final(self) == *old(self)
                },
            },
    {
        if self.pos >= self.bytes.len() {
            return Ok(None);
        }
        proof {
            lemma_decoding_end(self.bytes@, self.pos as int);
        }
        match decode(self.bytes, self.pos) {
            Err(e) => Err(e),
            Ok((delta, end)) => {
                if delta == 0 || delta > u64::MAX - self.current {
                    Err(DecodeError::NotIncreasing)
                } else {
                    let ghost rest = stream(
                        self.bytes@,
                        end as int,
                        (self.current + delta) as nat,
                    );
                    let z: u64 = self.current + delta;
                    assert((seq![z] + rest.0).skip(1) == rest.0);
                    self.current = z;
                    self.pos = end;
                    Ok(Some(z))
                }
            },
        }
    }
}

/// The bytes of a stream of deltas for the indices `zs`, which rise from
/// above `acc`.
pub open spec fn deltas(zs: Seq<u64>, acc: nat) -> Seq<u8>
    decreases zs.len(),
{
    if zs.len() == 0 {
        Seq::empty()
    } else {
        encoding((zs[0] - acc) as nat) + deltas(zs.skip(1), zs[0] as nat)
    }
}

/// The indices rise strictly, from above zero.
pub open spec fn rising(zs: Seq<u64>) -> bool {
    &&& forall|i: int| 0 <= i < zs.len() ==> 0 < #[trigger] zs[i]
    &&& forall|i: int, j: int| 0 <= i < j < zs.len() ==> zs[i] < zs[j]
}

/// The stream of deltas for rising indices decodes to these indices,
/// without a fault.
pub proof fn lemma_stream_of_deltas(before: Seq<u8>, zs: Seq<u64>, acc: nat)
    requires
        forall|i: int| 0 <= i < zs.len() ==> acc < #[trigger] zs[i],
        forall|i: int, j: int| 0 <= i < j < zs.len() ==> zs[i] < zs[j],
    ensures
        stream(before + deltas(zs, acc), before.len() as int, acc) == (zs, None::<DecodeError>),
    decreases zs.len(),
{
    let s = before + deltas(zs, acc);
    if zs.len() == 0 {
        assert(s == before);
    } else {
        let delta = (zs[0] - acc) as nat;
        let tail = deltas(zs.skip(1), zs[0] as nat);
        let more = before + encoding(delta);
        lemma_decode_encode(before, delta, tail);
        assert(before + encoding(delta) + tail == s);
        lemma_encoding_len(delta);
        assert forall|i: int| 0 <= i < zs.skip(1).len() implies (zs[0] as nat)
            < #[trigger] zs.skip(1)[i] by {
            assert(zs.skip(1)[i] == zs[i + 1]);
        }
        assert forall|i: int, j: int| 0 <= i < j < zs.skip(1).len() implies zs.skip(1)[i]
            < zs.skip(1)[j] by {
            assert(zs.skip(1)[i] == zs[i + 1]);
            assert(zs.skip(1)[j] == zs[j + 1]);
        }
        lemma_stream_of_deltas(more, zs.skip(1), zs[0] as nat);
        assert(more + tail == s);
        assert(seq![zs[0]] + zs.skip(1) == zs);
    }
}

/// A variable-byte group has at least one byte.
pub proof fn lemma_encoding_len(n: nat)
    ensures
        encoding(n).len() >= 1,
    decreases n,
{
    if n >= 128 {
        lemma_encoding_len(n / 128);
    }
}

/// Writes rising indices as a stream of deltas.
pub fn encode_deltas(zs: &Vec<u64>) -> (out: Vec<u8>)
    requires
        rising(zs@),
    ensures
        out@ == deltas(zs@, 0),
{
    let mut out: Vec<u8> = Vec::new();
    let mut prev: u64 = 0;
    let mut i: usize = 0;
    proof {
        assert(zs@.skip(0) == zs@);
        assert(out@ + deltas(zs@, 0) == deltas(zs@, 0));
    }
    while i < zs.len()
        invariant
            i <= zs@.len(),
            rising(zs@),
            prev == (if i == 0 {
                0
            } else {
                zs@[i - 1]
            }),
            out@ + deltas(zs@.skip(i as int), prev as nat) == deltas(zs@, 0),
        decreases zs@.len() - i,
    {
        let next: u64 = zs[i];
        let ghost rest = zs@.skip(i as int);
        proof {
            assert(rest[0] == next);
            assert(rest.skip(1) == zs@.skip(i + 1));
            assert(out@ + (encoding((next - prev) as nat) + deltas(rest.skip(1), next as nat))
                == out@ + encoding((next - prev) as nat) + deltas(rest.skip(1), next as nat));
        }
        encode(&mut out, next - prev);
        prev = next;
        i = i + 1;
    }
    proof {
        assert(zs@.skip(i as int).len() == 0);
        assert(out@ + Seq::<u8>::empty() == out@);
    }
    out
}

} // verus!
