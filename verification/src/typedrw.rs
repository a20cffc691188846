use byteorder::ByteOrder;
use byteorder::LittleEndian;
use vstd::prelude::*;
use vstd::slice::slice_subrange;

verus! {

/// The 16-bit value with the little-endian bytes `b0`, `b1`.
pub open spec fn le_u16(b0: u8, b1: u8) -> u16 {
    (b0 + 256 * b1) as u16
}

/// The 32-bit value with the little-endian bytes `b0` to `b3`.
pub open spec fn le_u32(b0: u8, b1: u8, b2: u8, b3: u8) -> u32 {
    (b0 + 256 * b1 + 65536 * b2 + 16777216 * b3) as u32
}

/// The two little-endian bytes of `n`.
pub open spec fn u16_bytes(n: u16) -> Seq<u8> {
    seq![(n % 256) as u8, (n / 256) as u8]
}

/// The four little-endian bytes of `n`.
pub open spec fn u32_bytes(n: u32) -> Seq<u8> {
    seq![
        (n % 256) as u8,
        (n / 256 % 256) as u8,
        (n / 65536 % 256) as u8,
        (n / 16777216) as u8,
    ]
}

/// The `i`-th 16-bit word of a packed little-endian array.
pub open spec fn half(bytes: Seq<u8>, i: int) -> u16 {
    le_u16(bytes[2 * i], bytes[2 * i + 1])
}

/// The `i`-th 32-bit word of a packed little-endian array.
pub open spec fn word(bytes: Seq<u8>, i: int) -> u32 {
    le_u32(bytes[4 * i], bytes[4 * i + 1], bytes[4 * i + 2], bytes[4 * i + 3])
}

/// A packed little-endian array read as 32-bit words; trailing bytes that
/// do not fill a word are left out.
pub open spec fn words(bytes: Seq<u8>) -> Seq<u32> {
    Seq::new((bytes.len() / 4) as nat, |i: int| word(bytes, i))
}

/// `byteorder::LittleEndian::read_u16`: the value of the first two bytes of
/// `buf`, least significant byte first. The outside function panics on a
/// shorter buffer, which the precondition leaves out.
#[verifier::external_body]
pub(crate) fn read_u16(buf: &[u8]) -> (n: u16)
    requires
        buf@.len() >= 2,
    ensures
        n == le_u16(buf@[0], buf@[1]),
{
    LittleEndian::read_u16(buf)
}

/// `byteorder::LittleEndian::read_u32`: the value of the first four bytes of
/// `buf`, least significant byte first. The outside function panics on a
/// shorter buffer, which the precondition leaves out.
#[verifier::external_body]
pub(crate) fn read_u32(buf: &[u8]) -> (n: u32)
    requires
        buf@.len() >= 4,
    ensures
        n == le_u32(buf@[0], buf@[1], buf@[2], buf@[3]),
{
    LittleEndian::read_u32(buf)
}

/// `byteorder::LittleEndian::write_u16`, on a fresh two-byte buffer: the
/// bytes of `n`, least significant first.
#[verifier::external_body]
pub(crate) fn write_u16(n: u16) -> (bytes: [u8; 2])
    ensures
        bytes@ == u16_bytes(n),
{
    let mut buf: [u8; 2] = [0u8; 2];
    LittleEndian::write_u16(&mut buf, n);
    buf
}

/// `byteorder::LittleEndian::write_u32`, on a fresh four-byte buffer: the
/// bytes of `n`, least significant first.
#[verifier::external_body]
pub(crate) fn write_u32(n: u32) -> (bytes: [u8; 4])
    ensures
        bytes@ == u32_bytes(n),
{
    let mut buf: [u8; 4] = [0u8; 4];
    LittleEndian::write_u32(&mut buf, n);
    buf
}

/// Reads the `i`-th 16-bit word of a packed little-endian array.
pub fn get_u16(bytes: &[u8], i: usize) -> (n: u16)
    requires
        2 * i + 2 <= bytes@.len(),
    ensures
        n == half(bytes@, i as int),
{
    let len: usize = bytes.len();
    let part = slice_subrange(bytes, 2 * i, 2 * i + 2);
    read_u16(part)
}

/// Reads the `i`-th 32-bit word of a packed little-endian array.
pub fn get_u32(bytes: &[u8], i: usize) -> (n: u32)
    requires
        4 * i + 4 <= bytes@.len(),
    ensures
        n == word(bytes@, i as int),
{
    let len: usize = bytes.len();
    let part = slice_subrange(bytes, 4 * i, 4 * i + 4);
    read_u32(part)
}

/// Appends the two little-endian bytes of `n` to `out`.
pub fn put_u16(out: &mut Vec<u8>, n: u16)
    ensures
        final(out)@ == old(out)@ + u16_bytes(n),
{
    let bytes = write_u16(n);
    out.push(bytes[0]);
    out.push(bytes[1]);
    assert(out@ == old(out)@ + u16_bytes(n));
}

/// Appends the four little-endian bytes of `n` to `out`.
pub fn put_u32(out: &mut Vec<u8>, n: u32)
    ensures
        final(out)@ == old(out)@ + u32_bytes(n),
{
    let bytes = write_u32(n);
    out.push(bytes[0]);
    out.push(bytes[1]);
    out.push(bytes[2]);
    out.push(bytes[3]);
    assert(out@ == old(out)@ + u32_bytes(n));
}

/// Reading back what was written gives the value that was written.
pub proof fn lemma_u16_round_trip(n: u16)
    ensures
        u16_bytes(n).len() == 2,
        le_u16(u16_bytes(n)[0], u16_bytes(n)[1]) == n,
{
}

/// Reading back what was written gives the value that was written.
pub proof fn lemma_u32_round_trip(n: u32)
    ensures
        u32_bytes(n).len() == 4,
        le_u32(u32_bytes(n)[0], u32_bytes(n)[1], u32_bytes(n)[2], u32_bytes(n)[3]) == n,
{
}

/// The bytes of a packed little-endian array that holds the 32-bit words
/// `ws`.
pub open spec fn word_bytes(ws: Seq<u32>) -> Seq<u8>
    decreases ws.len(),
{
    if ws.len() == 0 {
        Seq::empty()
    } else {
        word_bytes(ws.drop_last()) + u32_bytes(ws.last())
    }
}

/// A packed array has four bytes for each word, and reads back as the words
/// that were written.
pub proof fn lemma_words_round_trip(ws: Seq<u32>)
    ensures
        word_bytes(ws).len() == 4 * ws.len(),
        words(word_bytes(ws)) == ws,
    decreases ws.len(),
{
    if ws.len() > 0 {
        let head = ws.drop_last();
        lemma_words_round_trip(head);
        lemma_u32_round_trip(ws.last());
        let a = word_bytes(head);
        let b = word_bytes(ws);
        let rec = u32_bytes(ws.last());
        assert(b == a + rec);
        assert forall|i: int| 0 <= i < ws.len() implies words(b)[i] == ws[i] by {
            if i < head.len() {
                assert(words(a)[i] == head[i]);
                assert(forall|k: int| 0 <= k < a.len() ==> b[k] == a[k]);
            } else {
                assert(forall|k: int| 0 <= k < 4 ==> b[a.len() + k] == rec[k]);
                assert(b[4 * i] == rec[0]);
                assert(b[4 * i + 1] == rec[1]);
                assert(b[4 * i + 2] == rec[2]);
                assert(b[4 * i + 3] == rec[3]);
            }
        }
        assert(words(b) =~= ws);
    } else {
        assert(words(word_bytes(ws)) =~= ws);
    }
}

} // verus!
