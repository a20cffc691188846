use cost::error::DecodeError;
use cost::varint::decode;
use cost::varint::encode;
use cost::varint::encode_deltas;
use cost::varint::Decoder;

fn encoded(n: u64) -> Vec<u8> {
    let mut out: Vec<u8> = Vec::new();
    encode(&mut out, n);
    out
}

#[test]
fn encode_scenarios() {
    assert_eq!(encoded(0), vec![0x00]);
    assert_eq!(encoded(127), vec![0x7F]);
    assert_eq!(encoded(128), vec![0x80, 0x01]);
    assert_eq!(encoded(16384), vec![0x80, 0x80, 0x01]);
}

#[test]
fn encode_appends() {
    let mut out: Vec<u8> = vec![9, 9];
    encode(&mut out, 300);
    assert_eq!(out, vec![9, 9, 0xAC, 0x02]);
}

#[test]
fn encode_largest_value() {
    assert_eq!(
        encoded(u64::MAX),
        vec![0xFF, 0xFF, 0xFF, 0xFF, 0xFF, 0xFF, 0xFF, 0xFF, 0xFF, 0x01]
    );
}

#[test]
fn decode_inverts_encode() {
    for n in [0u64, 1, 127, 128, 255, 16383, 16384, 1 << 32, (1 << 63) - 1, 1 << 63, u64::MAX] {
        let bytes = encoded(n);
        assert_eq!(decode(&bytes, 0), Ok((n, bytes.len())));
    }
}

#[test]
fn decode_reads_from_the_given_position() {
    let bytes: Vec<u8> = vec![0x05, 0x80, 0x01, 0x07];
    assert_eq!(decode(&bytes, 0), Ok((5, 1)));
    assert_eq!(decode(&bytes, 1), Ok((128, 3)));
    assert_eq!(decode(&bytes, 3), Ok((7, 4)));
}

#[test]
fn decode_truncated_group() {
    assert_eq!(decode(&[0x80], 0), Err(DecodeError::Truncated));
    assert_eq!(decode(&[0x80, 0xFF], 0), Err(DecodeError::Truncated));
    assert_eq!(decode(&[], 0), Err(DecodeError::Truncated));
    assert_eq!(decode(&[0x01], 1), Err(DecodeError::Truncated));
}

#[test]
fn decode_value_beyond_64_bits() {
    let bytes: Vec<u8> = vec![0xFF, 0xFF, 0xFF, 0xFF, 0xFF, 0xFF, 0xFF, 0xFF, 0xFF, 0x02];
    assert_eq!(decode(&bytes, 0), Err(DecodeError::Overflow));
    let bytes: Vec<u8> = vec![0x80, 0x80, 0x80, 0x80, 0x80, 0x80, 0x80, 0x80, 0x80, 0x80, 0x01];
    assert_eq!(decode(&bytes, 0), Err(DecodeError::Overflow));
}

#[test]
fn decode_truncation_comes_before_overflow() {
    let bytes: Vec<u8> = vec![0xFF, 0xFF, 0xFF, 0xFF, 0xFF, 0xFF, 0xFF, 0xFF, 0xFF, 0xFF, 0xFF];
    assert_eq!(decode(&bytes, 0), Err(DecodeError::Truncated));
}

#[test]
fn decode_long_group_of_small_value() {
    let bytes: Vec<u8> = vec![0x81, 0x80, 0x80, 0x80, 0x80, 0x80, 0x80, 0x80, 0x80, 0x80, 0x80, 0x00];
    assert_eq!(decode(&bytes, 0), Ok((1, 12)));
}

#[test]
fn decoder_adds_up_deltas() {
    let mut bytes: Vec<u8> = Vec::new();
    encode(&mut bytes, 5);
    encode(&mut bytes, 200);
    encode(&mut bytes, 1);
    let mut reader = Decoder::new(&bytes);
    assert_eq!(reader.next(), Ok(Some(5)));
    assert_eq!(reader.next(), Ok(Some(205)));
    assert_eq!(reader.next(), Ok(Some(206)));
    assert_eq!(reader.next(), Ok(None));
    assert_eq!(reader.next(), Ok(None));
}

#[test]
fn decoder_of_empty_stream() {
    let bytes: Vec<u8> = Vec::new();
    let mut reader = Decoder::new(&bytes);
    assert_eq!(reader.next(), Ok(None));
}

#[test]
fn decoder_refuses_zero_delta() {
    let bytes: Vec<u8> = vec![0x03, 0x00, 0x01];
    let mut reader = Decoder::new(&bytes);
    assert_eq!(reader.next(), Ok(Some(3)));
    assert_eq!(reader.next(), Err(DecodeError::NotIncreasing));
    assert_eq!(reader.next(), Err(DecodeError::NotIncreasing));
}

#[test]
fn decoder_refuses_index_beyond_64_bits() {
    let mut bytes: Vec<u8> = Vec::new();
    encode(&mut bytes, u64::MAX);
    encode(&mut bytes, 1);
    let mut reader = Decoder::new(&bytes);
    assert_eq!(reader.next(), Ok(Some(u64::MAX)));
    assert_eq!(reader.next(), Err(DecodeError::NotIncreasing));
}

#[test]
fn decoder_truncated_stream() {
    let bytes: Vec<u8> = vec![0x03, 0x80];
    let mut reader = Decoder::new(&bytes);
    assert_eq!(reader.next(), Ok(Some(3)));
    assert_eq!(reader.next(), Err(DecodeError::Truncated));
}

#[test]
fn decoder_overflowing_delta() {
    let bytes: Vec<u8> = vec![0xFF, 0xFF, 0xFF, 0xFF, 0xFF, 0xFF, 0xFF, 0xFF, 0xFF, 0x7F];
    let mut reader = Decoder::new(&bytes);
    assert_eq!(reader.next(), Err(DecodeError::Overflow));
}

#[test]
fn deltas_of_rising_indices() {
    let zs: Vec<u64> = vec![1, 2, 130, 1000];
    let bytes = encode_deltas(&zs);
    assert_eq!(bytes, vec![0x01, 0x01, 0x80, 0x01, 0xE6, 0x06]);
    let mut reader = Decoder::new(&bytes);
    let mut back: Vec<u64> = Vec::new();
    while let Ok(Some(z)) = reader.next() {
        back.push(z);
    }
    assert_eq!(back, zs);
}
