use ssz::codec::decode_bools;
use ssz::codec::decode_bytes;
use ssz::codec::decode_bytes32;
use ssz::codec::decode_u64s;
use ssz::codec::encode_bools;
use ssz::codec::encode_bytes;
use ssz::codec::encode_bytes32;
use ssz::codec::encode_u64s;
use ssz::Error;

#[test]
fn u64s_encode_little_endian() {
    let encoded = encode_u64s(&[258]);
    assert_eq!(encoded, vec![2, 1, 0, 0, 0, 0, 0, 0]);
    let encoded = encode_u64s(&[1, u64::MAX]);
    assert_eq!(encoded.len(), 16);
    assert_eq!(&encoded[..8], &[1, 0, 0, 0, 0, 0, 0, 0]);
    assert_eq!(&encoded[8..], &[0xff; 8]);
}

#[test]
fn u64s_round_trip() {
    let values: Vec<u64> = vec![0, 1, 258, u64::MAX, 0xdead_beef];
    let encoded = encode_u64s(&values);
    assert_eq!(encoded.len(), 8 * values.len());
    let decoded = decode_u64s(&encoded, values.len()).unwrap();
    assert_eq!(decoded, values);
}

#[test]
fn u64s_encode_empty() {
    assert_eq!(encode_u64s(&[]), Vec::<u8>::new());
    assert_eq!(decode_u64s(&[], 0).unwrap(), Vec::<u64>::new());
}

#[test]
fn u64s_decode_wrong_count() {
    let encoded = encode_u64s(&[7, 8]);
    assert_eq!(decode_u64s(&encoded, 1), Err(Error::InvalidLength));
    assert_eq!(decode_u64s(&encoded, 3), Err(Error::InvalidLength));
}

#[test]
fn u64s_decode_misaligned() {
    assert_eq!(decode_u64s(&[1, 2, 3], 1), Err(Error::IncorrectSize));
    assert_eq!(decode_u64s(&[0; 9], 1), Err(Error::IncorrectSize));
}

#[test]
fn bools_encode_bit_layout() {
    let values = vec![
        true, false, true, true, false, false, false, false, true, true,
    ];
    let encoded = encode_bools(&values);
    assert_eq!(encoded, vec![0b0000_1101, 0b0000_0011]);
}

#[test]
fn bools_round_trip() {
    let values = vec![
        true, false, true, true, false, false, false, false, true, true,
    ];
    let encoded = encode_bools(&values);
    assert_eq!(encoded.len(), (values.len() + 7) / 8);
    let decoded = decode_bools(&encoded, values.len()).unwrap();
    assert_eq!(decoded, values);
}

#[test]
fn bools_encode_empty() {
    assert_eq!(encode_bools(&[]), Vec::<u8>::new());
    assert_eq!(decode_bools(&[], 0).unwrap(), Vec::<bool>::new());
}

#[test]
fn bools_decode_short_buffer() {
    // Nine booleans need two bytes; one is too short.
    assert_eq!(decode_bools(&[0xff], 9), Err(Error::IncorrectSize));
    assert_eq!(decode_bools(&[], 1), Err(Error::IncorrectSize));
}

#[test]
fn bools_decode_ignores_trailing_bytes() {
    // Extra trailing bytes beyond the expected size are a caller concern;
    // the decoder only validates its own required length.
    let decoded = decode_bools(&[0b0000_0101, 0xff, 0xff], 3).unwrap();
    assert_eq!(decoded, vec![true, false, true]);
}

#[test]
fn bytes_round_trip() {
    let data: Vec<u8> = (0..20).collect();
    let encoded = encode_bytes(&data);
    assert_eq!(encoded, data);
    assert_eq!(decode_bytes(&encoded, 20).unwrap(), data);
}

#[test]
fn bytes_decode_wrong_length() {
    assert_eq!(decode_bytes(&[1, 2, 3], 4), Err(Error::InvalidLength));
    assert_eq!(decode_bytes(&[1, 2, 3], 2), Err(Error::InvalidLength));
}

#[test]
fn bytes32_round_trip() {
    let mut value = [0u8; 32];
    for (i, b) in value.iter_mut().enumerate() {
        *b = i as u8;
    }
    let encoded = encode_bytes32(&value);
    assert_eq!(encoded, value.to_vec());
    assert_eq!(decode_bytes32(&encoded).unwrap(), value);
}

#[test]
fn bytes32_decode_wrong_length() {
    assert_eq!(decode_bytes32(&[0u8; 31]), Err(Error::InvalidLength));
    assert_eq!(decode_bytes32(&[0u8; 33]), Err(Error::InvalidLength));
}

#[test]
fn h256_round_trip() {
    let mut raw = [0u8; 32];
    for (i, b) in raw.iter_mut().enumerate() {
        *b = 31 - i as u8;
    }
    let value = ssz::H256(raw);
    let encoded = value.encode();
    assert_eq!(encoded, raw.to_vec());
    assert_eq!(ssz::H256::decode(&encoded), Ok(value));
}

#[test]
fn h256_decode_wrong_length() {
    assert_eq!(ssz::H256::decode(&[0u8; 16]), Err(Error::InvalidLength));
}

#[test]
fn u16s_round_trip() {
    let values: Vec<u16> = vec![0, 1, 258, u16::MAX];
    let encoded = ssz::codec::encode_u16s(&values);
    assert_eq!(encoded.len(), 2 * values.len());
    assert_eq!(&encoded[..4], &[0, 0, 1, 0]);
    let decoded = ssz::codec::decode_u16s(&encoded, values.len()).unwrap();
    assert_eq!(decoded, values);
}

#[test]
fn u16s_decode_wrong_shape() {
    assert_eq!(ssz::codec::decode_u16s(&[1], 1), Err(Error::IncorrectSize));
    assert_eq!(
        ssz::codec::decode_u16s(&[1, 2], 2),
        Err(Error::InvalidLength)
    );
}

#[test]
fn u32s_round_trip() {
    let values: Vec<u32> = vec![0, 1, 0x0102_0304, u32::MAX];
    let encoded = ssz::codec::encode_u32s(&values);
    assert_eq!(encoded.len(), 4 * values.len());
    assert_eq!(&encoded[8..12], &[4, 3, 2, 1]);
    let decoded = ssz::codec::decode_u32s(&encoded, values.len()).unwrap();
    assert_eq!(decoded, values);
}

#[test]
fn u32s_decode_wrong_shape() {
    assert_eq!(
        ssz::codec::decode_u32s(&[1, 2, 3], 1),
        Err(Error::IncorrectSize)
    );
    assert_eq!(
        ssz::codec::decode_u32s(&[0; 8], 1),
        Err(Error::InvalidLength)
    );
}

#[test]
fn u128s_round_trip() {
    let values: Vec<u128> = vec![0, 1, u128::MAX, 0x0102_0304_0506_0708];
    let encoded = ssz::codec::encode_u128s(&values);
    assert_eq!(encoded.len(), 16 * values.len());
    assert_eq!(&encoded[16..24], &[1, 0, 0, 0, 0, 0, 0, 0]);
    let decoded = ssz::codec::decode_u128s(&encoded, values.len()).unwrap();
    assert_eq!(decoded, values);
}

#[test]
fn u128s_decode_wrong_shape() {
    assert_eq!(
        ssz::codec::decode_u128s(&[0; 15], 1),
        Err(Error::IncorrectSize)
    );
    assert_eq!(
        ssz::codec::decode_u128s(&[0; 32], 1),
        Err(Error::InvalidLength)
    );
}
