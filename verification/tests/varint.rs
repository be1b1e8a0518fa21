use cost::delta_stream::{encode_rising, is_delta_stream};
use cost::hilbert_curve::{decode, encode, Decoder};
use cost::varint::{decode_at, first_at};

#[test]
fn test_encode_decode() {
    let test_vec = vec![1, 2, 1 << 20, 1 << 60];
    let mut writer = Vec::new();
    for &elt in test_vec.iter() {
        encode(&mut writer, elt);
    }

    let mut test_out = Vec::new();
    let mut reader = &writer[..];
    while let Some(elt) = decode(&mut reader) {
        test_out.push(elt);
    }

    assert_eq!(test_vec, test_out);
}

fn encoded(diff: u64) -> Vec<u8> {
    let mut writer = Vec::new();
    encode(&mut writer, diff);
    writer
}

#[test]
fn encode_writes_zero_bytes_then_the_bytes_of_the_difference() {
    assert_eq!(encoded(1), vec![1]);
    assert_eq!(encoded(255), vec![255]);
    assert_eq!(encoded(256), vec![0, 1, 0]);
    assert_eq!(encoded(0x1234), vec![0, 0x12, 0x34]);
    assert_eq!(encoded(1 << 20), vec![0, 0, 0x10, 0, 0]);
    assert_eq!(
        encoded(1 << 60),
        vec![0, 0, 0, 0, 0, 0, 0, 0x10, 0, 0, 0, 0, 0, 0, 0]
    );
    assert_eq!(
        encoded(u64::MAX),
        vec![0, 0, 0, 0, 0, 0, 0, 255, 255, 255, 255, 255, 255, 255, 255]
    );
}

#[test]
fn encode_appends_to_what_the_writer_holds() {
    let mut writer = vec![7u8, 8];
    encode(&mut writer, 0x0102);
    assert_eq!(writer, vec![7, 8, 0, 1, 2]);
}

#[test]
fn decode_takes_one_difference_and_leaves_the_rest() {
    let bytes = vec![0u8, 1, 0, 5, 9];
    let mut reader = &bytes[..];
    assert_eq!(decode(&mut reader), Some(256));
    assert_eq!(reader, &[5u8, 9][..]);
    assert_eq!(decode(&mut reader), Some(5));
    assert_eq!(decode(&mut reader), Some(9));
    assert_eq!(decode(&mut reader), None);
    assert_eq!(decode(&mut reader), None);
    assert!(reader.is_empty());
}

#[test]
fn decode_reads_zero_bytes_within_a_difference() {
    let bytes = encoded(0x0100_0000_0001);
    assert_eq!(bytes, vec![0, 0, 0, 0, 0, 1, 0, 0, 0, 0, 1]);
    let mut reader = &bytes[..];
    assert_eq!(decode(&mut reader), Some(0x0100_0000_0001));
    assert!(reader.is_empty());
}

#[test]
fn decode_at_and_first_at_agree_with_decode() {
    let mut bytes = Vec::new();
    for diff in [3u64, 300, 70000, 1 << 40] {
        encode(&mut bytes, diff);
    }
    let mut cursor = 0;
    let mut seen = Vec::new();
    while cursor < bytes.len() {
        let checked = first_at(&bytes, cursor);
        let (diff, next) = decode_at(&bytes, cursor);
        assert_eq!(checked, Some((diff, next)));
        seen.push(diff);
        cursor = next;
    }
    assert_eq!(seen, vec![3, 300, 70000, 1 << 40]);
}

#[test]
fn first_at_refuses_what_is_no_difference() {
    // the bytes end within the difference
    assert_eq!(first_at(&[0u8, 1], 0), None);
    assert_eq!(first_at(&[0u8], 0), None);
    assert_eq!(first_at(&[5u8, 0, 0, 7], 1), None);
    // more than eight bytes do not fit in 64 bits
    let long = [0u8, 0, 0, 0, 0, 0, 0, 0, 1, 0, 0, 0, 0, 0, 0, 0, 0];
    assert_eq!(first_at(&long, 0), None);
    assert_eq!(first_at(&[5u8, 0, 1, 7], 1), Some((0x0107, 4)));
}

#[test]
fn a_stream_is_whole_differences_whose_sums_fit() {
    assert!(is_delta_stream(&[]));
    assert!(is_delta_stream(&[1, 2, 0, 1, 0]));
    assert!(!is_delta_stream(&[1, 2, 0, 1]));
    assert!(!is_delta_stream(&[0]));
    let mut bytes = encoded(u64::MAX);
    assert!(is_delta_stream(&bytes));
    bytes.push(1);
    assert!(!is_delta_stream(&bytes));
}

#[test]
fn decoder_gives_the_sums_of_the_differences() {
    let mut bytes = Vec::new();
    for diff in [1u64, 1, 1 << 20, 1 << 60] {
        encode(&mut bytes, diff);
    }
    let mut decoder = Decoder::new(&bytes[..]);
    assert_eq!(decoder.next(), Some(1));
    assert_eq!(decoder.next(), Some(2));
    assert_eq!(decoder.next(), Some(2 + (1 << 20)));
    assert_eq!(decoder.next(), Some(2 + (1 << 20) + (1 << 60)));
    assert_eq!(decoder.next(), None);
    assert_eq!(decoder.next(), None);
}

#[test]
fn decoded_values_increase_strictly() {
    let values: Vec<u64> = vec![5, 6, 1000, 1001, 1 << 33, (1 << 33) + 255, u64::MAX];
    let mut bytes = Vec::new();
    encode_rising(&mut bytes, &values);
    let mut decoder = Decoder::new(&bytes[..]);
    let mut prev = 0u64;
    let mut seen = Vec::new();
    while let Some(value) = decoder.next() {
        assert!(prev < value);
        prev = value;
        seen.push(value);
    }
    assert_eq!(seen, values);
}

#[test]
fn encode_rising_passes_over_what_does_not_rise() {
    let values: Vec<u64> = vec![0, 0, 3, 3, 3, 7, 2, 7, 300, 300];
    let mut bytes = vec![9u8];
    encode_rising(&mut bytes, &values);
    assert_eq!(bytes, vec![9, 3, 4, 0, 1, 37]);
    let mut decoder = Decoder::new(&bytes[1..]);
    let mut seen = Vec::new();
    while let Some(value) = decoder.next() {
        seen.push(value);
    }
    assert_eq!(seen, vec![3, 7, 300]);
}
