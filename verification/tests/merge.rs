use cost::delta_stream::encode_rising;
use cost::hilbert_curve::{merge, Decoder};

fn stream(values: &[u64]) -> Vec<u8> {
    let mut bytes = Vec::new();
    encode_rising(&mut bytes, &values.to_vec());
    bytes
}

fn decoded(bytes: &[u8]) -> Vec<u64> {
    let mut decoder = Decoder::new(bytes);
    let mut values = Vec::new();
    while let Some(value) = decoder.next() {
        values.push(value);
    }
    values
}

#[test]
fn merge_of_three_streams() {
    let a = stream(&[1, 3, 5]);
    let b = stream(&[2, 3, 6]);
    let c = stream(&[4]);
    let merged = merge(vec![
        Decoder::new(&a[..]),
        Decoder::new(&b[..]),
        Decoder::new(&c[..]),
    ]);
    assert_eq!(merged, vec![1, 2, 3, 3, 4, 5, 6]);

    let mut encoded = Vec::new();
    encode_rising(&mut encoded, &merged);
    assert_eq!(decoded(&encoded), vec![1, 2, 3, 4, 5, 6]);
}

#[test]
fn merge_of_no_streams_and_of_empty_streams() {
    assert_eq!(merge(Vec::new()), Vec::<u64>::new());
    let empty: Vec<u8> = Vec::new();
    let one = stream(&[10, 20]);
    let merged = merge(vec![
        Decoder::new(&empty[..]),
        Decoder::new(&one[..]),
        Decoder::new(&empty[..]),
    ]);
    assert_eq!(merged, vec![10, 20]);
}

#[test]
fn merge_is_the_sorted_union_with_repeats() {
    let a = stream(&[1, 1 << 40, u64::MAX]);
    let b = stream(&[1, 2, 1 << 40]);
    let c = stream(&[1 << 40]);
    let merged = merge(vec![
        Decoder::new(&a[..]),
        Decoder::new(&b[..]),
        Decoder::new(&c[..]),
    ]);
    let mut expected = vec![1, 1 << 40, u64::MAX, 1, 2, 1 << 40, 1 << 40];
    expected.sort();
    assert_eq!(merged, expected);
}
