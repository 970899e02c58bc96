use dbsp::error::IoError;
use dbsp::trace::ord::OrdBatch;
use dbsp::trace::persistent::{batch_from_decoded, decode_batch, encode_batch, frame, StoredBatch};
use dbsp::trace::{Batch, BatchReader};

fn sample() -> StoredBatch {
    let a = StoredBatch::from_tuples(3, vec![((1, 2), 5), ((7, 7), -1)]);
    let b = StoredBatch::from_tuples(4, vec![((1, 2), 1), ((0, 9), 4)]);
    a.merge(&b)
}

fn same(a: &StoredBatch, b: &StoredBatch) -> bool {
    a.len() == b.len()
        && (0..a.len()).all(|i| a.get(i) == b.get(i))
        && a.lower().same_as(b.lower())
        && a.upper().same_as(b.upper())
}

#[test]
fn encoding_starts_with_the_format_tag_and_round_trips() {
    let batch = sample();
    let bytes = encode_batch(&batch).unwrap();
    assert_eq!(&bytes[..4], &[1, 0, 0, 0]);
    assert!(bytes.len() > 4);
    let back = decode_batch(&bytes).unwrap();
    assert!(same(&back, &batch));
    let empty = StoredBatch::empty(0);
    assert!(same(&decode_batch(&encode_batch(&empty).unwrap()).unwrap(), &empty));
}

#[test]
fn short_bytes_are_a_short_read() {
    assert_eq!(decode_batch(&vec![]).err(), Some(IoError::ShortRead));
    assert_eq!(decode_batch(&vec![1, 0, 0]).err(), Some(IoError::ShortRead));
}

#[test]
fn another_tag_is_an_unknown_format() {
    let mut bytes = encode_batch(&sample()).unwrap();
    bytes[0] = 2;
    assert_eq!(decode_batch(&bytes).err(), Some(IoError::UnknownFormat));
    assert_eq!(decode_batch(&vec![1, 0, 0, 1, 0]).err(), Some(IoError::UnknownFormat));
}

#[test]
fn damaged_payloads_are_corrupt() {
    let bytes = encode_batch(&sample()).unwrap();
    let mut cut = bytes.clone();
    cut.pop();
    assert_eq!(decode_batch(&cut).err(), Some(IoError::Corrupt));
    let mut long = bytes.clone();
    long.push(0);
    assert_eq!(decode_batch(&long).err(), Some(IoError::Corrupt));
    assert_eq!(decode_batch(&vec![1, 0, 0, 0]).err(), Some(IoError::Corrupt));
    let huge = vec![1, 0, 0, 0, 0, 0, 253, 255, 255, 255, 255, 255, 255, 255, 255];
    assert_eq!(decode_batch(&huge).err(), Some(IoError::Corrupt));
}

#[test]
fn decoded_parts_must_make_a_valid_batch() {
    let rows = vec![(((1u64, 1u64), 2u32), 1i64), (((2, 2), 2), 3)];
    assert!(batch_from_decoded(Some((vec![2], vec![3], rows.clone(), 10)), 10).is_ok());
    assert_eq!(
        batch_from_decoded(Some((vec![2], vec![3], rows.clone(), 9)), 10).err(),
        Some(IoError::Corrupt)
    );
    assert_eq!(batch_from_decoded(None, 0).err(), Some(IoError::Corrupt));
    let unsorted = vec![(((2u64, 2u64), 2u32), 3i64), (((1, 1), 2), 1)];
    assert!(batch_from_decoded(Some((vec![2], vec![3], unsorted, 0)), 0).is_err());
    let zero = vec![(((1u64, 1u64), 2u32), 0i64)];
    assert!(batch_from_decoded(Some((vec![2], vec![3], zero, 0)), 0).is_err());
    assert!(batch_from_decoded(Some((vec![3], vec![4], rows.clone(), 0)), 0).is_err());
    assert!(batch_from_decoded(Some((vec![2], vec![2], rows.clone(), 0)), 0).is_err());
    assert!(batch_from_decoded(Some((vec![1, 2], vec![3], rows.clone(), 0)), 0).is_err());
    assert!(batch_from_decoded(Some((vec![2], vec![], rows.clone(), 0)), 0).is_ok());
    assert!(batch_from_decoded(Some((vec![], vec![], rows, 0)), 0).is_err());
    assert!(OrdBatch::<u64, u64, u32, i64>::from_parts(vec![], vec![], vec![]).is_some());
    assert_eq!(frame(None), None);
    assert_eq!(frame(Some(vec![9, 8])), Some(vec![1, 0, 0, 0, 9, 8]));
}
