//! Tests of the arena core, the builder, and the binary codec.

use txslab::{decode_slab, encode_slab, Builder, Error, Slab, VecStorage};

fn new_slab() -> Slab<u64, VecStorage> {
    Slab::new()
}

#[test]
fn insert_reuses_most_recently_freed_key() {
    let mut slab = new_slab();
    assert_eq!(slab.insert(10), 0);
    assert_eq!(slab.insert(20), 1);
    assert_eq!(slab.remove(0), Ok(10));
    assert_eq!(slab.insert(30), 0);
    assert_eq!(slab.pairs(), vec![(0, 30), (1, 20)]);
}

#[test]
fn reuse_order_is_last_freed_first() {
    let mut slab = new_slab();
    slab.insert(1);
    slab.insert(2);
    slab.insert(3);
    assert_eq!(slab.remove(0), Ok(1));
    assert_eq!(slab.remove(2), Ok(3));
    assert_eq!(slab.insert(40), 2);
    assert_eq!(slab.insert(50), 0);
    assert_eq!(slab.insert(60), 3);
    assert_eq!(slab.pairs(), vec![(0, 50), (1, 2), (2, 40), (3, 60)]);
}

#[test]
fn get_resolves_keys_until_removed() {
    let mut slab = new_slab();
    let a = slab.insert(5);
    let b = slab.insert(6);
    assert_eq!(slab.get(a), Some(&5));
    assert_eq!(slab.get(b), Some(&6));
    assert_eq!(slab.remove(b), Ok(6));
    assert_eq!(slab.get(a), Some(&5));
    assert_eq!(slab.get(b), None);
    assert_eq!(slab.get(99), None);
}

#[test]
fn remove_reports_each_failure() {
    let mut slab = new_slab();
    slab.insert(1);
    assert_eq!(slab.remove(3), Err(Error::OutOfBounds));
    assert_eq!(slab.remove(0), Ok(1));
    assert_eq!(slab.remove(0), Err(Error::AlreadyVacant));
    assert_eq!(slab.len(), 0);
    assert_eq!(slab.capacity(), 1);
}

#[test]
fn removed_value_comes_back_intact() {
    let mut slab: Slab<String, VecStorage> = Slab::new();
    let key = slab.insert(String::from("payload"));
    assert_eq!(slab.remove(key), Ok(String::from("payload")));
}

#[test]
fn get_mut_overwrites_in_place() {
    let mut slab = new_slab();
    let key = slab.insert(7);
    *slab.get_mut(key) = 70;
    assert_eq!(slab.get(key), Some(&70));
    assert_eq!(slab.len(), 1);
}

#[test]
fn len_counts_occupied_and_capacity_counts_slots() {
    let mut slab = new_slab();
    assert_eq!(slab.len(), 0);
    assert_eq!(slab.capacity(), 0);
    slab.insert(1);
    slab.insert(2);
    slab.remove(0).unwrap();
    assert_eq!(slab.len(), 1);
    assert_eq!(slab.capacity(), 2);
    assert_eq!(slab.keys(), vec![1]);
}

#[test]
fn builder_overwrites_duplicate_key_without_double_count() {
    let mut builder: Builder<u64> = Builder::with_capacity(2);
    builder.pair(0, 1);
    builder.pair(0, 2);
    let slab: Slab<u64, VecStorage> = builder.build();
    assert_eq!(slab.len(), 1);
    assert_eq!(slab.get(0), Some(&2));
}

#[test]
fn builder_threads_untargeted_slots_into_free_list() {
    let mut builder: Builder<u64> = Builder::with_capacity(3);
    builder.pair(2, 9);
    builder.pair(0, 7);
    let mut slab: Slab<u64, VecStorage> = builder.build();
    assert_eq!(slab.len(), 2);
    assert_eq!(slab.capacity(), 3);
    assert_eq!(slab.get(1), None);
    assert_eq!(slab.pairs(), vec![(0, 7), (2, 9)]);
    assert_eq!(slab.insert(11), 1);
}

#[test]
fn encode_writes_count_then_pairs_little_endian() {
    let mut slab = new_slab();
    slab.insert(30);
    slab.insert(20);
    slab.remove(0).unwrap();
    slab.insert(30);
    let bytes = encode_slab(&slab);
    let mut expected: Vec<u8> = Vec::new();
    expected.extend_from_slice(&[2, 0, 0, 0, 0, 0, 0, 0]);
    expected.extend_from_slice(&[0, 0, 0, 0, 0, 0, 0, 0]);
    expected.extend_from_slice(&[30, 0, 0, 0, 0, 0, 0, 0]);
    expected.extend_from_slice(&[1, 0, 0, 0, 0, 0, 0, 0]);
    expected.extend_from_slice(&[20, 0, 0, 0, 0, 0, 0, 0]);
    assert_eq!(bytes, expected);
}

#[test]
fn codec_round_trips_enumeration() {
    let mut slab = new_slab();
    slab.insert(300);
    slab.insert(77);
    slab.insert(0x0123_4567_89AB_CDEF);
    slab.remove(1).unwrap();
    let bytes = encode_slab(&slab);
    let decoded = decode_slab(&bytes).unwrap();
    assert_eq!(decoded.pairs(), slab.pairs());
    assert_eq!(decoded.len(), slab.len());
}

#[test]
fn codec_round_trips_empty_arena() {
    let slab = new_slab();
    let bytes = encode_slab(&slab);
    assert_eq!(bytes, vec![0; 8]);
    let decoded = decode_slab(&bytes).unwrap();
    assert_eq!(decoded.len(), 0);
    assert_eq!(decoded.pairs(), vec![]);
}

#[test]
fn decode_rejects_truncated_header() {
    let bytes: Vec<u8> = vec![1, 2, 3];
    assert_eq!(decode_slab(&bytes).err(), Some(Error::DecodeShort));
}

#[test]
fn decode_rejects_overlarge_count_before_reading_pairs() {
    let mut bytes: Vec<u8> = vec![0; 8];
    bytes[0] = 1;
    assert_eq!(decode_slab(&bytes).err(), Some(Error::DecodeTooLarge));
    let mut huge: Vec<u8> = vec![0xFF; 8];
    huge.extend_from_slice(&[0; 16]);
    assert_eq!(decode_slab(&huge).err(), Some(Error::DecodeTooLarge));
}

#[test]
fn decode_rejects_unaddressable_key() {
    let mut bytes: Vec<u8> = Vec::new();
    bytes.extend_from_slice(&[1, 0, 0, 0, 0, 0, 0, 0]);
    bytes.extend_from_slice(&[0xFF; 8]);
    bytes.extend_from_slice(&[5, 0, 0, 0, 0, 0, 0, 0]);
    assert_eq!(decode_slab(&bytes).err(), Some(Error::DecodeMalformed));
}

#[test]
fn decode_accepts_trailing_bytes() {
    let mut slab = new_slab();
    slab.insert(9);
    let mut bytes = encode_slab(&slab);
    bytes.push(0xAB);
    let decoded = decode_slab(&bytes).unwrap();
    assert_eq!(decoded.pairs(), vec![(0, 9)]);
}
