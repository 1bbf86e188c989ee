use chaos_kernel::bits::{
    align_down, align_up, bitwise_merge, clz64, ffs64, hash_combine, is_power_of_two, log2_floor, murmurhash3_finalize,
    popcount64, rotate_bits, ser,
};
use chaos_kernel::circbuf::CircBuf;
use chaos_kernel::codec::{compute_crc32, decode_varint, encode_varint};
use chaos_kernel::ordered::sorted_keys;
use chaos_kernel::scan::mem_scan_pattern;
use chaos_kernel::text::push_decimal;
use chaos_kernel::word::{to_i32, to_signed, to_word};
use std::collections::BTreeMap;

#[test]
fn merges_by_mask() {
    assert_eq!(bitwise_merge(0xFF00, 0x00FF, 0x0F0F), 0xF00F);
    assert_eq!(bitwise_merge(1, 2, 0), 1);
    assert_eq!(bitwise_merge(1, 2, u64::MAX), 2);
}

#[test]
fn rotates_within_a_width() {
    assert_eq!(rotate_bits(0b1001, 1, 4), 0b0011);
    assert_eq!(rotate_bits(0xF1, 4, 8), 0x1F);
    assert_eq!(rotate_bits(1 << 63, 1, 64), 1);
    assert_eq!(rotate_bits(0x1234, 0, 8), 0x1234);
    assert_eq!(rotate_bits(0x1234, 5, 0), 0x1234);
    assert_eq!(rotate_bits(0x1234, 5, 65), 0x1234);
    for (width, amount) in [(7u32, 3u32), (64, 17), (8, 8)] {
        let turned = rotate_bits(0x5B, amount, width);
        assert_eq!(rotate_bits(turned, 2 * width - amount, width), 0x5B);
    }
}

#[test]
fn counts_bits() {
    assert_eq!(popcount64(0), 0);
    assert_eq!(popcount64(u64::MAX), 64);
    assert_eq!(popcount64(0xF0F0_0000_0000_0001), 9);
    assert_eq!(clz64(0), 64);
    assert_eq!(clz64(1), 63);
    assert_eq!(clz64(0x00F0_0000_0000_0000), 8);
    assert_eq!(ffs64(0), None);
    assert_eq!(ffs64(0b1011000), Some(3));
    assert_eq!(ffs64(1 << 63), Some(63));
}

#[test]
fn aligns_addresses() {
    assert_eq!(align_up(0x1001, 0x1000), 0x2000);
    assert_eq!(align_up(0x1000, 0x1000), 0x1000);
    assert_eq!(align_up(7, 3), 7);
    assert_eq!(align_up(7, 0), 7);
    assert_eq!(align_down(0x1FFF, 0x1000), 0x1000);
    assert_eq!(align_down(7, 3), 7);
    assert!(is_power_of_two(64) && !is_power_of_two(0) && !is_power_of_two(96));
    assert_eq!(log2_floor(0), 0);
    assert_eq!(log2_floor(1), 0);
    assert_eq!(log2_floor(1023), 9);
}

#[test]
fn hashes_have_fixed_values() {
    assert_eq!(hash_combine(0, 0), 0);
    assert_eq!(hash_combine(1, 0), 1 ^ 64);
    assert_eq!(hash_combine(0, 1), 0x9e3779b97f4a7c15);
    assert_eq!(murmurhash3_finalize(0), 0);
    assert_eq!(murmurhash3_finalize(1), 0xb456bcfc34c2cb2c);
    assert_eq!(ser(13), 10);
    assert_eq!(ser(65), 65);
}

#[test]
fn finds_patterns() {
    assert_eq!(mem_scan_pattern(b"abababa", b"aba", 10), vec![0, 2, 4]);
    assert_eq!(mem_scan_pattern(b"abababa", b"aba", 2), vec![0, 2]);
    assert_eq!(mem_scan_pattern(b"aaaa", b"b", 10), Vec::<usize>::new());
    assert_eq!(mem_scan_pattern(b"aab", b"aaab", 10), Vec::<usize>::new());
}

#[test]
fn checks_and_packs_bytes() {
    assert_eq!(compute_crc32(b"123456789"), 0xCBF43926);
    assert_eq!(compute_crc32(b""), 0);
    let mut out = Vec::new();
    assert_eq!(encode_varint(300, &mut out), 2);
    assert_eq!(out, vec![0xAC, 0x02]);
    assert_eq!(decode_varint(&out), Some((300, 2)));
    let mut big = Vec::new();
    assert_eq!(encode_varint(u64::MAX, &mut big), 10);
    assert_eq!(decode_varint(&big), Some((u64::MAX, 10)));
    assert_eq!(decode_varint(&[0x80, 0x80]), None);
    let long = [0xAC, 0x82, 0x80, 0x00];
    let (value, used) = decode_varint(&long).unwrap();
    let mut short = Vec::new();
    assert_eq!((value, used, encode_varint(value, &mut short)), (300, 4, 2));
    assert_eq!(decode_varint(&[]), None);
}

#[test]
fn ring_is_first_in_first_out() {
    let mut b = CircBuf::new(3);
    assert!(b.empty() && !b.full());
    assert!(b.push(1) && b.push(2) && b.push(3));
    assert!(!b.push(4));
    assert!(b.full());
    assert_eq!(b.peek(), Some(1));
    assert_eq!(b.pop(), Some(1));
    assert!(b.push(4));
    let mut out = Vec::new();
    assert_eq!(b.drain_to(&mut out, 2), 2);
    assert_eq!(out, vec![2, 3]);
    assert_eq!(b.fill_from(&[7, 8, 9, 10]), 2);
    assert_eq!(b.remaining(), 0);
    assert_eq!((b.pop(), b.pop(), b.pop(), b.pop()), (Some(4), Some(7), Some(8), None));
    let c = CircBuf::with_pos(8, 2, 5);
    assert_eq!(c.len(), 3);
    let mut far = CircBuf::with_pos(4, 6, 8);
    assert_eq!(far.len(), 2);
    assert!(far.push(5));
    assert_eq!((far.tail, far.data[1]), (1, 5));
    assert_eq!((far.pop(), far.pop(), far.pop(), far.pop()), (Some(0), Some(0), Some(5), None));
}

#[test]
fn numerals_and_keys() {
    let mut s = String::new();
    push_decimal(&mut s, 0);
    push_decimal(&mut s, 1_070_503);
    assert_eq!(s, "01070503");
    let mut m = BTreeMap::new();
    m.insert(5usize, 'a');
    m.insert(1, 'b');
    m.insert(3, 'c');
    assert_eq!(sorted_keys(&m), vec![1, 3, 5]);
}

#[test]
fn words_change_width() {
    assert_eq!(to_signed(5), 5);
    assert_eq!(to_signed(usize::MAX), -1);
    assert_eq!(to_i32(0x1_0000_0007), 7);
    assert_eq!(to_i32(0xFFFF_FFFF), -1);
    assert_eq!(to_word(-1), usize::MAX);
    assert_eq!(to_word(12), 12);
}
