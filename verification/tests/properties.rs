use simple_bitset::bitset128::BitSet128Iter;
use simple_bitset::BitSet128;

fn set_of(indices: &[u8]) -> BitSet128 {
    BitSet128::from_iter(indices)
}

fn drain(set: &BitSet128) -> Vec<u8> {
    let mut out = Vec::new();
    let mut iter = set.iter();
    while let Some(i) = iter.next() {
        out.push(i);
    }
    out
}

#[test]
fn set_and_reset_single_bits() {
    let mut s = BitSet128::new();
    s.set(3);
    s.set(70);
    assert!(s.test(3) && s.test(70));
    s.reset(3);
    assert!(!s.test(3));
    assert!(s.test(70));
    s.reset(70);
    assert!(s.is_empty());
}

#[test]
fn out_of_range_indices_change_nothing() {
    let mut s = set_of(&[1, 127]);
    let before = s;
    s.set(128);
    s.set(255);
    s.reset(200);
    s.flip(130);
    assert_eq!(s, before);
    assert!(!s.test(128));
    assert!(!s.test(255));
}

#[test]
fn flip_toggles_one_bit() {
    let mut s = BitSet128::new();
    s.flip(5);
    s.flip(100);
    assert!(s.test(5) && s.test(100));
    s.flip(5);
    assert!(!s.test(5));
    assert_eq!(s.count_ones(), 1);
}

#[test]
fn flip_all_twice_restores() {
    let original = set_of(&[0, 17, 63, 64, 99, 127]);
    let mut s = original;
    s.flip_all();
    assert_eq!(s.count_ones(), 122);
    s.flip_all();
    assert_eq!(s, original);
}

#[test]
fn words_round_trip() {
    let s = set_of(&[0, 1, 64, 127]);
    assert_eq!(s.to_words(), (0b11, (1u64 << 63) | 1));
    let (lo, hi) = s.to_words();
    assert_eq!(BitSet128::from_words(lo, hi), s);
    assert!(BitSet128::from_words(0, 1).test(64));
}

#[test]
fn count_ones_counts_both_words() {
    assert_eq!(BitSet128::new().count_ones(), 0);
    assert_eq!(set_of(&[0, 2, 4, 64, 66]).count_ones(), 5);
    let mut full = BitSet128::new();
    full.set_all();
    assert_eq!(full.count_ones(), 128);
    assert_eq!(BitSet128::from_words(u64::MAX, 0).count_ones(), 64);
}

#[test]
fn leading_zeros_and_last_set_agree() {
    for idx in [0u8, 1, 31, 63, 64, 65, 100, 127] {
        let s = set_of(&[0, idx]);
        assert_eq!(s.leading_zeros(), 127 - idx as u32);
        assert_eq!(s.last_set(), Some(idx));
    }
    let e = BitSet128::new();
    assert_eq!(e.leading_zeros(), 128);
    assert_eq!(e.last_set(), None);
    assert!(e.is_empty());
    assert_eq!(e.count_ones(), 0);
}

#[test]
fn subset_and_superset_are_dual() {
    let small = set_of(&[3, 90]);
    let big = set_of(&[3, 4, 90, 91]);
    assert!(small.is_subset(&big));
    assert!(big.is_superset(&small));
    assert!(!big.is_subset(&small));
    assert!(!small.is_superset(&big));
    assert!(big.is_subset(&big));
    assert!(BitSet128::new().is_subset(&small));
}

#[test]
fn intersects_is_symmetric() {
    let a = set_of(&[1, 100]);
    let b = set_of(&[100]);
    let c = set_of(&[2, 101]);
    assert!(a.intersects(&b) && b.intersects(&a));
    assert!(!a.intersects(&c) && !c.intersects(&a));
    assert!(!BitSet128::new().intersects(&BitSet128::new()));
}

#[test]
fn operators_are_set_operations() {
    let a = set_of(&[1, 2, 70, 71]);
    let b = set_of(&[2, 3, 71, 72]);
    assert_eq!(a | b, set_of(&[1, 2, 3, 70, 71, 72]));
    assert_eq!(a & b, set_of(&[2, 71]));
    assert_eq!(a ^ b, set_of(&[1, 3, 70, 72]));
    let mut d = a;
    d.and_not(b);
    assert_eq!(d, set_of(&[1, 70]));
    let mut x = a;
    x &= b;
    assert_eq!(x, a & b);
    let mut y = a;
    y |= b;
    assert_eq!(y, a | b);
    let mut z = a;
    z ^= b;
    assert_eq!(z, a ^ b);
}

#[test]
fn index_by_u8_and_usize() {
    let s = set_of(&[42, 120]);
    assert!(s[42u8]);
    assert!(!s[43u8]);
    assert!(s[120usize]);
    assert!(!s[200u8]);
    // a usize index is cut to its lowest 8 bits: 298 reads index 42
    assert!(s[298usize]);
}

#[test]
fn conversions_from_u32() {
    let one = BitSet128::from(0x8000_0001_u32);
    assert_eq!(one.to_words(), (0x8000_0001, 0));
    assert!(one.test(0) && one.test(31) && !one.test(32));

    let pair = BitSet128::from((0xab_u32, 0x12_u32));
    assert_eq!(pair.to_words(), (0x0000_00ab_0000_0012, 0));
    assert!(pair.test(1) && pair.test(4) && pair.test(32) && pair.test(33) && pair.test(39));
    assert_eq!(pair.count_ones(), 7);

    let quad = BitSet128::from((1_u32, 2_u32, 3_u32, 4_u32));
    assert_eq!(quad.to_words(), (0x0000_0001_0000_0002, 0x0000_0003_0000_0004));
    assert_eq!(drain(&quad), vec![1, 32, 66, 96, 97]);
}

#[test]
fn default_is_empty() {
    assert!(BitSet128::default().is_empty());
    let mut it = BitSet128Iter::default();
    assert_eq!(it.len(), 0);
    assert_eq!(it.next(), None);
}

#[test]
fn iteration_is_increasing_and_complete() {
    let s = set_of(&[127, 0, 64, 63, 5, 99]);
    let yielded = drain(&s);
    assert_eq!(yielded, vec![0, 5, 63, 64, 99, 127]);
    assert_eq!(yielded.len(), s.count_ones() as usize);
    assert_eq!(set_of(&yielded), s);
}

#[test]
fn iterator_stays_exhausted() {
    let mut it = set_of(&[9]).iter();
    assert_eq!(it.next(), Some(9));
    assert_eq!(it.next(), None);
    assert_eq!(it.next(), None);
    assert_eq!(it.size_hint(), (0, Some(0)));
}

#[test]
fn extend_adds_in_range_indices() {
    let mut s = set_of(&[1]);
    s.extend(&[2, 130, 127]);
    assert_eq!(s, set_of(&[1, 2, 127]));
}

#[test]
fn binary_text_digits() {
    let s = set_of(&[0, 64, 127]);
    let text = String::from_utf8(s.binary_text(false)).unwrap();
    let mut expected = String::from("1");
    expected.push_str(&"0".repeat(62));
    expected.push('1');
    expected.push_str(&"0".repeat(63));
    expected.push('1');
    assert_eq!(text, expected);
    let alt = String::from_utf8(s.binary_text(true)).unwrap();
    assert_eq!(alt, format!("0b{}", expected));
    assert_eq!(alt.len(), 130);
}

#[test]
fn upper_hex_text_digits() {
    let s = BitSet128::from_words(0x0123_4567_89AB_CDEF, 0xFEDC_BA98_7654_3210);
    let text = String::from_utf8(s.upper_hex_text(false)).unwrap();
    assert_eq!(text, "FEDCBA98765432100123456789ABCDEF");
    let alt = String::from_utf8(set_of(&[0]).upper_hex_text(true)).unwrap();
    assert_eq!(alt, "0x00000000000000000000000000000001");
}
