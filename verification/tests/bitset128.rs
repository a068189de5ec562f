use simple_bitset::bitset128::BitSet128Iter;
use simple_bitset::BitSet128;

fn is_normal<T: Sized + Send + Sync + Unpin>() {}
fn is_full<T: Sized + Send + Sync + Unpin + Copy + Clone + Default + PartialEq>() {}

#[test]
fn normal_types() {
    is_full::<BitSet128>();
    is_normal::<BitSet128Iter>();
}

#[test]
fn new() {
    let mut bits = BitSet128::new();
    bits.set(42);
    assert!(bits[42u8]);
    assert!(bits.test(42));
}

#[allow(unused)]
#[test]
fn const_new() {
    let flags: BitSet128 = BitSet128::new();
    let empty_check: bool = flags.is_empty();
}

#[test]
fn assign() {
    let mut bits = BitSet128::new();
    bits.set(42);
    assert!(bits[42u8]);
    assert!(bits.test(42));
    let mask = bits;
    assert!(mask.test(42));
}

#[test]
fn from() {
    let _bits = BitSet128::from((0xab_u32, 0x12_u32));
}

#[test]
fn flip_all() {
    let mut bitset = BitSet128::new();

    // Alternating pattern test
    bitset.set(0);
    bitset.set(64);

    bitset.flip_all();

    // Bit 0 and 64 should now be 0, others should be 1
    assert!(!bitset.test(0));
    assert!(!bitset.test(64));
    assert!(bitset.test(1));
    assert!(bitset.test(65));

    // Full cycle test (Empty -> Full -> Empty)
    let mut empty_set = BitSet128::new();
    empty_set.flip_all(); // Should become full

    let mut full_set = BitSet128::new();
    full_set.set_all();

    assert_eq!(empty_set, full_set);

    empty_set.flip_all(); // Should return to completely empty
    assert!(empty_set.is_empty());
}

#[test]
fn leading_zeros() {
    let mut bitset = BitSet128::new();

    // Completely empty set should return 128 zeros
    assert_eq!(bitset.leading_zeros(), 128);

    // Setting the absolute most significant bit (index 127) leaves 0 leading zeros
    bitset.set(127);
    assert_eq!(bitset.leading_zeros(), 0);

    // Setting index 126 leaves exactly 1 leading zero
    bitset.reset_all();
    bitset.set(126);
    assert_eq!(bitset.leading_zeros(), 1);

    // Test boundary exactly at the edge of the higher u64 (index 64)
    bitset.reset_all();
    bitset.set(64);
    assert_eq!(bitset.leading_zeros(), 63);

    // Test boundary exactly at the edge of the lower u64 (index 63)
    bitset.reset_all();
    bitset.set(63);
    assert_eq!(bitset.leading_zeros(), 64);

    // Setting the absolute lowest bit (index 0) leaves 127 leading zeros
    bitset.reset_all();
    bitset.set(0);
    assert_eq!(bitset.leading_zeros(), 127);
}

#[test]
fn last_set() {
    let mut bitset = BitSet128::new();

    // Empty set should return None
    assert_eq!(bitset.last_set(), None);

    // Single lowest bit set
    bitset.set(0);
    assert_eq!(bitset.last_set(), Some(0));

    // Multiple bits set, should return the highest one
    bitset.set(10);
    bitset.set(45);
    assert_eq!(bitset.last_set(), Some(45));

    // Boundary verification at the top of the lower u64
    bitset.reset_all();
    bitset.set(63);
    assert_eq!(bitset.last_set(), Some(63));

    // Boundary verification at the bottom of the higher u64
    bitset.set(64);
    assert_eq!(bitset.last_set(), Some(64));

    // Multiple bits stretching into the high byte
    bitset.set(100);
    bitset.set(127);
    assert_eq!(bitset.last_set(), Some(127));
}

#[test]
fn is_superset() {
    let mut set_a = BitSet128::new();
    let mut set_b = BitSet128::new();

    // An empty set is always a superset of another empty set
    assert!(set_a.is_superset(&set_b));

    // Setup indices spanning across the 64-bit boundary
    set_a.set(10);
    set_a.set(80);

    set_b.set(10);

    // set_a has [10, 80], set_b has [10] -> Should be true
    assert!(set_a.is_superset(&set_b));
    // set_b is missing 80 -> Should be false
    assert!(!set_b.is_superset(&set_a));

    // Test exact match
    set_b.set(80);
    assert!(set_a.is_superset(&set_b));

    // Lower halves match, but the higher half differs
    let mut set_c = BitSet128::new();
    let mut set_d = BitSet128::new();
    set_c.set(15); // Higher element (.1) is 0

    set_d.set(15);
    set_d.set(95); // Higher element (.1) is non-zero

    // Lower halves match, but set_c is missing bit 95.
    assert!(!set_c.is_superset(&set_d));
}

#[test]
fn intersects() {
    let mut set_a = BitSet128::new();
    let mut set_b = BitSet128::new();

    // Empty sets should never intersect
    assert!(!set_a.intersects(&set_b));

    // Add an item to set_a only
    set_a.set(15);
    assert!(!set_a.intersects(&set_b));

    // Match the item in set_b (Intersection in the lower u64 block)
    set_b.set(15);
    assert!(set_a.intersects(&set_b));
    assert!(set_b.intersects(&set_a));

    // Test disjoint sets across the 64-bit split boundary
    set_a.reset_all();
    set_b.reset_all();
    set_a.set(10); // Lower u64 block
    set_b.set(80); // Higher u64 block
    assert!(!set_a.intersects(&set_b));

    // Test intersection purely inside the higher u64 block (index >= 64)
    set_a.set(80);
    assert!(set_a.intersects(&set_b));
}

#[test]
fn inplace_logical_ops() {
    let mut set_a = BitSet128::new();
    let mut set_b = BitSet128::new();

    // Setup overlapping patterns crossing 64-bit boundaries
    set_a.set(10);
    set_a.set(70);

    set_b.set(10);
    set_b.set(80);

    // Test BitAndAssign (&=)
    let mut result = set_a;
    result &= set_b;
    assert!(result.test(10));
    assert!(!result.test(70));
    assert!(!result.test(80));

    // Test BitOrAssign (|=)
    let mut result = set_a;
    result |= set_b;
    assert!(result.test(10));
    assert!(result.test(70));
    assert!(result.test(80));

    // Test BitXorAssign (^=)
    let mut result = set_a;
    result ^= set_b;
    assert!(!result.test(10)); // Both were 1, turns to 0
    assert!(result.test(70));
    assert!(result.test(80));

    // Test and_not
    let mut result = set_a;
    result.and_not(set_b);
    assert!(!result.test(10)); // Cleared by mask
    assert!(result.test(70)); // Preserved
    assert!(!result.test(80)); // Never present in set_a
}

#[test]
fn exercise() {
    let mut system_flags = BitSet128::new();
    let error_mask = BitSet128::new(); // imagine this has error bits set

    // Combine with OR-assign
    system_flags |= error_mask;

    // Toggle bits with XOR-assign
    system_flags ^= error_mask;

    let mut set_a = BitSet128::new();
    set_a.set(10);
    set_a.set(20);

    let mut set_b = BitSet128::new();
    set_b.set(20);
    set_b.set(30);

    // Intersection (AND): only bit 20 remains
    let common = set_a & set_b;
    assert!(!common.test(10));
    assert!(common.test(20));
    assert!(!common.test(30));

    // Union (OR): bits 10, 20, and 30 are set
    let all = set_a | set_b;
    assert!(all.test(10));
    assert!(all.test(20));
    assert!(all.test(30));

    // Difference (XOR): bits 10 and 30 are set (20 is cancelled out)
    let diff = set_a ^ set_b;
    assert!(diff.test(10));
    assert!(!diff.test(20));
    assert!(diff.test(30));
}

#[test]
fn test_iterator_empty() {
    let bitset = BitSet128::new();
    let mut iter = bitset.iter();

    assert_eq!(iter.size_hint(), (0, Some(0)));
    assert_eq!(iter.next(), None);
}

#[test]
fn test_iterator_single_bits() {
    // Test lower bound (index 0)
    let mut bitset = BitSet128::new();
    bitset.set(0);
    let mut iter = bitset.iter();
    assert_eq!(iter.next(), Some(0));
    assert_eq!(iter.next(), None);

    // Test boundary transition index (63)
    bitset.reset_all();
    bitset.set(63);
    let mut iter = bitset.iter();
    assert_eq!(iter.next(), Some(63));
    assert_eq!(iter.next(), None);

    // Test boundary transition index (64)
    bitset.reset_all();
    bitset.set(64);
    let mut iter = bitset.iter();
    assert_eq!(iter.next(), Some(64));
    assert_eq!(iter.next(), None);

    // Test upper bound (index 127)
    bitset.reset_all();
    bitset.set(127);
    let mut iter = bitset.iter();
    assert_eq!(iter.next(), Some(127));
    assert_eq!(iter.next(), None);
}

#[test]
fn test_iterator_multiple_scattered_bits() {
    let mut bitset = BitSet128::new();
    let expected_indices = [5, 12, 63, 64, 99, 127];

    for &idx in &expected_indices {
        bitset.set(idx);
    }

    // Check size_hint tracks perfectly before iteration begins
    let mut iter = bitset.iter();
    assert_eq!(iter.size_hint(), (expected_indices.len(), Some(expected_indices.len())));

    for &expected in &expected_indices {
        assert_eq!(iter.next(), Some(expected));
    }
    assert_eq!(iter.next(), None);
}

#[test]
fn test_iterator_size_hint_drainage() {
    let mut bitset = BitSet128::new();
    bitset.set(10);
    bitset.set(90);

    let mut iter = bitset.iter();
    assert_eq!(iter.size_hint(), (2, Some(2)));
    assert_eq!(iter.len(), 2);

    assert_eq!(iter.next(), Some(10));
    assert_eq!(iter.size_hint(), (1, Some(1)));
    assert_eq!(iter.len(), 1);

    assert_eq!(iter.next(), Some(90));
    assert_eq!(iter.size_hint(), (0, Some(0)));
    assert_eq!(iter.len(), 0);

    assert_eq!(iter.next(), None);
}

#[test]
fn test_iterator_all_bits_set() {
    let mut bitset = BitSet128::new();
    bitset.set_all();

    let mut count = 0;
    let mut expected_idx: usize = 0;
    let mut iter = bitset.iter();
    while let Some(actual_idx) = iter.next() {
        assert_eq!(expected_idx as u8, actual_idx);
        expected_idx += 1;
        count += 1;
    }
    assert_eq!(count, 128);
}

#[test]
fn test_consuming_into_iter() {
    let mut bitset = BitSet128::new();
    bitset.set(42);

    let mut count = 0;
    let mut iter = bitset.into_iter();
    while let Some(idx) = iter.next() {
        assert_eq!(idx, 42);
        count += 1;
    }
    assert_eq!(count, 1);
}

#[test]
fn from_iterator() {
    // Collect from a concrete array
    let indices = [5, 63, 64, 120];
    let bitset: BitSet128 = BitSet128::from_iter(&indices);

    assert!(bitset.test(5));
    assert!(bitset.test(63));
    assert!(bitset.test(64));
    assert!(bitset.test(120));
    assert_eq!(bitset.count_ones(), 4);

    // Verify out-of-bounds values are ignored safely without panics
    let invalid_indices = [20, 200, 255];
    let safe_bitset: BitSet128 = BitSet128::from_iter(&invalid_indices);

    assert!(safe_bitset.test(20));
    assert_eq!(safe_bitset.count_ones(), 1); // Only index 20 should be set
}

#[test]
fn empty_and_full() {
    let empty = BitSet128::new();
    assert_eq!(empty.iter().count(), 0);

    let mut full = BitSet128::new();
    full.set_all();
    assert_eq!(full.iter().count(), 128);
}
