use std::collections::BTreeMap;
use std::ops::Range;

use kit_kernel::collections::TreeMap;
use kit_kernel::memory::pool::bitmap::{byte_size, FreeBitmap};
use kit_kernel::memory::region_set::RegionSet;

#[test]
fn bitmap_hands_out_objects_in_order_after_clear() {
    for bits in [1usize, 7, 8, 9, 20] {
        let mut b = FreeBitmap::new(bits, vec![0xAA; byte_size(bits)]);
        b.clear();
        for i in 0..bits {
            assert_eq!(b.acquire_bit(), Some(i));
        }
        assert_eq!(b.acquire_bit(), None);
    }
}

#[test]
fn tree_map_agrees_with_ordinary_map() {
    let mut t: TreeMap<u64> = TreeMap::new();
    let mut m: BTreeMap<u64, u64> = BTreeMap::new();
    let mut x: u64 = 12345;
    for step in 0..2000u64 {
        x = x.wrapping_mul(6364136223846793005).wrapping_add(1442695040888963407);
        let key = (x >> 33) % 64;
        if (x >> 20) % 3 == 0 {
            assert_eq!(t.delete(&key), m.remove(&key));
        } else {
            assert_eq!(t.insert(key, step), m.insert(key, step));
        }
        assert_eq!(t.len(), m.len());
    }
    for key in 0..64u64 {
        assert_eq!(t.lookup(&key), m.get(&key));
    }
}

#[test]
fn region_set_insert_cuts_region_it_starts_inside() {
    let mut set = RegionSet::new();
    set.insert(0..3000);
    set.insert(1000..2000);
    let v: Vec<Range<usize>> = set.iter();
    assert_eq!(v, vec![0..2000]);
}

#[test]
fn region_set_insert_into_empty_keeps_one_region() {
    let mut set = RegionSet::new();
    set.insert(10..20);
    let v: Vec<Range<usize>> = set.iter();
    assert_eq!(v, vec![10..20]);
}
