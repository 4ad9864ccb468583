use std::ops::Range;

use kit_kernel::memory::region_math::{self, cut, join, Cut};
use kit_kernel::memory::region_set;

fn math_insert(before: &[Range<usize>]) -> Vec<Range<usize>> {
    let mut set = region_math::RegionSet::new();
    for r in before {
        set.insert(r.clone());
    }
    set.iter()
}

fn math_remove(initial: &[Range<usize>], remove: &[Range<usize>]) -> Vec<Range<usize>> {
    let mut set = region_math::RegionSet::new();
    for r in initial {
        set.insert(r.clone());
    }
    for r in remove {
        set.remove(r.clone());
    }
    set.iter()
}

fn set_insert(before: &[Range<usize>]) -> Vec<Range<usize>> {
    let mut set = region_set::RegionSet::new();
    for r in before {
        set.insert(r.clone());
    }
    set.iter()
}

fn set_remove(initial: &[Range<usize>], remove: &[Range<usize>]) -> Vec<Range<usize>> {
    let mut set = region_set::RegionSet::new();
    for r in initial {
        set.insert(r.clone());
    }
    for r in remove {
        set.remove(r.clone());
    }
    set.iter()
}

#[test]
fn join_non_overlapping_a_lt_b() {
    let a = 0..1000;
    let b = 2000..3000;
    assert_eq!(join(a, b), None);
}

#[test]
fn join_non_overlapping_b_lt_a() {
    let a = 2000..3000;
    let b = 0..1000;
    assert_eq!(join(a, b), None);
}

#[test]
fn join_overlapping_left() {
    let a = 0..2000;
    let b = 1000..3000;
    assert_eq!(join(a, b), Some(0..3000));
}

#[test]
fn join_overlapping_right() {
    let a = 1000..3000;
    let b = 0..2000;
    assert_eq!(join(a, b), Some(0..3000));
}

#[test]
fn join_touching() {
    let a = 0..1500;
    let b = 1500..3000;
    assert_eq!(join(a, b), Some(0..3000));
}

#[test]
fn cut_encompassing() {
    let a = 1500..3000;
    let b = 0..6000;
    assert_eq!(cut(a, b), Some(Cut { before: None, excluded: 1500..3000, after: None }));
}

#[test]
fn cut_exact_match() {
    let a = 1500..3000;
    let b = 1500..3000;
    assert_eq!(cut(a, b), Some(Cut { before: None, excluded: 1500..3000, after: None }));
}

#[test]
fn cut_beginning() {
    let a = 0..6000;
    let b = 0..1500;
    assert_eq!(cut(a, b), Some(Cut { before: None, excluded: 0..1500, after: Some(1500..6000) }));
}

#[test]
fn cut_end() {
    let a = 0..6000;
    let b = 4500..6000;
    assert_eq!(cut(a, b), Some(Cut { before: Some(0..4500), excluded: 4500..6000, after: None }));
}

#[test]
fn cut_inner() {
    let a = 0..6000;
    let b = 3000..4500;
    assert_eq!(
        cut(a, b),
        Some(Cut { before: Some(0..3000), excluded: 3000..4500, after: Some(4500..6000) })
    );
}

#[test]
fn cut_touching() {
    let a = 0..1500;
    let b = 1500..3000;
    assert_eq!(cut(a, b), None);
}

#[test]
fn cut_disjunct() {
    let a = 0..1500;
    let b = 3000..4500;
    assert_eq!(cut(a, b), None);
}

#[test]
fn region_math_region_insert_unify_end() {
    assert_eq!(math_insert(&[0..1000, 1000..2000, 4000..5000]), vec![0..2000, 4000..5000]);
}

#[test]
fn region_math_region_insert_unify_start() {
    assert_eq!(math_insert(&[1000..2000, 0..1000]), vec![0..2000]);
}

#[test]
fn region_math_region_insert_encompassing_single() {
    assert_eq!(math_insert(&[1000..2000, 0..3000]), vec![0..3000]);
}

#[test]
fn region_math_region_insert_encompassing_multiple() {
    assert_eq!(math_insert(&[1000..2000, 4000..5000, 0..6000]), vec![0..6000]);
}

#[test]
fn region_math_region_insert_between_two() {
    assert_eq!(math_insert(&[1000..2000, 4000..5000, 2000..4000]), vec![1000..5000]);
}

#[test]
fn region_math_region_remove_split() {
    assert_eq!(
        math_remove(&[0..5000, 8000..9000], &[1000..2000]),
        vec![0..1000, 2000..5000, 8000..9000]
    );
}

#[test]
fn region_math_region_remove_exact() {
    assert_eq!(math_remove(&[2000..3000, 8000..9000], &[2000..3000]), vec![8000..9000]);
}

#[test]
fn region_math_region_remove_cut_start() {
    assert_eq!(math_remove(&[1000..6000, 8000..9000], &[0..2000]), vec![2000..6000, 8000..9000]);
}

#[test]
fn region_math_region_remove_cut_end() {
    assert_eq!(math_remove(&[1000..6000, 8000..9000], &[3000..7000]), vec![1000..3000, 8000..9000]);
}

#[test]
fn region_math_region_remove_encompassing() {
    assert_eq!(math_remove(&[1000..6000, 8000..9000], &[0..7000]), vec![8000..9000]);
}

#[test]
fn region_math_region_remove_after_nonmatching() {
    assert_eq!(math_remove(&[0..2000, 5000..10000], &[5000..6000]), vec![0..2000, 6000..10000]);
}

#[test]
fn region_math_region_complex1() {
    let mut set = region_math::RegionSet::new();
    set.insert(5000..10000);
    set.insert(0..2000);
    assert_eq!(set.iter(), vec![0..2000, 5000..10000]);
    set.remove(5000..6000);
    assert_eq!(set.iter(), vec![0..2000, 6000..10000]);
    set.remove(8000..9000);
    assert_eq!(set.iter(), vec![0..2000, 6000..8000, 9000..10000]);
    set.insert(2000..6000);
    assert_eq!(set.iter(), vec![0..8000, 9000..10000]);
}

#[test]
fn region_set_region_insert_unify_end() {
    assert_eq!(set_insert(&[0..1000, 1000..2000, 4000..5000]), vec![0..2000, 4000..5000]);
}

#[test]
fn region_set_region_insert_unify_start() {
    assert_eq!(set_insert(&[1000..2000, 0..1000]), vec![0..2000]);
}

#[test]
fn region_set_region_insert_encompassing_single() {
    assert_eq!(set_insert(&[1000..2000, 0..3000]), vec![0..3000]);
}

#[test]
fn region_set_region_insert_encompassing_multiple() {
    assert_eq!(set_insert(&[1000..2000, 4000..5000, 0..6000]), vec![0..6000]);
}

#[test]
fn region_set_region_insert_between_two() {
    assert_eq!(set_insert(&[1000..2000, 4000..5000, 2000..4000]), vec![1000..5000]);
}

#[test]
fn region_set_region_remove_split() {
    assert_eq!(
        set_remove(&[0..5000, 8000..9000], &[1000..2000]),
        vec![0..1000, 2000..5000, 8000..9000]
    );
}

#[test]
fn region_set_region_remove_exact() {
    assert_eq!(set_remove(&[2000..3000, 8000..9000], &[2000..3000]), vec![8000..9000]);
}

#[test]
fn region_set_region_remove_cut_start() {
    assert_eq!(set_remove(&[1000..6000, 8000..9000], &[0..2000]), vec![2000..6000, 8000..9000]);
}

#[test]
fn region_set_region_remove_cut_end() {
    assert_eq!(set_remove(&[1000..6000, 8000..9000], &[3000..7000]), vec![1000..3000, 8000..9000]);
}

#[test]
fn region_set_region_remove_encompassing() {
    assert_eq!(set_remove(&[1000..6000, 8000..9000], &[0..7000]), vec![8000..9000]);
}

#[test]
fn region_set_region_remove_after_nonmatching() {
    assert_eq!(set_remove(&[0..2000, 5000..10000], &[5000..6000]), vec![0..2000, 6000..10000]);
}

#[test]
fn region_set_region_complex1() {
    let mut set = region_set::RegionSet::new();
    set.insert(5000..10000);
    set.insert(0..2000);
    assert_eq!(set.iter(), vec![0..2000, 5000..10000]);
    set.remove(5000..6000);
    assert_eq!(set.iter(), vec![0..2000, 6000..10000]);
    set.remove(8000..9000);
    assert_eq!(set.iter(), vec![0..2000, 6000..8000, 9000..10000]);
    set.insert(2000..6000);
    assert_eq!(set.iter(), vec![0..8000, 9000..10000]);
}

#[test]
fn region_math_insert_is_union_on_touching_and_contained() {
    // Law: insert adds exactly the range; contained ranges change nothing.
    assert_eq!(math_insert(&[0..1000, 100..200]), vec![0..1000]);
    assert_eq!(math_insert(&[0..1000, 2000..3000, 1000..2000]), vec![0..3000]);
}

#[test]
fn region_math_reversed_insert_drops_region_at_key() {
    let mut set = region_math::RegionSet::new();
    set.insert(5..10);
    set.insert(5..3);
    assert_eq!(set.iter(), vec![]);
}

#[test]
fn region_set_insert_inside_shrinks() {
    // The region that the inserted range starts inside takes its end.
    assert_eq!(set_insert(&[0..1000, 100..200]), vec![0..200]);
}

#[test]
fn region_set_touching_regions_stay_apart() {
    let mut set = region_set::RegionSet::new();
    set.insert(0..1000);
    set.insert(2000..3000);
    set.remove(1000..2000);
    assert_eq!(set.iter(), vec![0..1000, 2000..3000]);
}

#[test]
fn region_unwrap_gives_map() {
    let mut set = region_math::RegionSet::new();
    set.insert(0..10);
    set.insert(20..30);
    let m = set.unwrap();
    assert_eq!(m.len(), 2);
    assert_eq!(m.get(&0), Some(&10));
    assert_eq!(m.get(&20), Some(&30));
}
