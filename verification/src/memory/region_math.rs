//! Arithmetic on half-open address ranges, and a set of address regions kept
//! normalized: sorted, non-empty, and neither overlapping nor touching.

use std::collections::BTreeMap;
use std::ops::Range;

use vstd::prelude::*;

verus! {

/// If the regions intersect or touch.
pub open spec fn spec_intersects(a: Range<usize>, b: Range<usize>) -> bool {
    (a.start < b.end && a.end >= b.start) || (b.start < a.end && b.end >= a.start)
}

/// If the regions overlap (share space).
pub open spec fn spec_overlaps(a: Range<usize>, b: Range<usize>) -> bool {
    (a.start < b.end && a.end > b.start) || (b.start < a.end && b.end > a.start)
}

pub open spec fn spec_min(a: usize, b: usize) -> usize {
    if a <= b { a } else { b }
}

pub open spec fn spec_max(a: usize, b: usize) -> usize {
    if a >= b { a } else { b }
}

/// What `join` returns.
pub open spec fn spec_join(a: Range<usize>, b: Range<usize>) -> Option<Range<usize>> {
    if spec_intersects(a, b) {
        Some(spec_min(a.start, b.start)..spec_max(a.end, b.end))
    } else {
        None
    }
}

/// If the regions intersect or touch.
pub fn intersects(a: &Range<usize>, b: &Range<usize>) -> (r: bool)
    ensures
        r == spec_intersects(*a, *b),
{
    (a.start < b.end && a.end >= b.start) || (b.start < a.end && b.end >= a.start)
}

/// If the regions overlap (share space).
pub fn overlaps(a: &Range<usize>, b: &Range<usize>) -> (r: bool)
    ensures
        r == spec_overlaps(*a, *b),
{
    (a.start < b.end && a.end > b.start) || (b.start < a.end && b.end > a.start)
}

pub(crate) fn min(a: usize, b: usize) -> (r: usize)
    ensures
        r == spec_min(a, b),
{
    if a <= b { a } else { b }
}

pub(crate) fn max(a: usize, b: usize) -> (r: usize)
    ensures
        r == spec_max(a, b),
{
    if a >= b { a } else { b }
}

/// Join a region into another region, if they touch each other.
pub fn join(a: Range<usize>, b: Range<usize>) -> (r: Option<Range<usize>>)
    ensures
        r == spec_join(a, b),
{
    if intersects(&a, &b) {
        Some(min(a.start, b.start)..max(a.end, b.end))
    } else {
        None
    }
}

/// The result of cutting one region out of another.
#[derive(Debug, PartialEq, Eq)]
pub struct Cut {
    pub before: Option<Range<usize>>,
    pub excluded: Range<usize>,
    pub after: Option<Range<usize>>,
}

/// What `cut` returns.
pub open spec fn spec_cut(region: Range<usize>, exclude: Range<usize>) -> Option<Cut> {
    if spec_overlaps(region, exclude) {
        let excluded = spec_max(region.start, exclude.start)..spec_min(region.end, exclude.end);
        Some(
            Cut {
                before: if excluded.start > region.start {
                    Some(region.start..excluded.start)
                } else {
                    None
                },
                excluded,
                after: if region.end > excluded.end {
                    Some(excluded.end..region.end)
                } else {
                    None
                },
            },
        )
    } else {
        None
    }
}

/// Cut a region out of another region, returning the portions of the original
/// `region` before and after as well as the region matching `exclude`.
pub fn cut(region: Range<usize>, exclude: Range<usize>) -> (r: Option<Cut>)
    ensures
        r == spec_cut(region, exclude),
{
    if overlaps(&region, &exclude) {
        let excluded = max(region.start, exclude.start)..min(region.end, exclude.end);
        let before = if excluded.start > region.start {
            Some(region.start..excluded.start)
        } else {
            None
        };
        let after = if region.end > excluded.end {
            Some(excluded.end..region.end)
        } else {
            None
        };
        Some(Cut { before, excluded, after })
    } else {
        // non-overlapping
        None
    }
}

} // verus!

verus! {

/// The addresses in the half-open range `start..end` (empty when reversed).
pub open spec fn range_points(r: Range<usize>) -> Set<int> {
    Set::new(|x: int| r.start <= x && x < r.end)
}

/// Whether the stored `(start, end)` pair covers address `x`.
pub open spec fn pair_has(r: (usize, usize), x: int) -> bool {
    r.0 <= x && x < r.1
}

/// Whether some stored pair covers address `x`.
pub open spec fn seq_covers(s: Seq<(usize, usize)>, x: int) -> bool {
    exists|i: int| 0 <= i < s.len() && #[trigger] pair_has(s[i], x)
}

/// Start addresses strictly increase (a map keyed by start address).
pub open spec fn keys_sorted(s: Seq<(usize, usize)>) -> bool {
    forall|i: int, j: int| 0 <= i < j < s.len() ==> s[i].0 < s[j].0
}

pub open spec fn all_nonempty(s: Seq<(usize, usize)>) -> bool {
    forall|i: int| 0 <= i < s.len() ==> s[i].0 < s[i].1
}

/// `s` with its empty pairs left out, in order.
pub open spec fn drop_empty(s: Seq<(usize, usize)>) -> Seq<(usize, usize)>
    decreases s.len(),
{
    if s.len() == 0 {
        s
    } else if s.last().0 < s.last().1 {
        drop_empty(s.drop_last()).push(s.last())
    } else {
        drop_empty(s.drop_last())
    }
}

/// The pair `p` put into `s`, which is sorted by key: it replaces the pair
/// with its key, or goes before the first pair with a greater key.
pub open spec fn put_sorted(s: Seq<(usize, usize)>, p: (usize, usize)) -> Seq<(usize, usize)>
    decreases s.len(),
{
    if s.len() == 0 {
        seq![p]
    } else if p.0 == s[0].0 {
        s.update(0, p)
    } else if p.0 < s[0].0 {
        s.insert(0, p)
    } else {
        put_sorted(s.drop_first(), p).insert(0, s[0])
    }
}

/// Where the keys below `p.0` end, `p` is put there.
proof fn lemma_put_sorted_at(s: Seq<(usize, usize)>, p: (usize, usize), pos: int)
    requires
        keys_sorted(s),
        0 <= pos <= s.len(),
        forall|j: int| 0 <= j < pos ==> #[trigger] s[j].0 < p.0,
        pos < s.len() ==> s[pos].0 >= p.0,
    ensures
        put_sorted(s, p) == if pos < s.len() && s[pos].0 == p.0 {
            s.update(pos, p)
        } else {
            s.insert(pos, p)
        },
    decreases pos,
{
    if pos > 0 {
        let t = s.drop_first();
        assert(s[0].0 < p.0);
        assert forall|j: int| 0 <= j < pos - 1 implies #[trigger] t[j].0 < p.0 by {
            assert(t[j] == s[j + 1]);
        }
        lemma_put_sorted_at(t, p, pos - 1);
        if pos < s.len() && s[pos].0 == p.0 {
            assert(put_sorted(s, p) =~= s.update(pos, p));
        } else {
            assert(put_sorted(s, p) =~= s.insert(pos, p));
        }
    }
}

/// Each region ends strictly before the next one starts.
pub open spec fn separated(s: Seq<(usize, usize)>) -> bool {
    forall|i: int, j: int| 0 <= i < j < s.len() ==> s[i].1 < s[j].0
}

/// The normal form of a region set: non-empty regions, sorted, neither
/// overlapping nor touching.
pub open spec fn normalized(s: Seq<(usize, usize)>) -> bool {
    all_nonempty(s) && separated(s)
}

pub open spec fn pair_joinable(a: (usize, usize), b: (usize, usize)) -> bool {
    spec_intersects(a.0..a.1, b.0..b.1)
}

proof fn lemma_covers_push(s: Seq<(usize, usize)>, e: (usize, usize), x: int)
    ensures
        seq_covers(s.push(e), x) == (seq_covers(s, x) || pair_has(e, x)),
{
    if seq_covers(s, x) {
        let i = choose|i: int| 0 <= i < s.len() && #[trigger] pair_has(s[i], x);
        assert(pair_has(s.push(e)[i], x));
    }
    if pair_has(e, x) {
        assert(pair_has(s.push(e)[s.len() as int], x));
    }
    if seq_covers(s.push(e), x) {
        let i = choose|i: int| 0 <= i < s.push(e).len() && #[trigger] pair_has(s.push(e)[i], x);
        if i < s.len() {
            assert(pair_has(s[i], x));
        }
    }
}

proof fn lemma_sep_pair(s: Seq<(usize, usize)>, i: int, j: int)
    requires
        all_nonempty(s),
        forall|k: int| 0 <= k < s.len() - 1 ==> s[k].1 < #[trigger] s[k + 1].0,
        0 <= i < j < s.len(),
    ensures
        s[i].1 < s[j].0,
    decreases j - i,
{
    if j > i + 1 {
        lemma_sep_pair(s, i, j - 1);
        assert(s[j - 1].1 < s[(j - 1) + 1].0);
    } else {
        assert(s[i].1 < s[i + 1].0);
    }
}

proof fn lemma_adjacent_separated(s: Seq<(usize, usize)>)
    requires
        all_nonempty(s),
        forall|k: int| 0 <= k < s.len() - 1 ==> s[k].1 < #[trigger] s[k + 1].0,
    ensures
        separated(s),
{
    assert forall|i: int, j: int| 0 <= i < j < s.len() implies s[i].1 < s[j].0 by {
        lemma_sep_pair(s, i, j);
    }
}

/// Keep only the non-empty regions, in order.
pub(crate) fn retain_nonempty(v: Vec<(usize, usize)>) -> (r: Vec<(usize, usize)>)
    requires
        keys_sorted(v@),
    ensures
        keys_sorted(r@),
        all_nonempty(r@),
        forall|x: int| seq_covers(r@, x) == seq_covers(v@, x),
        r@ == drop_empty(v@),
{
    let mut r: Vec<(usize, usize)> = Vec::new();
    let mut i: usize = 0;
    while i < v.len()
        invariant
            i <= v.len(),
            keys_sorted(v@),
            keys_sorted(r@),
            all_nonempty(r@),
            forall|k: int, m: int| 0 <= k < r@.len() && i <= m < v@.len() ==> r@[k].0 < v@[m].0,
            forall|x: int| seq_covers(r@, x) == seq_covers(v@.take(i as int), x),
            r@ == drop_empty(v@.take(i as int)),
        decreases v.len() - i,
    {
        let e = v[i];
        let ghost old_r = r@;
        proof {
            assert(v@.take(i as int + 1) =~= v@.take(i as int).push(e));
            assert(v@.take(i as int + 1).drop_last() =~= v@.take(i as int));
            assert forall|x: int| seq_covers(v@.take(i as int + 1), x) == (seq_covers(
                v@.take(i as int),
                x,
            ) || pair_has(e, x)) by {
                lemma_covers_push(v@.take(i as int), e, x);
            }
        }
        proof {
            assert forall|k: int, m: int| 0 <= k < r@.len() && i + 1 <= m < v@.len() implies r@[k].0
                < v@[m].0 by {
                assert(r@[k].0 < v@[i as int].0);
            }
        }
        if e.0 < e.1 {
            r.push(e);
            proof {
                assert(r@[r@.len() - 1] == e);
                assert forall|k: int, m: int| 0 <= k < r@.len() && i + 1 <= m < v@.len() implies r@[k].0
                    < v@[m].0 by {
                    if k < r@.len() - 1 {
                        assert(r@[k] == old_r[k]);
                    }
                }
                assert forall|x: int| seq_covers(r@, x) == (seq_covers(old_r, x) || pair_has(e, x)) by {
                    lemma_covers_push(old_r, e, x);
                }
            }
        }
        proof {
            assert forall|x: int| seq_covers(r@, x) == seq_covers(v@.take(i as int + 1), x) by {
                assert(seq_covers(old_r, x) == seq_covers(v@.take(i as int), x));
                assert(seq_covers(v@.take(i as int + 1), x) == (seq_covers(v@.take(i as int), x)
                    || pair_has(e, x)));
                if !(e.0 < e.1) {
                    assert(!pair_has(e, x));
                    assert(r@ == old_r);
                }
            }
        }
        i = i + 1;
    }
    proof {
        assert(v@.take(v@.len() as int) =~= v@);
    }
    r
}

/// The first adjacent pair of regions that can be joined, if any.
fn find_unify(v: &Vec<(usize, usize)>) -> (r: Option<usize>)
    ensures
        match r {
            Some(i) => i + 1 < v@.len() && pair_joinable(v@[i as int], v@[i + 1]),
            None => forall|k: int| 0 <= k < v@.len() - 1 ==> !pair_joinable(v@[k], #[trigger] v@[k + 1]),
        },
{
    let mut i: usize = 0;
    while i < v.len() && v.len() - i > 1
        invariant
            forall|k: int| 0 <= k < i && k < v@.len() - 1 ==> !pair_joinable(v@[k], #[trigger] v@[k + 1]),
        decreases v.len() - i,
    {
        let current = v[i];
        let next = v[i + 1];
        let joined = join(current.0..current.1, next.0..next.1);
        if joined.is_some() {
            return Some(i);
        }
        i = i + 1;
    }
    None
}

pub(crate) proof fn lemma_merge_covers(s: Seq<(usize, usize)>, i: int)
    requires
        keys_sorted(s),
        all_nonempty(s),
        0 <= i,
        i + 1 < s.len(),
        pair_joinable(s[i], s[i + 1]),
    ensures
        ({
            let t = s.remove(i + 1).update(i, (s[i].0, spec_max(s[i].1, s[i + 1].1)));
            &&& keys_sorted(t)
            &&& all_nonempty(t)
            &&& forall|x: int| seq_covers(t, x) == seq_covers(s, x)
        }),
{
    let t = s.remove(i + 1).update(i, (s[i].0, spec_max(s[i].1, s[i + 1].1)));
    assert forall|x: int| seq_covers(t, x) == seq_covers(s, x) by {
        if seq_covers(s, x) {
            let k = choose|k: int| 0 <= k < s.len() && #[trigger] pair_has(s[k], x);
            if k < i {
                assert(pair_has(t[k], x));
            } else if k == i || k == i + 1 {
                assert(pair_has(t[i], x));
            } else {
                assert(pair_has(t[k - 1], x));
            }
        }
        if seq_covers(t, x) {
            let k = choose|k: int| 0 <= k < t.len() && #[trigger] pair_has(t[k], x);
            if k < i {
                assert(pair_has(s[k], x));
            } else if k == i {
                if x < s[i].1 {
                    assert(pair_has(s[i], x));
                } else {
                    assert(pair_has(s[i + 1], x));
                }
            } else {
                assert(pair_has(s[k + 1], x));
            }
        }
    }
}

/// Join every pair of overlapping or touching regions, after dropping empty
/// ones.
fn normalize_pairs(v: Vec<(usize, usize)>) -> (r: Vec<(usize, usize)>)
    requires
        keys_sorted(v@),
    ensures
        normalized(r@),
        forall|x: int| seq_covers(r@, x) == seq_covers(v@, x),
{
    // Remove any empty regions
    let mut v2 = retain_nonempty(v);
    // Ensure that all overlapping regions are joined
    loop
        invariant
            keys_sorted(v2@),
            all_nonempty(v2@),
            forall|x: int| seq_covers(v2@, x) == seq_covers(v@, x),
        ensures
            normalized(v2@),
            forall|x: int| seq_covers(v2@, x) == seq_covers(v@, x),
        decreases v2.len(),
    {
        match find_unify(&v2) {
            Some(i) => {
                proof {
                    lemma_merge_covers(v2@, i as int);
                }
                let a = v2[i];
                let ghost before = v2@;
                // Remove the region (b) that will be unified with
                let b = v2.remove(i + 1);
                // If b stretches farther than a
                if b.1 > a.1 {
                    // Extend a to the region (b) we will unify with
                    v2.set(i, (a.0, b.1));
                }
                proof {
                    assert(v2@ =~= before.remove(i as int + 1).update(i as int, (a.0, spec_max(a.1, b.1))))
                        by {
                        if b.1 <= a.1 {
                            assert(before.remove(i as int + 1)[i as int] == a);
                        }
                    }
                }
            },
            None => {
                // Nothing to unify
                proof {
                    assert forall|k: int| 0 <= k < v2@.len() - 1 implies v2@[k].1 < #[trigger] v2@[k
                        + 1].0 by {
                        assert(!pair_joinable(v2@[k], v2@[k + 1]));
                    }
                    lemma_adjacent_separated(v2@);
                }
                break ;
            },
        }
    }
    v2
}

} // verus!

verus! {

pub(crate) proof fn lemma_covers_insert(s: Seq<(usize, usize)>, p: int, e: (usize, usize), x: int)
    requires
        0 <= p <= s.len(),
    ensures
        seq_covers(s.insert(p, e), x) == (seq_covers(s, x) || pair_has(e, x)),
{
    let t = s.insert(p, e);
    if seq_covers(s, x) {
        let k = choose|k: int| 0 <= k < s.len() && #[trigger] pair_has(s[k], x);
        if k < p {
            assert(pair_has(t[k], x));
        } else {
            assert(pair_has(t[k + 1], x));
        }
    }
    if pair_has(e, x) {
        assert(pair_has(t[p], x));
    }
    if seq_covers(t, x) {
        let k = choose|k: int| 0 <= k < t.len() && #[trigger] pair_has(t[k], x);
        if k < p {
            assert(pair_has(s[k], x));
        } else if k > p {
            assert(pair_has(s[k - 1], x));
        }
    }
}

pub(crate) proof fn lemma_covers_remove(s: Seq<(usize, usize)>, p: int, x: int)
    requires
        0 <= p < s.len(),
    ensures
        seq_covers(s.remove(p), x) == (exists|k: int|
            0 <= k < s.len() && k != p && #[trigger] pair_has(s[k], x)),
{
    let t = s.remove(p);
    if seq_covers(t, x) {
        let k = choose|k: int| 0 <= k < t.len() && #[trigger] pair_has(t[k], x);
        if k < p {
            assert(pair_has(s[k], x));
        } else {
            assert(pair_has(s[k + 1], x));
        }
    }
    if exists|k: int| 0 <= k < s.len() && k != p && #[trigger] pair_has(s[k], x) {
        let k = choose|k: int| 0 <= k < s.len() && k != p && #[trigger] pair_has(s[k], x);
        if k < p {
            assert(pair_has(t[k], x));
        } else {
            assert(pair_has(t[k - 1], x));
        }
    }
}

/// Insert `(k, val)` keeping start addresses sorted, replacing the end of an
/// existing region with the same start (map insertion).
pub(crate) fn map_insert(v: Vec<(usize, usize)>, k: usize, val: usize) -> (r: Vec<(usize, usize)>)
    requires
        keys_sorted(v@),
    ensures
        keys_sorted(r@),
        forall|i: int| 0 <= i < v@.len() && v@[i].0 == k ==> r@ == v@.update(i, (k, val)),
        (forall|i: int| 0 <= i < v@.len() ==> v@[i].0 != k) ==> exists|p: int|
            0 <= p <= v@.len() && r@ == v@.insert(p, (k, val)),
        r@ == put_sorted(v@, (k, val)),
{
    let mut v = v;
    let mut p: usize = 0;
    while p < v.len() && v[p].0 < k
        invariant
            p <= v@.len(),
            forall|j: int| 0 <= j < p ==> v@[j].0 < k,
        decreases v.len() - p,
    {
        p = p + 1;
    }
    proof {
        lemma_put_sorted_at(v@, (k, val), p as int);
    }
    if p < v.len() && v[p].0 == k {
        v.set(p, (k, val));
        v
    } else {
        let ghost old_v = v@;
        v.insert(p, (k, val));
        proof {
            assert forall|i: int, j: int| 0 <= i < j < v@.len() implies v@[i].0 < v@[j].0 by {
                if j < p {
                } else if i < p && j == p {
                } else if i < p {
                    assert(v@[j] == old_v[j - 1]);
                } else if i == p {
                    assert(v@[j] == old_v[j - 1]);
                } else {
                    assert(v@[i] == old_v[i - 1]);
                    assert(v@[j] == old_v[j - 1]);
                }
            }
        }
        v
    }
}

/// Remove the region starting at `k`, if there is one (map removal).
pub(crate) fn map_remove(v: Vec<(usize, usize)>, k: usize) -> (r: Vec<(usize, usize)>)
    requires
        keys_sorted(v@),
    ensures
        keys_sorted(r@),
        forall|i: int| 0 <= i < v@.len() && v@[i].0 == k ==> r@ == v@.remove(i),
        (forall|i: int| 0 <= i < v@.len() ==> v@[i].0 != k) ==> r@ == v@,
{
    let mut v = v;
    let mut p: usize = 0;
    while p < v.len() && v[p].0 != k
        invariant
            p <= v@.len(),
            forall|j: int| 0 <= j < p ==> v@[j].0 != k,
        decreases v.len() - p,
    {
        p = p + 1;
    }
    if p < v.len() {
        let ghost old_v = v@;
        v.remove(p);
        proof {
            assert forall|i: int| 0 <= i < old_v.len() && old_v[i].0 == k implies v@ == old_v.remove(i) by {
                assert(i == p);
            }
        }
        v
    } else {
        v
    }
}

/// Index of the first stored region that `region` intersects or touches.
fn first_joinable(v: &Vec<(usize, usize)>, region: &Range<usize>) -> (r: Option<usize>)
    ensures
        match r {
            Some(i) => i < v@.len() && spec_intersects(*region, v@[i as int].0..v@[i as int].1)
                && forall|j: int| 0 <= j < i ==> !spec_intersects(*region, v@[j].0..v@[j].1),
            None => forall|j: int| 0 <= j < v@.len() ==> !spec_intersects(*region, v@[j].0..v@[j].1),
        },
{
    let mut i: usize = 0;
    while i < v.len()
        invariant
            i <= v@.len(),
            forall|j: int| 0 <= j < i ==> !spec_intersects(*region, v@[j].0..v@[j].1),
        decreases v.len() - i,
    {
        let here = v[i];
        if join(region.start..region.end, here.0..here.1).is_some() {
            return Some(i);
        }
        i = i + 1;
    }
    None
}

/// A set of address regions, kept in normal form.
#[derive(Debug)]
pub struct RegionSet {
    regions: Vec<(usize, usize)>,
}

/// The stored regions cover `x` (map form).
pub open spec fn map_covers(m: Map<usize, usize>, x: int) -> bool {
    exists|k: usize| m.contains_key(k) && k <= x && x < #[trigger] m[k]
}

/// A map from start to end addresses in normal form.
pub open spec fn map_normal(m: Map<usize, usize>) -> bool {
    &&& m.dom().finite()
    &&& forall|k: usize| #[trigger] m.contains_key(k) ==> k < m[k]
    &&& forall|k1: usize, k2: usize|
        #![trigger m[k1], m[k2]]
        m.contains_key(k1) && m.contains_key(k2) && k1 < k2 ==> m[k1] < k2
}

/// The ranges cover `x`.
pub open spec fn ranges_cover(s: Seq<Range<usize>>, x: int) -> bool {
    exists|i: int| 0 <= i < s.len() && s[i].start <= x && x < #[trigger] s[i].end
}

/// Ranges in normal form: non-empty, increasing, neither overlapping nor
/// touching.
pub open spec fn ranges_normal(s: Seq<Range<usize>>) -> bool {
    &&& forall|i: int| 0 <= i < s.len() ==> #[trigger] s[i].start < s[i].end
    &&& forall|i: int, j: int| 0 <= i < j < s.len() ==> #[trigger] s[i].end < #[trigger] s[j].start
}

impl View for RegionSet {
    type V = Set<int>;

    /// The addresses covered by the set.
    closed spec fn view(&self) -> Set<int> {
        Set::new(|x: int| seq_covers(self.regions@, x))
    }
}

impl RegionSet {
    /// The set is in normal form.
    pub closed spec fn wf(&self) -> bool {
        normalized(self.regions@)
    }

    /// The addresses of the stored region that starts at `start` (empty if
    /// none does).
    pub closed spec fn region_starting_at(&self, start: usize) -> Set<int> {
        Set::new(
            |x: int|
                exists|i: int|
                    0 <= i < self.regions@.len() && self.regions@[i].0 == start && #[trigger] pair_has(
                        self.regions@[i],
                        x,
                    ),
        )
    }

    pub fn new() -> (s: RegionSet)
        ensures
            s.wf(),
            s@ == Set::<int>::empty(),
    {
        let s = RegionSet { regions: Vec::new() };
        assert(s@ =~= Set::<int>::empty());
        s
    }

    /// Add the addresses of `region` to the set.
    ///
    /// A reversed range whose start is the start of a stored region removes
    /// that region (the start is used as a map key).
    pub fn insert(&mut self, region: Range<usize>)
        requires
            old(self).wf(),
        ensures
            final(self).wf(),
            region.start <= region.end ==> final(self)@ == old(self)@.union(range_points(region)),
            region.start > region.end ==> final(self)@ == old(self)@.difference(
                old(self).region_starting_at(region.start),
            ),
    {
        let mut v: Vec<(usize, usize)> = Vec::new();
        std::mem::swap(&mut v, &mut self.regions);
        let ghost s = v@;
        let ghost reg = range_points(region);
        let ghost starting = old(self).region_starting_at(region.start);
        assert(s == old(self).regions@);
        let v2 = match first_joinable(&v, &region) {
            Some(i) => {
                let here = v[i];
                let joined_start = min(region.start, here.0);
                let joined_end = max(region.end, here.1);
                if joined_start == here.0 {
                    // Can be extended
                    v.set(i, (here.0, joined_end));
                    proof {
                        assert forall|x: int|
                            seq_covers(v@, x) == (seq_covers(s, x) || reg.contains(x)) by {
                            lemma_covers_remove(s, i as int, x);
                            lemma_covers_remove(v@, i as int, x);
                            assert(s.remove(i as int) =~= v@.remove(i as int));
                            if seq_covers(v@, x) && !pair_has(v@[i as int], x) {
                                let k = choose|k: int|
                                    0 <= k < v@.len() && k != i && #[trigger] pair_has(v@[k], x);
                                assert(pair_has(s[k], x));
                            }
                            if seq_covers(s, x) && !pair_has(s[i as int], x) {
                                let k = choose|k: int|
                                    0 <= k < s.len() && k != i && #[trigger] pair_has(s[k], x);
                                assert(pair_has(v@[k], x));
                            }
                            if pair_has(s[i as int], x) || reg.contains(x) {
                                assert(pair_has(v@[i as int], x));
                            }
                            if pair_has(v@[i as int], x) && !pair_has(s[i as int], x) {
                                assert(reg.contains(x));
                            }
                        }
                        if region.start > region.end {
                            assert(starting =~= Set::<int>::empty()) by {
                                assert forall|x: int| !starting.contains(x) by {
                                    if starting.contains(x) {
                                        let k = choose|k: int|
                                            0 <= k < s.len() && s[k].0 == region.start
                                                && #[trigger] pair_has(s[k], x);
                                        if k < i {
                                        } else if k > i {
                                        }
                                    }
                                }
                            }
                        }
                    }
                    v
                } else {
                    // Can be unified
                    let v1 = map_remove(v, here.0);
                    proof {
                        assert(v1@ == s.remove(i as int));
                        assert forall|j: int| 0 <= j < v1@.len() implies v1@[j].0 != joined_start by {
                            if j < i {
                                assert(v1@[j] == s[j]);
                                assert(!spec_intersects(region, s[j].0..s[j].1));
                            } else {
                                assert(v1@[j] == s[j + 1]);
                            }
                        }
                    }
                    let v3 = map_insert(v1, joined_start, joined_end);
                    proof {
                        let p = choose|p: int|
                            0 <= p <= v1@.len() && v3@ == v1@.insert(p, (joined_start, joined_end));
                        assert forall|x: int|
                            seq_covers(v3@, x) == (seq_covers(s, x) || reg.contains(x)) by {
                            lemma_covers_insert(v1@, p, (joined_start, joined_end), x);
                            lemma_covers_remove(s, i as int, x);
                            assert(region.start < here.0);
                            assert(spec_intersects(region, here.0..here.1));
                            assert(here == s[i as int]);
                            if pair_has(s[i as int], x) || reg.contains(x) {
                                assert(pair_has((joined_start, joined_end), x));
                            }
                            if pair_has((joined_start, joined_end), x) && !reg.contains(x) {
                                assert(pair_has(s[i as int], x));
                            }
                            if seq_covers(v1@, x) {
                                let k = choose|k: int|
                                    0 <= k < v1@.len() && #[trigger] pair_has(v1@[k], x);
                                if k < i {
                                    assert(pair_has(s[k], x));
                                } else {
                                    assert(pair_has(s[k + 1], x));
                                }
                            }
                            if seq_covers(s, x) {
                                let k = choose|k: int| 0 <= k < s.len() && #[trigger] pair_has(s[k], x);
                                if k < i {
                                    assert(pair_has(v1@[k], x));
                                } else if k > i {
                                    assert(pair_has(v1@[k - 1], x));
                                }
                            }
                        }
                    }
                    v3
                }
            },
            None => {
                let ghost key_present = exists|j: int| 0 <= j < s.len() && s[j].0 == region.start;
                let v3 = map_insert(v, region.start, region.end);
                proof {
                    if region.start <= region.end {
                        assert forall|j: int| 0 <= j < s.len() implies s[j].0 != region.start by {
                            assert(!spec_intersects(region, s[j].0..s[j].1));
                        }
                        let p = choose|p: int|
                            0 <= p <= s.len() && v3@ == s.insert(p, (region.start, region.end));
                        assert forall|x: int|
                            seq_covers(v3@, x) == (seq_covers(s, x) || reg.contains(x)) by {
                            lemma_covers_insert(s, p, (region.start, region.end), x);
                        }
                    } else if key_present {
                        let j = choose|j: int| 0 <= j < s.len() && s[j].0 == region.start;
                        assert(v3@ == s.update(j, (region.start, region.end)));
                        assert forall|x: int|
                            seq_covers(v3@, x) == (seq_covers(s, x) && !starting.contains(x)) by {
                            lemma_covers_remove(s, j, x);
                            lemma_covers_remove(v3@, j, x);
                            assert(s.remove(j) =~= v3@.remove(j));
                            assert(!pair_has(v3@[j], x));
                            if starting.contains(x) {
                                let k = choose|k: int|
                                    0 <= k < s.len() && s[k].0 == region.start && #[trigger] pair_has(
                                        s[k],
                                        x,
                                    );
                                assert(k == j);
                                if seq_covers(v3@, x) {
                                    let m = choose|m: int|
                                        0 <= m < v3@.len() && m != j && #[trigger] pair_has(v3@[m], x);
                                    assert(pair_has(s[m], x));
                                }
                            }
                            if seq_covers(s, x) && !starting.contains(x) {
                                let m = choose|m: int| 0 <= m < s.len() && #[trigger] pair_has(s[m], x);
                                assert(m != j);
                                assert(pair_has(v3@[m], x));
                            }
                        }
                    } else {
                        assert(starting =~= Set::<int>::empty());
                        let p = choose|p: int|
                            0 <= p <= s.len() && v3@ == s.insert(p, (region.start, region.end));
                        assert forall|x: int| seq_covers(v3@, x) == seq_covers(s, x) by {
                            lemma_covers_insert(s, p, (region.start, region.end), x);
                        }
                    }
                }
                v3
            },
        };
        let ghost mid = v2@;
        self.regions = normalize_pairs(v2);
        proof {
            if region.start <= region.end {
                assert(self@ =~= old(self)@.union(reg));
            } else {
                assert forall|x: int| seq_covers(mid, x) == (seq_covers(s, x) && !starting.contains(x))
                    by {
                    if starting.contains(x) {
                        let k = choose|k: int|
                            0 <= k < s.len() && s[k].0 == region.start && #[trigger] pair_has(s[k], x);
                    }
                }
                assert(self@ =~= old(self)@.difference(starting));
            }
        }
    }
}

} // verus!

verus! {

/// The points of `here` outside `exclude` are those of the before and after
/// parts of their cut.
proof fn lemma_cut_points(here: (usize, usize), exclude: Range<usize>, x: int)
    requires
        here.0 < here.1,
    ensures
        match spec_cut(here.0..here.1, exclude) {
            Some(c) => (pair_has(here, x) && !range_points(exclude).contains(x)) == (match c.before {
                Some(b) => b.start <= x < b.end,
                None => false,
            } || match c.after {
                Some(a) => a.start <= x < a.end,
                None => false,
            }),
            None => pair_has(here, x) ==> !range_points(exclude).contains(x),
        },
{
}

impl RegionSet {
    /// Remove the addresses of `region` from the set.
    pub fn remove(&mut self, region: Range<usize>)
        requires
            old(self).wf(),
        ensures
            final(self).wf(),
            final(self)@ == old(self)@.difference(range_points(region)),
    {
        let mut v: Vec<(usize, usize)> = Vec::new();
        std::mem::swap(&mut v, &mut self.regions);
        let ghost s = v@;
        let ghost reg = range_points(region);
        let mut split_new: Option<(usize, usize)> = None;
        let mut i: usize = 0;
        while i < v.len()
            invariant_except_break
                split_new.is_none(),
                forall|j: int| i <= j < s.len() ==> v@[j] == s[j],
            invariant
                normalized(s),
                i <= v@.len(),
                v@.len() == s.len(),
                forall|j: int| 0 <= j < s.len() ==> (#[trigger] v@[j]).0 == s[j].0,
                forall|j: int, x: int|
                    0 <= j < i ==> #[trigger] pair_has(v@[j], x) == (pair_has(s[j], x) && !reg.contains(x)),
                reg == range_points(region),
            ensures
                v@.len() == s.len(),
                forall|j: int| 0 <= j < s.len() ==> (#[trigger] v@[j]).0 == s[j].0,
                match split_new {
                    None => forall|j: int, x: int|
                        0 <= j < s.len() ==> #[trigger] pair_has(v@[j], x) == (pair_has(s[j], x)
                            && !reg.contains(x)),
                    Some(a) => i < s.len() && a.0 == region.end && s[i as int].0 < a.0 < a.1
                        && a.1 == s[i as int].1 && (forall|j: int, x: int|
                        0 <= j < s.len() && j != i ==> #[trigger] pair_has(v@[j], x) == (pair_has(
                            s[j],
                            x,
                        ) && !reg.contains(x))) && (forall|x: int|
                        (pair_has(v@[i as int], x) || pair_has(a, x)) == (pair_has(s[i as int], x)
                            && !reg.contains(x))),
                },
            decreases v.len() - i,
        {
            let here = v[i];
            proof {
                assert(here == s[i as int]);
            }
            match cut(here.0..here.1, region.start..region.end) {
                Some(c) => {
                    let Cut { before, excluded, after } = c;
                    // If there's some left over before, we can mutate here to
                    // match the before region
                    match before {
                        Some(b) => {
                            v.set(i, (here.0, b.end));
                        },
                        None => {
                            // Otherwise, this will set it to zero length and it
                            // will be deleted by normalize
                            v.set(i, (here.0, here.0));
                        },
                    }
                    proof {
                        assert forall|x: int|
                            (pair_has(v@[i as int], x) || match after {
                                Some(a) => a.start <= x < a.end,
                                None => false,
                            }) == (pair_has(s[i as int], x) && !reg.contains(x)) by {
                            lemma_cut_points(here, region, x);
                        }
                    }
                    // If there is after, we won't find any matching regions
                    // beyond this, so we can terminate and let split_new
                    // insert it
                    match after {
                        Some(a) => {
                            split_new = Some((a.start, a.end));
                            proof {
                                assert forall|j: int, x: int|
                                    i < j < s.len() implies #[trigger] pair_has(v@[j], x) == (
                                    pair_has(s[j], x) && !reg.contains(x)) by {
                                    assert(s[i as int].1 < s[j].0);
                                }
                                assert forall|x: int|
                                    (pair_has(v@[i as int], x) || pair_has((a.start, a.end), x)) == (
                                    pair_has(s[i as int], x) && !reg.contains(x)) by {
                                    lemma_cut_points(here, region, x);
                                }
                            }
                            break ;
                        },
                        None => {},
                    }
                },
                None => {
                    proof {
                        assert forall|x: int|
                            #[trigger] pair_has(v@[i as int], x) == (pair_has(s[i as int], x)
                                && !reg.contains(x)) by {
                            lemma_cut_points(here, region, x);
                        }
                    }
                },
            }
            i = i + 1;
        }
        let ghost cut_v = v@;
        let mut v2 = v;
        match split_new {
            Some((start, end)) => {
                if end > start {
                    proof {
                        assert forall|j: int| 0 <= j < cut_v.len() implies cut_v[j].0 != start by {
                            if j < i {
                                assert(s[j].0 < s[i as int].0);
                            } else if j > i {
                                assert(s[i as int].1 < s[j].0);
                            }
                        }
                        assert(keys_sorted(cut_v)) by {
                            assert forall|a: int, b: int| 0 <= a < b < cut_v.len() implies cut_v[a].0
                                < cut_v[b].0 by {
                                assert(cut_v[a].0 == s[a].0);
                                assert(cut_v[b].0 == s[b].0);
                            }
                        }
                    }
                    v2 = map_insert(v2, start, end);
                    proof {
                        let p = choose|p: int|
                            0 <= p <= cut_v.len() && v2@ == cut_v.insert(p, (start, end));
                        assert forall|x: int|
                            seq_covers(v2@, x) == (seq_covers(s, x) && !reg.contains(x)) by {
                            lemma_covers_insert(cut_v, p, (start, end), x);
                            if seq_covers(s, x) && !reg.contains(x) {
                                let k = choose|k: int| 0 <= k < s.len() && #[trigger] pair_has(s[k], x);
                                if k != i {
                                    assert(pair_has(cut_v[k], x));
                                } else if !pair_has(cut_v[k], x) {
                                    assert(pair_has((start, end), x));
                                }
                            }
                            if seq_covers(cut_v, x) {
                                let k = choose|k: int|
                                    0 <= k < cut_v.len() && #[trigger] pair_has(cut_v[k], x);
                                if k != i {
                                    assert(pair_has(s[k], x));
                                } else {
                                    assert(pair_has(s[i as int], x));
                                }
                            }
                            if pair_has((start, end), x) {
                                assert(pair_has(s[i as int], x));
                            }
                        }
                    }
                }
            },
            None => {
                proof {
                    assert forall|x: int|
                        seq_covers(cut_v, x) == (seq_covers(s, x) && !reg.contains(x)) by {
                        if seq_covers(s, x) && !reg.contains(x) {
                            let k = choose|k: int| 0 <= k < s.len() && #[trigger] pair_has(s[k], x);
                            assert(pair_has(cut_v[k], x));
                        }
                        if seq_covers(cut_v, x) {
                            let k = choose|k: int| 0 <= k < cut_v.len() && #[trigger] pair_has(cut_v[k], x);
                            assert(pair_has(s[k], x));
                        }
                    }
                }
            },
        }
        proof {
            assert(keys_sorted(v2@)) by {
                if split_new.is_none() {
                    assert forall|a: int, b: int| 0 <= a < b < v2@.len() implies v2@[a].0 < v2@[b].0 by {
                        assert(v2@[a].0 == s[a].0);
                        assert(v2@[b].0 == s[b].0);
                    }
                }
            }
        }
        let ghost mid = v2@;
        self.regions = normalize_pairs(v2);
        proof {
            assert(self@ =~= old(self)@.difference(reg));
        }
    }
}

} // verus!

verus! {

broadcast use vstd::laws_cmp::group_laws_cmp;

impl RegionSet {
    /// The regions as a map from start address to end address.
    pub fn unwrap(self) -> (m: BTreeMap<usize, usize>)
        requires
            self.wf(),
        ensures
            map_normal(m@),
            forall|x: int| map_covers(m@, x) == self@.contains(x),
    {
        let v = self.regions;
        let ghost s = v@;
        let mut m: BTreeMap<usize, usize> = BTreeMap::new();
        let mut i: usize = 0;
        while i < v.len()
            invariant
                v@ == s,
                normalized(s),
                i <= s.len(),
                m@.dom().finite(),
                forall|k: usize|
                    #[trigger] m@.contains_key(k) <==> exists|j: int| 0 <= j < i && s[j].0 == k,
                forall|j: int| 0 <= j < i ==> #[trigger] m@[s[j].0] == s[j].1,
            decreases s.len() - i,
        {
            let (start, end) = v[i];
            m.insert(start, end);
            proof {
                assert forall|k: usize|
                    #[trigger] m@.contains_key(k) <==> exists|j: int| 0 <= j < i + 1 && s[j].0 == k by {
                    if k == start {
                        assert(s[i as int].0 == k);
                    }
                }
                assert forall|j: int| 0 <= j < i + 1 implies #[trigger] m@[s[j].0] == s[j].1 by {
                    if j < i {
                        assert(s[j].0 < s[i as int].0);
                    }
                }
            }
            i = i + 1;
        }
        proof {
            assert forall|k: usize| #[trigger] m@.contains_key(k) implies k < m@[k] by {
                let j = choose|j: int| 0 <= j < s.len() && s[j].0 == k;
                assert(m@[s[j].0] == s[j].1);
            }
            assert forall|k1: usize, k2: usize|
                m@.contains_key(k1) && m@.contains_key(k2) && k1 < k2 implies #[trigger] m@[k1]
                < #[trigger] m@[k2] && m@[k1] < k2 by {
                let j1 = choose|j: int| 0 <= j < s.len() && s[j].0 == k1;
                let j2 = choose|j: int| 0 <= j < s.len() && s[j].0 == k2;
                assert(m@[s[j1].0] == s[j1].1);
                if j2 < j1 {
                    assert(s[j2].1 < s[j1].0);
                }
                assert(j1 != j2);
            }
            assert forall|x: int| map_covers(m@, x) == seq_covers(s, x) by {
                if map_covers(m@, x) {
                    let k = choose|k: usize| m@.contains_key(k) && k <= x && x < #[trigger] m@[k];
                    let j = choose|j: int| 0 <= j < s.len() && s[j].0 == k;
                    assert(m@[s[j].0] == s[j].1);
                    assert(pair_has(s[j], x));
                }
                if seq_covers(s, x) {
                    let j = choose|j: int| 0 <= j < s.len() && #[trigger] pair_has(s[j], x);
                    assert(m@.contains_key(s[j].0));
                    assert(m@[s[j].0] == s[j].1);
                }
            }
        }
        m
    }

    /// The regions in increasing order.
    pub fn iter(&self) -> (r: Vec<Range<usize>>)
        requires
            self.wf(),
        ensures
            ranges_normal(r@),
            forall|x: int| ranges_cover(r@, x) == self@.contains(x),
    {
        let mut r: Vec<Range<usize>> = Vec::new();
        let mut i: usize = 0;
        while i < self.regions.len()
            invariant
                normalized(self.regions@),
                i <= self.regions@.len(),
                r@.len() == i,
                forall|j: int|
                    0 <= j < i ==> (#[trigger] r@[j]).start == self.regions@[j].0 && r@[j].end
                        == self.regions@[j].1,
            decreases self.regions@.len() - i,
        {
            let (start, end) = self.regions[i];
            r.push(start..end);
            i = i + 1;
        }
        proof {
            let s = self.regions@;
            assert forall|i: int, j: int| 0 <= i < j < r@.len() implies #[trigger] r@[i].end
                < #[trigger] r@[j].start by {
                assert(s[i].1 < s[j].0);
            }
            assert forall|x: int| ranges_cover(r@, x) == seq_covers(s, x) by {
                if ranges_cover(r@, x) {
                    let j = choose|j: int| 0 <= j < r@.len() && r@[j].start <= x && x < #[trigger] r@[j].end;
                    assert(pair_has(s[j], x));
                }
                if seq_covers(s, x) {
                    let j = choose|j: int| 0 <= j < s.len() && #[trigger] pair_has(s[j], x);
                    assert(r@[j].start <= x && x < r@[j].end);
                }
            }
        }
        r
    }
}

} // verus!
