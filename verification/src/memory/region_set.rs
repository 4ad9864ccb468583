//! A set of address regions kept sorted and free of overlaps; regions that
//! merely touch are kept apart.

use std::collections::BTreeMap;
use std::ops::Range;

use vstd::prelude::*;

use crate::memory::region_math::{
    all_nonempty, drop_empty, keys_sorted, put_sorted, lemma_covers_insert, lemma_covers_remove, lemma_merge_covers,
    map_covers, map_insert, map_remove, max, pair_has, pair_joinable, range_points, ranges_cover,
    retain_nonempty, seq_covers, spec_max,
};

verus! {

broadcast use vstd::laws_cmp::group_laws_cmp;

/// Each region ends at or before the start of the next one.
pub open spec fn weakly_separated(s: Seq<(usize, usize)>) -> bool {
    forall|i: int, j: int| 0 <= i < j < s.len() ==> s[i].1 <= s[j].0
}

/// The form this set keeps: non-empty, sorted, non-overlapping regions.
pub open spec fn weakly_normalized(s: Seq<(usize, usize)>) -> bool {
    all_nonempty(s) && weakly_separated(s)
}

/// Ranges that are non-empty, increasing and non-overlapping.
pub open spec fn ranges_weakly_normal(s: Seq<Range<usize>>) -> bool {
    &&& forall|i: int| 0 <= i < s.len() ==> #[trigger] s[i].start < s[i].end
    &&& forall|i: int, j: int| 0 <= i < j < s.len() ==> #[trigger] s[i].end <= #[trigger] s[j].start
}

/// A map from start to end addresses whose regions are non-empty and do not
/// overlap.
pub open spec fn map_weakly_normal(m: Map<usize, usize>) -> bool {
    &&& m.dom().finite()
    &&& forall|k: usize| #[trigger] m.contains_key(k) ==> k < m[k]
    &&& forall|k1: usize, k2: usize|
        #![trigger m[k1], m[k2]]
        m.contains_key(k1) && m.contains_key(k2) && k1 < k2 ==> m[k1] <= k2
}

proof fn lemma_weak_pair(s: Seq<(usize, usize)>, i: int, j: int)
    requires
        all_nonempty(s),
        forall|k: int| 0 <= k < s.len() - 1 ==> s[k].1 <= #[trigger] s[k + 1].0,
        0 <= i < j < s.len(),
    ensures
        s[i].1 <= s[j].0,
    decreases j - i,
{
    if j > i + 1 {
        lemma_weak_pair(s, i, j - 1);
        assert(s[j - 1].1 <= s[(j - 1) + 1].0);
    } else {
        assert(s[i].1 <= s[i + 1].0);
    }
}

/// The index of the first adjacent pair from index `i` on whose second
/// region starts before the first one ends; -1 if there is none.
pub open spec fn overlap_from(t: Seq<(usize, usize)>, i: int) -> int
    decreases t.len() - i,
{
    if i < 0 || i + 1 >= t.len() {
        -1
    } else if t[i + 1].0 < t[i].1 {
        i
    } else {
        overlap_from(t, i + 1)
    }
}

/// The regions at `k` and `k + 1` joined into one.
pub open spec fn merge_at(t: Seq<(usize, usize)>, k: int) -> Seq<(usize, usize)> {
    t.remove(k + 1).update(k, (t[k].0, spec_max(t[k].1, t[k + 1].1)))
}

/// Join the first overlapping adjacent pair until none is left.
pub open spec fn merge_all(t: Seq<(usize, usize)>) -> Seq<(usize, usize)>
    decreases t.len(),
{
    let k = overlap_from(t, 0);
    if 0 <= k && k + 1 < t.len() {
        merge_all(merge_at(t, k))
    } else {
        t
    }
}

/// The first adjacent pair of regions that overlap, if any.
fn find_overlap(v: &Vec<(usize, usize)>) -> (r: Option<usize>)
    ensures
        match r {
            Some(i) => i + 1 < v@.len() && v@[i + 1].0 < v@[i as int].1 && overlap_from(v@, 0) == i,
            None => overlap_from(v@, 0) == -1 && forall|k: int| 0 <= k < v@.len() - 1 ==> #[trigger] v@[k + 1].0 >= v@[k].1,
        },
{
    let mut i: usize = 0;
    while i < v.len() && v.len() - i > 1
        invariant
            forall|k: int| 0 <= k < i && k < v@.len() - 1 ==> #[trigger] v@[k + 1].0 >= v@[k].1,
            overlap_from(v@, 0) == overlap_from(v@, i as int),
        decreases v.len() - i,
    {
        if v[i + 1].0 < v[i].1 {
            return Some(i);
        }
        i = i + 1;
    }
    None
}

/// Join overlapping regions, after dropping empty ones.
fn normalize_pairs(v: Vec<(usize, usize)>) -> (r: Vec<(usize, usize)>)
    requires
        keys_sorted(v@),
    ensures
        weakly_normalized(r@),
        forall|x: int| seq_covers(r@, x) == seq_covers(v@, x),
        r@ == merge_all(drop_empty(v@)),
{
    let mut v2 = retain_nonempty(v);
    loop
        invariant
            keys_sorted(v2@),
            all_nonempty(v2@),
            forall|x: int| seq_covers(v2@, x) == seq_covers(v@, x),
            merge_all(v2@) == merge_all(drop_empty(v@)),
        ensures
            weakly_normalized(v2@),
            forall|x: int| seq_covers(v2@, x) == seq_covers(v@, x),
            v2@ == merge_all(drop_empty(v@)),
        decreases v2.len(),
    {
        match find_overlap(&v2) {
            Some(i) => {
                proof {
                    assert(v2@[i as int].0 < v2@[i + 1].0);
                    assert(pair_joinable(v2@[i as int], v2@[i + 1]));
                    lemma_merge_covers(v2@, i as int);
                }
                let a = v2[i];
                let ghost before = v2@;
                // Remove the region (b) that will be unified with
                let b = v2.remove(i + 1);
                // If b stretches farther than a
                if b.1 > a.1 {
                    // Extend a to the region (b) we will unify with
                    v2.set(i, (a.0, b.1));
                }
                proof {
                    assert(v2@ =~= before.remove(i as int + 1).update(i as int, (a.0, spec_max(a.1, b.1))))
                        by {
                        if b.1 <= a.1 {
                            assert(before.remove(i as int + 1)[i as int] == a);
                        }
                    }
                    assert(v2@ == merge_at(before, i as int));
                    assert(merge_all(before) == merge_all(merge_at(before, i as int)));
                }
            },
            None => {
                // Nothing to unify
                proof {
                    assert forall|i: int, j: int| 0 <= i < j < v2@.len() implies v2@[i].1 <= v2@[j].0 by {
                        lemma_weak_pair(v2@, i, j);
                    }
                }
                break ;
            },
        }
    }
    v2
}

/// A set of address regions, sorted and free of overlaps.
#[derive(Debug)]
pub struct RegionSet {
    regions: Vec<(usize, usize)>,
}

impl View for RegionSet {
    type V = Set<int>;

    /// The addresses covered by the set.
    closed spec fn view(&self) -> Set<int> {
        Set::new(|x: int| seq_covers(self.regions@, x))
    }
}

impl RegionSet {
    /// The set is sorted, with non-empty, non-overlapping regions.
    pub closed spec fn wf(&self) -> bool {
        weakly_normalized(self.regions@)
    }

    pub fn new() -> (s: RegionSet)
        ensures
            s.wf(),
            s@ == Set::<int>::empty(),
            s.pairs() == Seq::<(usize, usize)>::empty(),
    {
        let s = RegionSet { regions: Vec::new() };
        assert(s@ =~= Set::<int>::empty());
        s
    }

    /// The regions as a map from start address to end address.
    pub fn unwrap(self) -> (m: BTreeMap<usize, usize>)
        requires
            self.wf(),
        ensures
            map_weakly_normal(m@),
            forall|x: int| map_covers(m@, x) == self@.contains(x),
    {
        let v = self.regions;
        let ghost s = v@;
        let mut m: BTreeMap<usize, usize> = BTreeMap::new();
        let mut i: usize = 0;
        while i < v.len()
            invariant
                v@ == s,
                weakly_normalized(s),
                i <= s.len(),
                m@.dom().finite(),
                forall|k: usize|
                    #[trigger] m@.contains_key(k) <==> exists|j: int| 0 <= j < i && s[j].0 == k,
                forall|j: int| 0 <= j < i ==> #[trigger] m@[s[j].0] == s[j].1,
            decreases s.len() - i,
        {
            let (start, end) = v[i];
            m.insert(start, end);
            proof {
                assert forall|k: usize|
                    #[trigger] m@.contains_key(k) <==> exists|j: int| 0 <= j < i + 1 && s[j].0 == k by {
                    if k == start {
                        assert(s[i as int].0 == k);
                    }
                }
                assert forall|j: int| 0 <= j < i + 1 implies #[trigger] m@[s[j].0] == s[j].1 by {
                    if j < i {
                        assert(s[j].1 <= s[i as int].0);
                    }
                }
            }
            i = i + 1;
        }
        proof {
            assert forall|k: usize| #[trigger] m@.contains_key(k) implies k < m@[k] by {
                let j = choose|j: int| 0 <= j < s.len() && s[j].0 == k;
                assert(m@[s[j].0] == s[j].1);
            }
            assert forall|k1: usize, k2: usize|
                m@.contains_key(k1) && m@.contains_key(k2) && k1 < k2 implies #[trigger] m@[k1]
                <= k2 && #[trigger] m@[k2] > k2 by {
                let j1 = choose|j: int| 0 <= j < s.len() && s[j].0 == k1;
                let j2 = choose|j: int| 0 <= j < s.len() && s[j].0 == k2;
                assert(m@[s[j1].0] == s[j1].1);
                assert(m@[s[j2].0] == s[j2].1);
                if j2 < j1 {
                    assert(s[j2].1 <= s[j1].0);
                }
                assert(j1 != j2);
            }
            assert forall|x: int| map_covers(m@, x) == seq_covers(s, x) by {
                if map_covers(m@, x) {
                    let k = choose|k: usize| m@.contains_key(k) && k <= x && x < #[trigger] m@[k];
                    let j = choose|j: int| 0 <= j < s.len() && s[j].0 == k;
                    assert(m@[s[j].0] == s[j].1);
                    assert(pair_has(s[j], x));
                }
                if seq_covers(s, x) {
                    let j = choose|j: int| 0 <= j < s.len() && #[trigger] pair_has(s[j], x);
                    assert(m@.contains_key(s[j].0));
                    assert(m@[s[j].0] == s[j].1);
                }
            }
        }
        m
    }

    /// The regions in increasing order.
    pub fn iter(&self) -> (r: Vec<Range<usize>>)
        requires
            self.wf(),
        ensures
            r@.len() == self.pairs().len(),
            forall|j: int|
                0 <= j < r@.len() ==> (#[trigger] r@[j]).start == self.pairs()[j].0 && r@[j].end
                    == self.pairs()[j].1,
            ranges_weakly_normal(r@),
            forall|x: int| ranges_cover(r@, x) == self@.contains(x),
    {
        let mut r: Vec<Range<usize>> = Vec::new();
        let mut i: usize = 0;
        while i < self.regions.len()
            invariant
                weakly_normalized(self.regions@),
                i <= self.regions@.len(),
                r@.len() == i,
                forall|j: int|
                    0 <= j < i ==> (#[trigger] r@[j]).start == self.regions@[j].0 && r@[j].end
                        == self.regions@[j].1,
            decreases self.regions@.len() - i,
        {
            let (start, end) = self.regions[i];
            r.push(start..end);
            i = i + 1;
        }
        proof {
            let s = self.regions@;
            assert forall|i: int, j: int| 0 <= i < j < r@.len() implies #[trigger] r@[i].end
                <= #[trigger] r@[j].start by {
                assert(s[i].1 <= s[j].0);
            }
            assert forall|x: int| ranges_cover(r@, x) == seq_covers(s, x) by {
                if ranges_cover(r@, x) {
                    let j = choose|j: int| 0 <= j < r@.len() && r@[j].start <= x && x < #[trigger] r@[j].end;
                    assert(pair_has(s[j], x));
                }
                if seq_covers(s, x) {
                    let j = choose|j: int| 0 <= j < s.len() && #[trigger] pair_has(s[j], x);
                    assert(r@[j].start <= x && x < r@[j].end);
                }
            }
        }
        r
    }
}

} // verus!

verus! {

/// `region` starts inside the stored pair `p` (ends included).
pub open spec fn starts_inside(p: (usize, usize), region: Range<usize>) -> bool {
    region.start >= p.0 && region.start <= p.1
}

/// `region` starts before the stored pair `p` and reaches its start.
pub open spec fn reaches(p: (usize, usize), region: Range<usize>) -> bool {
    region.start < p.0 && region.end >= p.0
}

/// `j` is the last stored pair that `region` reaches.
pub open spec fn last_reached(s: Seq<(usize, usize)>, region: Range<usize>, j: int) -> bool {
    0 <= j < s.len() && reaches(s[j], region) && forall|k: int|
        j < k < s.len() ==> !reaches(#[trigger] s[k], region)
}

/// The addresses covered after inserting `region`: pairs that `region` starts
/// inside end at `region.end`; the last pair it reaches is replaced by one
/// starting at `region.start`; otherwise `region` is added as it is.
pub open spec fn insert_covers(s: Seq<(usize, usize)>, region: Range<usize>, x: int) -> bool {
    ||| exists|i: int|
        0 <= i < s.len() && !starts_inside(s[i], region) && !last_reached(s, region, i)
            && #[trigger] pair_has(s[i], x)
    ||| exists|i: int|
        0 <= i < s.len() && #[trigger] starts_inside(s[i], region) && s[i].0 <= x && x < region.end
    ||| exists|j: int|
        #[trigger] last_reached(s, region, j) && region.start <= x && x < spec_max(region.end, s[j].1)
    ||| (forall|i: int|
        0 <= i < s.len() ==> !#[trigger] starts_inside(s[i], region) && !reaches(s[i], region))
        && region.start <= x && x < region.end
}

/// What the insertion loop makes of each stored pair.
pub open spec fn extended(p: (usize, usize), region: Range<usize>) -> (usize, usize) {
    if starts_inside(p, region) {
        (p.0, region.end)
    } else {
        p
    }
}

/// Each stored pair as the insertion loop leaves it.
pub open spec fn extended_pairs(s: Seq<(usize, usize)>, region: Range<usize>) -> Seq<(usize, usize)> {
    Seq::new(s.len(), |j: int| extended(s[j], region))
}

/// The pairs after the insertion steps and before normalizing: the last
/// pair that `region` reaches is replaced by one from `region.start` to the
/// further of the two ends; failing that, when `region` starts inside no
/// pair, `region` is put in as it is.
pub open spec fn inserted_unnormalized(s: Seq<(usize, usize)>, region: Range<usize>) -> Seq<(usize, usize)> {
    let e = extended_pairs(s, region);
    if exists|j: int| #[trigger] last_reached(s, region, j) {
        let j = choose|j: int| #[trigger] last_reached(s, region, j);
        put_sorted(e.remove(j), (region.start, spec_max(region.end, s[j].1)))
    } else if exists|i: int| 0 <= i < s.len() && #[trigger] starts_inside(s[i], region) {
        e
    } else {
        put_sorted(e, (region.start, region.end))
    }
}

/// The pairs stored after inserting `region` into the pairs `s`.
pub open spec fn inserted_pairs(s: Seq<(usize, usize)>, region: Range<usize>) -> Seq<(usize, usize)> {
    merge_all(drop_empty(inserted_unnormalized(s, region)))
}

impl RegionSet {
    /// The stored regions as (start, end) pairs, in order.
    pub closed spec fn pairs(&self) -> Seq<(usize, usize)> {
        self.regions@
    }

    /// The addresses covered after `insert(region)`.
    pub closed spec fn inserted(&self, region: Range<usize>) -> Set<int> {
        Set::new(|x: int| insert_covers(self.regions@, region, x))
    }

    /// Every stored region that `region` starts inside (ends included) ends
    /// at or before `region.end`.
    pub closed spec fn covers_tails_from(&self, region: Range<usize>) -> bool {
        forall|i: int|
            0 <= i < self.regions@.len() && #[trigger] starts_inside(self.regions@[i], region)
                ==> self.regions@[i].1 <= region.end
    }

    /// Inserting adds no address outside `region` and the set.
    pub proof fn lemma_inserted_within(&self, region: Range<usize>)
        ensures
            self.inserted(region).subset_of(self@.union(range_points(region))),
    {
        let s = self.regions@;
        assert forall|x: int| self.inserted(region).contains(x) implies self@.union(range_points(region)).contains(x) by {
            if exists|i: int|
                0 <= i < s.len() && !starts_inside(s[i], region) && !last_reached(s, region, i)
                    && #[trigger] pair_has(s[i], x) {
                assert(seq_covers(s, x));
            } else if exists|i: int|
                0 <= i < s.len() && #[trigger] starts_inside(s[i], region) && s[i].0 <= x && x < region.end {
                let i = choose|i: int|
                    0 <= i < s.len() && #[trigger] starts_inside(s[i], region) && s[i].0 <= x && x < region.end;
                if x < region.start {
                    assert(pair_has(s[i], x));
                    assert(seq_covers(s, x));
                }
            } else if exists|j: int| #[trigger] last_reached(s, region, j) && region.start <= x && x < spec_max(region.end, s[j].1) {
                let j = choose|j: int| #[trigger] last_reached(s, region, j) && region.start <= x && x < spec_max(region.end, s[j].1);
                if x >= region.end {
                    assert(pair_has(s[j], x));
                    assert(seq_covers(s, x));
                }
            }
        }
    }

    /// A non-empty region that shares no address with the set extends no
    /// stored region past its end.
    pub proof fn lemma_insert_disjoint(&self, region: Range<usize>)
        requires
            region.start < region.end,
            self@.disjoint(range_points(region)),
        ensures
            self.covers_tails_from(region),
    {
        let s = self.regions@;
        assert forall|i: int|
            0 <= i < s.len() && #[trigger] starts_inside(s[i], region) implies s[i].1 <= region.end by {
            if region.start < s[i].1 {
                assert(pair_has(s[i], region.start as int));
                assert(seq_covers(s, region.start as int));
                assert(range_points(region).contains(region.start as int));
            }
        }
    }

    /// An empty region at an address outside the set cuts no stored region
    /// short.
    pub proof fn lemma_insert_empty_outside(&self, region: Range<usize>)
        requires
            region.start == region.end,
            !self@.contains(region.start as int),
        ensures
            self.covers_tails_from(region),
    {
        let s = self.regions@;
        assert forall|i: int|
            0 <= i < s.len() && #[trigger] starts_inside(s[i], region) implies s[i].1 <= region.end by {
            if region.start < s[i].1 {
                assert(pair_has(s[i], region.start as int));
                assert(seq_covers(s, region.start as int));
            }
        }
    }

    /// Add `region` to the set.
    ///
    /// A stored region that `region` starts inside is given `region.end` as
    /// its end, even when that is shorter.
    pub fn insert(&mut self, region: Range<usize>)
        requires
            old(self).wf(),
        ensures
            final(self).wf(),
            final(self).pairs() == inserted_pairs(old(self).pairs(), region),
            final(self)@ == old(self).inserted(region),
            region.start <= region.end && old(self).covers_tails_from(region) ==> final(self)@
                == old(self)@.union(range_points(region)),
    {
        let mut v: Vec<(usize, usize)> = Vec::new();
        std::mem::swap(&mut v, &mut self.regions);
        let ghost s = v@;
        let (replace, inserted) = scan_insert(&mut v, &region);
        let ghost ext = v@;
        let v2 = match replace {
            Some((old_start, (new_start, new_end))) => {
                let ghost rj = choose|j: int|
                    #[trigger] last_reached(s, region, j) && old_start == s[j].0 && new_start
                        == region.start && new_end == spec_max(region.end, s[j].1);
                let v1 = map_remove(v, old_start);
                proof {
                    assert(ext[rj] == s[rj]);
                    assert(v1@ == ext.remove(rj));
                    assert forall|i: int| 0 <= i < v1@.len() && v1@[i].0 == new_start implies v1@[i].1
                        <= new_end by {
                        let i0 = if i < rj { i } else { i + 1 };
                        assert(v1@[i] == ext[i0]);
                        if !starts_inside(s[i0], region) {
                            assert(ext[i0] == s[i0]);
                        }
                    }
                }
                let v3 = map_insert(v1, new_start, new_end);
                proof {
                    lemma_put_covers(v1@, v3@, (new_start, new_end));
                    lemma_replace_covers(s, region, ext, v1@, rj);
                    let j0 = choose|j: int| #[trigger] last_reached(s, region, j);
                    assert(last_reached(s, region, j0));
                    if j0 < rj {
                        assert(!reaches(s[rj], region));
                    }
                    if rj < j0 {
                        assert(!reaches(s[j0], region));
                    }
                    assert(ext =~= extended_pairs(s, region));
                    assert(v3@ == inserted_unnormalized(s, region));
                }
                v3
            },
            None => {
                if !inserted {
                    proof {
                        assert forall|k: int| 0 <= k < ext.len() implies ext[k].0 != region.start by {
                            assert(ext[k] == extended(s[k], region));
                            if s[k].0 == region.start {
                                assert(starts_inside(s[k], region));
                            }
                        }
                    }
                    let v3 = map_insert(v, region.start, region.end);
                    proof {
                        lemma_plain_insert_covers(s, region, ext, v3@);
                        assert(!exists|j: int| #[trigger] last_reached(s, region, j));
                        assert(ext =~= extended_pairs(s, region));
                        assert(v3@ == inserted_unnormalized(s, region));
                    }
                    v3
                } else {
                    proof {
                        lemma_extend_covers(s, region, ext);
                        assert(!exists|j: int| #[trigger] last_reached(s, region, j));
                        assert(ext =~= extended_pairs(s, region));
                        assert(v@ == inserted_unnormalized(s, region));
                    }
                    v
                }
            },
        };
        self.regions = normalize_pairs(v2);
        proof {
            assert(self@ =~= old(self).inserted(region));
            if region.start <= region.end && old(self).covers_tails_from(region) {
                lemma_insert_union(s, region);
                assert(self@ =~= old(self)@.union(range_points(region)));
            }
        }
    }
}

/// The insertion scan: extend the pairs `region` starts inside, and find the
/// last pair it reaches.
fn scan_insert(v: &mut Vec<(usize, usize)>, region: &Range<usize>) -> (r: (
    Option<(usize, (usize, usize))>,
    bool,
))
    requires
        weakly_normalized(old(v)@),
    ensures
        final(v)@.len() == old(v)@.len(),
        forall|j: int| 0 <= j < old(v)@.len() ==> #[trigger] final(v)@[j] == extended(old(v)@[j], *region),
        keys_sorted(final(v)@),
        r.1 == exists|j: int| 0 <= j < old(v)@.len() && #[trigger] starts_inside(old(v)@[j], *region),
        match r.0 {
            Some((k, (a, b))) => exists|j: int|
                #[trigger] last_reached(old(v)@, *region, j) && k == old(v)@[j].0 && a == region.start
                    && b == spec_max(region.end, old(v)@[j].1),
            None => forall|j: int| 0 <= j < old(v)@.len() ==> !#[trigger] reaches(old(v)@[j], *region),
        },
{
    let ghost s = v@;
    let mut replace: Option<(usize, (usize, usize))> = None;
    let ghost mut rj: int = -1;
    let mut inserted = false;
    let mut i: usize = 0;
    while i < v.len()
        invariant
            s == old(v)@,
            weakly_normalized(s),
            i <= v@.len(),
            v@.len() == s.len(),
            forall|j: int| 0 <= j < i ==> #[trigger] v@[j] == extended(s[j], *region),
            forall|j: int| i <= j < s.len() ==> #[trigger] v@[j] == s[j],
            inserted == exists|j: int| 0 <= j < i && #[trigger] starts_inside(s[j], *region),
            -1 <= rj < i,
            rj == -1 ==> replace.is_none() && forall|j: int|
                0 <= j < i ==> !#[trigger] reaches(s[j], *region),
            rj >= 0 ==> replace == Some((s[rj].0, (region.start, spec_max(region.end, s[rj].1))))
                && reaches(s[rj], *region) && forall|j: int|
                rj < j < i ==> !#[trigger] reaches(s[j], *region),
        decreases v.len() - i,
    {
        let (start, end) = v[i];
        proof {
            assert(v@[i as int] == s[i as int]);
        }
        if region.start >= start && region.start <= end {
            // Can be extended
            v.set(i, (start, region.end));
            inserted = true;
            proof {
                assert(starts_inside(s[i as int], *region));
            }
        } else if region.start < start && region.end >= start {
            // Can be unified
            replace = Some((start, (region.start, max(region.end, end))));
            proof {
                rj = i as int;
            }
        }
        proof {
            assert(v@[i as int] == extended(s[i as int], *region));
            if !starts_inside(s[i as int], *region) {
                assert((exists|j: int| 0 <= j < i + 1 && #[trigger] starts_inside(s[j], *region))
                    == (exists|j: int| 0 <= j < i && #[trigger] starts_inside(s[j], *region)));
            }
        }
        i = i + 1;
    }
    proof {
        assert(keys_sorted(v@)) by {
            assert forall|a: int, b: int| 0 <= a < b < v@.len() implies v@[a].0 < v@[b].0 by {
                assert(v@[a] == extended(s[a], *region));
                assert(v@[b] == extended(s[b], *region));
                assert(s[a].1 <= s[b].0);
            }
        }
        if rj >= 0 {
            assert(last_reached(s, *region, rj));
        }
    }
    (replace, inserted)
}

/// Replacing or adding pair `e` adds exactly its addresses, when the pair it
/// replaces lies inside it.
proof fn lemma_put_covers(v1: Seq<(usize, usize)>, v3: Seq<(usize, usize)>, e: (usize, usize))
    requires
        forall|i: int| 0 <= i < v1.len() && v1[i].0 == e.0 ==> v3 == v1.update(i, e),
        (forall|i: int| 0 <= i < v1.len() ==> v1[i].0 != e.0) ==> exists|p: int|
            0 <= p <= v1.len() && v3 == v1.insert(p, e),
        forall|i: int| 0 <= i < v1.len() && v1[i].0 == e.0 ==> v1[i].1 <= e.1,
    ensures
        forall|x: int| seq_covers(v3, x) == (seq_covers(v1, x) || pair_has(e, x)),
{
    assert forall|x: int| seq_covers(v3, x) == (seq_covers(v1, x) || pair_has(e, x)) by {
        if exists|k: int| 0 <= k < v1.len() && v1[k].0 == e.0 {
            let k = choose|k: int| 0 <= k < v1.len() && v1[k].0 == e.0;
            assert(v3 == v1.update(k, e));
            lemma_covers_remove(v1, k, x);
            lemma_covers_remove(v3, k, x);
            assert(v1.remove(k) =~= v3.remove(k));
            if pair_has(v1[k], x) || pair_has(e, x) {
                assert(pair_has(v3[k], x));
            }
            if seq_covers(v1, x) && !pair_has(v1[k], x) {
                let m = choose|m: int| 0 <= m < v1.len() && #[trigger] pair_has(v1[m], x);
                assert(m != k);
                assert(pair_has(v3[m], x));
            }
            if seq_covers(v3, x) && !pair_has(v3[k], x) {
                let m = choose|m: int| 0 <= m < v3.len() && m != k && #[trigger] pair_has(v3[m], x);
                assert(pair_has(v1[m], x));
            }
        } else {
            let p = choose|p: int| 0 <= p <= v1.len() && v3 == v1.insert(p, e);
            lemma_covers_insert(v1, p, e, x);
        }
    }
}

/// Coverage when the last reached pair is replaced.
proof fn lemma_replace_covers(
    s: Seq<(usize, usize)>,
    region: Range<usize>,
    ext: Seq<(usize, usize)>,
    v1: Seq<(usize, usize)>,
    rj: int,
)
    requires
        weakly_normalized(s),
        ext.len() == s.len(),
        forall|j: int| 0 <= j < s.len() ==> #[trigger] ext[j] == extended(s[j], region),
        last_reached(s, region, rj),
        v1 == ext.remove(rj),
    ensures
        forall|x: int|
            (seq_covers(v1, x) || pair_has((region.start, spec_max(region.end, s[rj].1)), x))
                == insert_covers(s, region, x),
{
    let e = (region.start, spec_max(region.end, s[rj].1));
    assert forall|x: int| (seq_covers(v1, x) || pair_has(e, x)) == insert_covers(s, region, x) by {
        if seq_covers(v1, x) {
            let m = choose|m: int| 0 <= m < v1.len() && #[trigger] pair_has(v1[m], x);
            let m0 = if m < rj { m } else { m + 1 };
            assert(v1[m] == ext[m0]);
            if starts_inside(s[m0], region) {
                assert(starts_inside(s[m0], region) && s[m0].0 <= x && x < region.end);
            } else {
                assert(!last_reached(s, region, m0)) by {
                    if last_reached(s, region, m0) {
                        if m0 < rj {
                            assert(!reaches(s[rj], region));
                        }
                    }
                }
                assert(pair_has(s[m0], x));
            }
        }
        if pair_has(e, x) {
            assert(last_reached(s, region, rj));
        }
        if insert_covers(s, region, x) {
            if exists|i: int|
                0 <= i < s.len() && !starts_inside(s[i], region) && !last_reached(s, region, i)
                    && #[trigger] pair_has(s[i], x) {
                let i = choose|i: int|
                    0 <= i < s.len() && !starts_inside(s[i], region) && !last_reached(s, region, i)
                        && #[trigger] pair_has(s[i], x);
                assert(i != rj);
                let m = if i < rj { i } else { i - 1 };
                assert(v1[m] == ext[i]);
                assert(pair_has(v1[m], x));
            } else if exists|i: int|
                0 <= i < s.len() && #[trigger] starts_inside(s[i], region) && s[i].0 <= x && x
                    < region.end {
                let i = choose|i: int|
                    0 <= i < s.len() && #[trigger] starts_inside(s[i], region) && s[i].0 <= x && x
                        < region.end;
                assert(i != rj);
                let m = if i < rj { i } else { i - 1 };
                assert(v1[m] == ext[i]);
                assert(pair_has(v1[m], x));
            } else if exists|j: int|
                #[trigger] last_reached(s, region, j) && region.start <= x && x < spec_max(
                    region.end,
                    s[j].1,
                ) {
                let j = choose|j: int|
                    #[trigger] last_reached(s, region, j) && region.start <= x && x < spec_max(
                        region.end,
                        s[j].1,
                    );
                if j < rj {
                    assert(!reaches(s[rj], region));
                } else if j > rj {
                    assert(!reaches(s[j], region));
                }
                assert(pair_has(e, x));
            } else {
                assert(!reaches(s[rj], region));
            }
        }
    }
}

/// Coverage when `region` is added as a new pair.
proof fn lemma_plain_insert_covers(
    s: Seq<(usize, usize)>,
    region: Range<usize>,
    ext: Seq<(usize, usize)>,
    v3: Seq<(usize, usize)>,
)
    requires
        weakly_normalized(s),
        ext.len() == s.len(),
        forall|j: int| 0 <= j < s.len() ==> #[trigger] ext[j] == extended(s[j], region),
        !exists|j: int| 0 <= j < s.len() && #[trigger] starts_inside(s[j], region),
        forall|j: int| 0 <= j < s.len() ==> !#[trigger] reaches(s[j], region),
        exists|p: int| 0 <= p <= ext.len() && v3 == ext.insert(p, (region.start, region.end)),
    ensures
        forall|x: int| seq_covers(v3, x) == insert_covers(s, region, x),
{
    let p = choose|p: int| 0 <= p <= ext.len() && v3 == ext.insert(p, (region.start, region.end));
    assert forall|x: int| seq_covers(v3, x) == insert_covers(s, region, x) by {
        lemma_covers_insert(ext, p, (region.start, region.end), x);
        if seq_covers(ext, x) {
            let m = choose|m: int| 0 <= m < ext.len() && #[trigger] pair_has(ext[m], x);
            assert(ext[m] == s[m]);
            assert(!last_reached(s, region, m));
            assert(pair_has(s[m], x));
        }
        if insert_covers(s, region, x) {
            if exists|i: int|
                0 <= i < s.len() && !starts_inside(s[i], region) && !last_reached(s, region, i)
                    && #[trigger] pair_has(s[i], x) {
                let i = choose|i: int|
                    0 <= i < s.len() && !starts_inside(s[i], region) && !last_reached(s, region, i)
                        && #[trigger] pair_has(s[i], x);
                assert(pair_has(ext[i], x));
            } else if exists|j: int| #[trigger] last_reached(s, region, j) {
                let j = choose|j: int| #[trigger] last_reached(s, region, j);
            }
        }
    }
}

/// Coverage when only pairs that `region` starts inside were extended.
proof fn lemma_extend_covers(s: Seq<(usize, usize)>, region: Range<usize>, ext: Seq<(usize, usize)>)
    requires
        weakly_normalized(s),
        ext.len() == s.len(),
        forall|j: int| 0 <= j < s.len() ==> #[trigger] ext[j] == extended(s[j], region),
        exists|j: int| 0 <= j < s.len() && #[trigger] starts_inside(s[j], region),
        forall|j: int| 0 <= j < s.len() ==> !#[trigger] reaches(s[j], region),
    ensures
        forall|x: int| seq_covers(ext, x) == insert_covers(s, region, x),
{
    assert forall|x: int| seq_covers(ext, x) == insert_covers(s, region, x) by {
        if seq_covers(ext, x) {
            let m = choose|m: int| 0 <= m < ext.len() && #[trigger] pair_has(ext[m], x);
            assert(!last_reached(s, region, m));
            if starts_inside(s[m], region) {
                assert(starts_inside(s[m], region) && s[m].0 <= x && x < region.end);
            } else {
                assert(pair_has(s[m], x));
            }
        }
        if insert_covers(s, region, x) {
            if exists|i: int|
                0 <= i < s.len() && !starts_inside(s[i], region) && !last_reached(s, region, i)
                    && #[trigger] pair_has(s[i], x) {
                let i = choose|i: int|
                    0 <= i < s.len() && !starts_inside(s[i], region) && !last_reached(s, region, i)
                        && #[trigger] pair_has(s[i], x);
                assert(pair_has(ext[i], x));
            } else if exists|i: int|
                0 <= i < s.len() && #[trigger] starts_inside(s[i], region) && s[i].0 <= x && x
                    < region.end {
                let i = choose|i: int|
                    0 <= i < s.len() && #[trigger] starts_inside(s[i], region) && s[i].0 <= x && x
                        < region.end;
                assert(pair_has(ext[i], x));
            } else if exists|j: int| #[trigger] last_reached(s, region, j) {
                let j = choose|j: int| #[trigger] last_reached(s, region, j);
            } else {
                let j = choose|j: int| 0 <= j < s.len() && #[trigger] starts_inside(s[j], region);
            }
        }
    }
}

/// Insertion adds exactly `region` when every stored region that `region`
/// starts inside ends no later than `region` does.
proof fn lemma_insert_union(s: Seq<(usize, usize)>, region: Range<usize>)
    requires
        weakly_normalized(s),
        region.start <= region.end,
        forall|i: int|
            0 <= i < s.len() && #[trigger] starts_inside(s[i], region) ==> s[i].1 <= region.end,
    ensures
        forall|x: int|
            insert_covers(s, region, x) == (seq_covers(s, x) || range_points(region).contains(x)),
{
    assert forall|x: int|
        insert_covers(s, region, x) == (seq_covers(s, x) || range_points(region).contains(x)) by {
        if seq_covers(s, x) {
            let i = choose|i: int| 0 <= i < s.len() && #[trigger] pair_has(s[i], x);
            if starts_inside(s[i], region) {
                assert(s[i].1 <= region.end);
            } else if last_reached(s, region, i) {
            }
        }
        if range_points(region).contains(x) {
            if exists|i: int| 0 <= i < s.len() && #[trigger] starts_inside(s[i], region) {
                let i = choose|i: int| 0 <= i < s.len() && #[trigger] starts_inside(s[i], region);
                assert(starts_inside(s[i], region) && s[i].0 <= x && x < region.end);
            } else if exists|j: int| 0 <= j < s.len() && #[trigger] reaches(s[j], region) {
                let j = choose|j: int| 0 <= j < s.len() && #[trigger] reaches(s[j], region);
                lemma_last_reached_exists(s, region, j);
                let k = choose|k: int| #[trigger] last_reached(s, region, k);
                assert(region.start <= x && x < spec_max(region.end, s[k].1));
            }
        }
        if insert_covers(s, region, x) && !range_points(region).contains(x) {
            if exists|i: int|
                0 <= i < s.len() && !starts_inside(s[i], region) && !last_reached(s, region, i)
                    && #[trigger] pair_has(s[i], x) {
                let i = choose|i: int|
                    0 <= i < s.len() && !starts_inside(s[i], region) && !last_reached(s, region, i)
                        && #[trigger] pair_has(s[i], x);
            } else if exists|i: int|
                0 <= i < s.len() && #[trigger] starts_inside(s[i], region) && s[i].0 <= x && x
                    < region.end {
                let i = choose|i: int|
                    0 <= i < s.len() && #[trigger] starts_inside(s[i], region) && s[i].0 <= x && x
                        < region.end;
                assert(pair_has(s[i], x));
            } else if exists|j: int|
                #[trigger] last_reached(s, region, j) && region.start <= x && x < spec_max(
                    region.end,
                    s[j].1,
                ) {
                let j = choose|j: int|
                    #[trigger] last_reached(s, region, j) && region.start <= x && x < spec_max(
                        region.end,
                        s[j].1,
                    );
                assert(pair_has(s[j], x));
            }
        }
    }
}

/// If `region` reaches some stored pair, there is a last one it reaches.
proof fn lemma_last_reached_exists(s: Seq<(usize, usize)>, region: Range<usize>, j: int)
    requires
        0 <= j < s.len(),
        reaches(s[j], region),
    ensures
        exists|k: int| #[trigger] last_reached(s, region, k),
    decreases s.len() - j,
{
    if exists|k: int| j < k < s.len() && #[trigger] reaches(s[k], region) {
        let k = choose|k: int| j < k < s.len() && #[trigger] reaches(s[k], region);
        lemma_last_reached_exists(s, region, k);
    } else {
        assert(last_reached(s, region, j));
    }
}

} // verus!

verus! {

/// What removing `region` does to one stored pair: the new pair, and the
/// pair split off after it, if any.
pub open spec fn removal_step(p: (usize, usize), region: Range<usize>) -> ((usize, usize), Option<(usize, usize)>) {
    if region.end < p.0 || region.start > p.1 {
        (p, None)
    } else if region.start >= p.0 && region.end >= p.1 {
        ((p.0, region.start), None)
    } else if region.end < p.1 {
        ((p.0, region.start), Some((region.end, p.1)))
    } else {
        ((p.0, p.0), None)
    }
}

proof fn lemma_removal_step(p: (usize, usize), region: Range<usize>)
    requires
        p.0 < p.1,
    ensures
        removal_step(p, region).0.0 == p.0,
        removal_step(p, region).0.1 <= p.1,
        forall|x: int|
            (#[trigger] pair_has(removal_step(p, region).0, x) || match removal_step(p, region).1 {
                Some(q) => pair_has(q, x),
                None => false,
            }) == (pair_has(p, x) && !range_points(region).contains(x)),
        match removal_step(p, region).1 {
            Some(q) => q.0 == region.end && q.1 == p.1 && p.0 <= q.0 < q.1,
            None => true,
        },
{
}

/// What the removal loop makes of the stored pair `p`: a pair `region`
/// reaches into is cut back to end where `region` starts, or emptied when
/// `region` covers it.
pub open spec fn cut_pair(p: (usize, usize), region: Range<usize>) -> (usize, usize) {
    if region.end < p.0 || region.start > p.1 {
        p
    } else if region.start >= p.0 && region.end >= p.1 {
        (p.0, region.start)
    } else if region.end < p.1 {
        (p.0, region.start)
    } else if region.start <= p.0 && region.end >= p.1 {
        (p.0, p.0)
    } else {
        p
    }
}

/// `region` ends inside the stored pair `p`, which the removal splits.
pub open spec fn splits(p: (usize, usize), region: Range<usize>) -> bool {
    &&& !(region.end < p.0 || region.start > p.1)
    &&& !(region.start >= p.0 && region.end >= p.1)
    &&& region.end < p.1
}

/// The index of the first pair from index `i` on that `region` splits; -1
/// if there is none.
pub open spec fn split_from(s: Seq<(usize, usize)>, region: Range<usize>, i: int) -> int
    decreases s.len() - i,
{
    if i < 0 || i >= s.len() {
        -1
    } else if splits(s[i], region) {
        i
    } else {
        split_from(s, region, i + 1)
    }
}

/// The pairs after the removal steps and before normalizing: each pair up
/// to the first one that `region` splits is cut; the part of the split pair
/// past `region` is put in as a pair of its own.
pub open spec fn removed_unnormalized(s: Seq<(usize, usize)>, region: Range<usize>) -> Seq<(usize, usize)> {
    let k = split_from(s, region, 0);
    if k < 0 {
        Seq::new(s.len(), |j: int| cut_pair(s[j], region))
    } else {
        let t = Seq::new(s.len(), |j: int| if j <= k { cut_pair(s[j], region) } else { s[j] });
        if s[k].1 > region.end {
            put_sorted(t, (region.end, s[k].1))
        } else {
            t
        }
    }
}

/// The pairs stored after removing `region` from the pairs `s`.
pub open spec fn removed_pairs(s: Seq<(usize, usize)>, region: Range<usize>) -> Seq<(usize, usize)> {
    merge_all(drop_empty(removed_unnormalized(s, region)))
}

impl RegionSet {
    /// Remove the addresses of `region` from the set.
    pub fn remove(&mut self, region: Range<usize>)
        requires
            old(self).wf(),
        ensures
            final(self).wf(),
            final(self).pairs() == removed_pairs(old(self).pairs(), region),
            final(self)@ == old(self)@.difference(range_points(region)),
    {
        let mut v: Vec<(usize, usize)> = Vec::new();
        std::mem::swap(&mut v, &mut self.regions);
        let ghost s = v@;
        let ghost reg = range_points(region);
        let mut split_new: Option<(usize, usize)> = None;
        let mut i: usize = 0;
        while i < v.len()
            invariant_except_break
                split_new.is_none(),
                forall|j: int| i <= j < s.len() ==> v@[j] == s[j],
                split_from(s, region, 0) == split_from(s, region, i as int),
            invariant
                weakly_normalized(s),
                i <= v@.len(),
                v@.len() == s.len(),
                forall|j: int| 0 <= j < s.len() ==> (#[trigger] v@[j]).0 == s[j].0 && v@[j].1 <= s[j].1,
                forall|j: int, x: int|
                    0 <= j < i ==> #[trigger] pair_has(v@[j], x) == (pair_has(s[j], x) && !reg.contains(x)),
                reg == range_points(region),
                forall|j: int| 0 <= j < i ==> #[trigger] v@[j] == cut_pair(s[j], region),
            ensures
                v@.len() == s.len(),
                match split_new {
                    None => split_from(s, region, 0) == -1 && forall|j: int|
                        0 <= j < s.len() ==> #[trigger] v@[j] == cut_pair(s[j], region),
                    Some(a) => {
                        &&& split_from(s, region, 0) == i
                        &&& a == (region.end, s[i as int].1)
                        &&& forall|j: int| 0 <= j <= i ==> #[trigger] v@[j] == cut_pair(s[j], region)
                        &&& forall|j: int| i < j < s.len() ==> #[trigger] v@[j] == s[j]
                    },
                },
                forall|j: int| 0 <= j < s.len() ==> (#[trigger] v@[j]).0 == s[j].0 && v@[j].1 <= s[j].1,
                match split_new {
                    None => forall|j: int, x: int|
                        0 <= j < s.len() ==> #[trigger] pair_has(v@[j], x) == (pair_has(s[j], x)
                            && !reg.contains(x)),
                    Some(a) => i < s.len() && s[i as int].0 <= a.0 < a.1 && a.1 == s[i as int].1
                        && v@[i as int].1 <= a.1 && (forall|j: int, x: int|
                        0 <= j < s.len() && j != i ==> #[trigger] pair_has(v@[j], x) == (pair_has(
                            s[j],
                            x,
                        ) && !reg.contains(x))) && (forall|x: int|
                        (pair_has(v@[i as int], x) || pair_has(a, x)) == (pair_has(s[i as int], x)
                            && !reg.contains(x))),
                },
            decreases v.len() - i,
        {
            let (start, end) = v[i];
            proof {
                assert(v@[i as int] == s[i as int]);
                lemma_removal_step(s[i as int], region);
            }
            // Skip if totally non-overlapping
            if region.end < start || region.start > end {
                i = i + 1;
                continue ;
            }
            if region.start >= start && region.end >= end {
                // Cut off end of region
                v.set(i, (start, region.start));
            } else if region.end < end {
                // Cut off beginning of region
                split_new = Some((region.end, end));
                v.set(i, (start, region.start));
                proof {
                    assert forall|j: int, x: int|
                        i < j < s.len() implies #[trigger] pair_has(v@[j], x) == (pair_has(s[j], x)
                        && !reg.contains(x)) by {
                        assert(s[i as int].1 <= s[j].0);
                    }
                }
                // We won't find any matching regions beyond this, so we can
                // terminate.
                break ;
            } else if region.start <= start && region.end >= end {
                // Remove whole region
                v.set(i, (start, start));
            }
            i = i + 1;
        }
        let ghost cut_v = v@;
        let ghost k = split_from(s, region, 0);
        proof {
            assert(keys_sorted(cut_v)) by {
                assert forall|a: int, b: int| 0 <= a < b < cut_v.len() implies cut_v[a].0 < cut_v[b].0 by {
                    assert(cut_v[a].0 == s[a].0);
                    assert(cut_v[b].0 == s[b].0);
                    assert(s[a].1 <= s[b].0);
                }
            }
        }
        let mut v2 = v;
        match split_new {
            Some((start, end)) => {
                if end > start {
                    proof {
                        assert forall|j: int| 0 <= j < cut_v.len() && cut_v[j].0 == start implies cut_v[j].1
                            <= end by {
                            if j < i {
                                assert(s[j].1 <= s[i as int].0);
                            } else if j > i {
                                assert(s[i as int].1 <= s[j].0);
                            }
                        }
                    }
                    v2 = map_insert(v2, start, end);
                    proof {
                        lemma_put_covers(cut_v, v2@, (start, end));
                        assert forall|x: int|
                            seq_covers(v2@, x) == (seq_covers(s, x) && !reg.contains(x)) by {
                            if seq_covers(s, x) && !reg.contains(x) {
                                let k = choose|k: int| 0 <= k < s.len() && #[trigger] pair_has(s[k], x);
                                if k != i {
                                    assert(pair_has(cut_v[k], x));
                                } else if !pair_has(cut_v[k], x) {
                                    assert(pair_has((start, end), x));
                                }
                            }
                            if seq_covers(cut_v, x) {
                                let k = choose|k: int|
                                    0 <= k < cut_v.len() && #[trigger] pair_has(cut_v[k], x);
                                if k != i {
                                    assert(pair_has(s[k], x));
                                } else {
                                    assert(pair_has(s[i as int], x));
                                }
                            }
                            if pair_has((start, end), x) {
                                assert(pair_has(s[i as int], x));
                            }
                        }
                    }
                }
            },
            None => {
                proof {
                    assert forall|x: int|
                        seq_covers(cut_v, x) == (seq_covers(s, x) && !reg.contains(x)) by {
                        if seq_covers(s, x) && !reg.contains(x) {
                            let k = choose|k: int| 0 <= k < s.len() && #[trigger] pair_has(s[k], x);
                            assert(pair_has(cut_v[k], x));
                        }
                        if seq_covers(cut_v, x) {
                            let k = choose|k: int| 0 <= k < cut_v.len() && #[trigger] pair_has(cut_v[k], x);
                            assert(pair_has(s[k], x));
                        }
                    }
                }
            },
        }
        proof {
            if k < 0 {
                assert(cut_v =~= Seq::new(s.len(), |j: int| cut_pair(s[j], region)));
            } else {
                assert(cut_v =~= Seq::new(s.len(), |j: int| if j <= k { cut_pair(s[j], region) } else { s[j] }));
            }
            assert(v2@ == removed_unnormalized(s, region));
        }
        self.regions = normalize_pairs(v2);
        proof {
            assert(self@ =~= old(self)@.difference(reg));
        }
    }
}

} // verus!
