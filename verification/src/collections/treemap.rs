//! A map from `u64` keys to values, kept as an AA tree: a binary search tree
//! rebalanced by `skew` and `split` on the way back from each change.

use vstd::prelude::*;

verus! {

struct Node<V> {
    key: u64,
    val: V,
    level: usize,
    left: Option<Box<Node<V>>>,
    right: Option<Box<Node<V>>>,
}

/// The map that a subtree holds.
spec fn map_of<V>(t: Option<Box<Node<V>>>) -> Map<u64, V>
    decreases t,
{
    match t {
        None => Map::empty(),
        Some(n) => map_of(n.left).union_prefer_right(map_of(n.right)).insert(n.key, n.val),
    }
}

/// Every key of the left subtree of a node is below its key, every key of
/// the right subtree above, all the way down.
spec fn ordered<V>(t: Option<Box<Node<V>>>) -> bool
    decreases t,
{
    match t {
        None => true,
        Some(n) => {
            &&& ordered(n.left)
            &&& ordered(n.right)
            &&& forall|k: u64| #[trigger] map_of(n.left).dom().contains(k) ==> k < n.key
            &&& forall|k: u64| #[trigger] map_of(n.right).dom().contains(k) ==> k > n.key
        },
    }
}

/// The level of a subtree's root, 0 for an empty one.
spec fn lv<V>(t: Option<Box<Node<V>>>) -> int {
    match t {
        Some(n) => n.level as int,
        None => 0,
    }
}

/// The AA-tree balance rules, all the way down: a left child is one level
/// below its parent; a right child is on its parent's level or one below;
/// a right grandchild is below its grandparent's level; leaves are on level
/// one.
spec fn aa<V>(t: Option<Box<Node<V>>>) -> bool
    decreases t,
{
    match t {
        None => true,
        Some(n) => {
            &&& n.level >= 1
            &&& lv(n.left) + 1 == n.level
            &&& (lv(n.right) == n.level || lv(n.right) + 1 == n.level)
            &&& (match n.right {
                Some(r) => lv(r.right) < n.level,
                None => true,
            })
            &&& aa(n.left)
            &&& aa(n.right)
        },
    }
}

/// What inserting into the subtree `t` may give: a balanced subtree on the
/// same level, or one level up with its right child on the old level, and
/// then only where `t` had a right child on its own level.
spec fn grown_ok<V>(t: Option<Box<Node<V>>>, r: Box<Node<V>>) -> bool {
    &&& aa(Some(r))
    &&& (r.level == lv(t) || (r.level == lv(t) + 1 && lv(r.right) == lv(t) && (t matches Some(n) ==> lv(n.right)
        == n.level)))
}

/// `n` with `l` in place of its left child.
spec fn with_left<V>(n: Box<Node<V>>, l: Box<Node<V>>) -> Box<Node<V>> {
    Box::new(Node { key: n.key, val: n.val, level: n.level, left: Some(l), right: n.right })
}

/// `n` with `r` in place of its right child.
spec fn with_right<V>(n: Box<Node<V>>, r: Box<Node<V>>) -> Box<Node<V>> {
    Box::new(Node { key: n.key, val: n.val, level: n.level, left: n.left, right: Some(r) })
}

/// A balanced subtree of level `l` holds at least `2 * l - 1` keys.
proof fn lemma_level_bound<V>(t: Option<Box<Node<V>>>)
    requires
        ordered(t),
        aa(t),
    ensures
        map_of(t).dom().len() >= 2 * lv(t) - 1,
        map_of(t).dom().finite(),
    decreases t,
{
    lemma_finite(t);
    if let Some(n) = t {
        lemma_level_bound(n.left);
        lemma_level_bound(n.right);
        let a = map_of(n.left).dom();
        let b = map_of(n.right).dom();
        assert(a.disjoint(b)) by {
            assert forall|k: u64| a.contains(k) implies !b.contains(k) by {
                assert(k < n.key);
            }
        }
        vstd::set_lib::lemma_set_disjoint_lens(a, b);
        assert(map_of(n.left).union_prefer_right(map_of(n.right)).dom() =~= a + b);
        assert(!(a + b).contains(n.key)) by {
            if a.contains(n.key) {
                assert(n.key < n.key);
            }
            if b.contains(n.key) {
                assert(n.key > n.key);
            }
        }
        assert(map_of(t).dom() =~= (a + b).insert(n.key));
    }
}

/// After an insertion into the left subtree, `skew` then `split` leave the
/// node balanced.
proof fn lemma_balance_left<V>(n0: Box<Node<V>>, l: Box<Node<V>>)
    requires
        aa(Some(n0)),
        grown_ok(n0.left, l),
        n0.level + 1 < usize::MAX,
    ensures
        grown_ok(Some(n0), splitted(skewed(with_left(n0, l)))),
{
    let p = n0.level as int;
    let n = with_left(n0, l);
    assert(aa(n0.left) && aa(n0.right));
    assert(aa(Some(l)));
    if l.level == p {
        assert(lv(l.right) == p - 1);
        let inner = Box::new(Node { key: n0.key, val: n0.val, level: n0.level, left: l.right, right: n0.right });
        let s = Box::new(Node { key: l.key, val: l.val, level: l.level, left: l.left, right: Some(inner) });
        assert(skewed(n) == s);
        assert(aa(l.left) && aa(l.right));
        assert(aa(Some(inner)));
        if lv(n0.right) == p {
            let r0 = n0.right.unwrap();
            let q = Box::new(Node { key: l.key, val: l.val, level: l.level, left: l.left, right: l.right });
            let f = Box::new(Node { key: inner.key, val: inner.val, level: (inner.level + 1) as usize, left: Some(q), right: inner.right });
            assert(splitted(s) == f);
            if let Some(lr) = l.right {
                assert(aa(Some(lr)));
                assert(lv(lr.right) <= lr.level);
            }
            assert(aa(Some(q)));
            assert(lv(r0.right) < p);
            assert(aa(Some(f)));
        } else {
            assert(splitted(s) == s);
            assert(aa(Some(s)));
        }
    } else {
        assert(skewed(n) == n);
        assert(splitted(n) == n);
        assert(aa(Some(n)));
    }
}

/// After an insertion into the right subtree, `skew` then `split` leave the
/// node balanced.
proof fn lemma_balance_right<V>(n0: Box<Node<V>>, rt: Box<Node<V>>)
    requires
        aa(Some(n0)),
        grown_ok(n0.right, rt),
        n0.level + 1 < usize::MAX,
    ensures
        grown_ok(Some(n0), splitted(skewed(with_right(n0, rt)))),
{
    let p = n0.level as int;
    let n = with_right(n0, rt);
    assert(aa(n0.left) && aa(n0.right));
    assert(aa(Some(rt)));
    assert(aa(rt.left) && aa(rt.right));
    assert(skewed(n) == n);
    if rt.level == lv(n0.right) {
        if lv(rt.right) == p {
            let q = Box::new(Node { key: n0.key, val: n0.val, level: n0.level, left: n0.left, right: rt.left });
            let f = Box::new(Node { key: rt.key, val: rt.val, level: (rt.level + 1) as usize, left: Some(q), right: rt.right });
            assert(splitted(n) == f);
            if let Some(rl) = rt.left {
                assert(aa(Some(rl)));
                assert(lv(rl.right) <= rl.level);
            }
            assert(aa(Some(q)));
            let rr = rt.right.unwrap();
            assert(aa(Some(rr)));
            assert(aa(Some(f)));
        } else {
            assert(splitted(n) == n);
            assert(aa(Some(n)));
        }
    } else {
        if let Some(r0) = n0.right {
            assert(lv(r0.right) < p);
        }
        assert(splitted(n) == n);
        assert(aa(Some(n)));
    }
}

proof fn lemma_finite<V>(t: Option<Box<Node<V>>>)
    ensures
        map_of(t).dom().finite(),
    decreases t,
{
    if let Some(n) = t {
        lemma_finite(n.left);
        lemma_finite(n.right);
        let u = map_of(n.left).union_prefer_right(map_of(n.right));
        assert(u.dom() =~= map_of(n.left).dom().union(map_of(n.right).dom()));
        assert(map_of(t).dom() =~= u.dom().insert(n.key));
    }
}

/// A node's map, one level unfolded.
proof fn lemma_node<V>(n: Box<Node<V>>)
    ensures
        map_of(Some(n)) == map_of(n.left).union_prefer_right(map_of(n.right)).insert(n.key, n.val),
        ordered(Some(n)) == (ordered(n.left) && ordered(n.right) && (forall|k: u64|
            #[trigger] map_of(n.left).dom().contains(k) ==> k < n.key) && (forall|k: u64|
            #[trigger] map_of(n.right).dom().contains(k) ==> k > n.key)),
{
}

/// `t` after a skew: when its left child is on its level, that child
/// becomes the root, with `t` as its right child holding the child's right
/// subtree.
spec fn skewed<V>(t: Box<Node<V>>) -> Box<Node<V>> {
    if t.left is Some && t.left.unwrap().level == t.level {
        let l = t.left.unwrap();
        Box::new(
            Node {
                key: l.key,
                val: l.val,
                level: l.level,
                left: l.left,
                right: Some(Box::new(Node { key: t.key, val: t.val, level: t.level, left: l.right, right: t.right })),
            },
        )
    } else {
        t
    }
}

/// `t` after a split: when its right grandchild on the right is on its
/// level, its right child becomes the root one level up, with `t` as its
/// left child holding the child's left subtree.
spec fn splitted<V>(t: Box<Node<V>>) -> Box<Node<V>> {
    if t.right is Some && t.right.unwrap().right is Some && t.right.unwrap().right.unwrap().level == t.level {
        let r = t.right.unwrap();
        Box::new(
            Node {
                key: r.key,
                val: r.val,
                level: (if r.level == usize::MAX {
                    0
                } else {
                    r.level + 1
                }) as usize,
                left: Some(Box::new(Node { key: t.key, val: t.val, level: t.level, left: t.left, right: r.left })),
                right: r.right,
            },
        )
    } else {
        t
    }
}

/// Right rotation replacing a left horizontal link by a right one.
fn skew<V>(t: Box<Node<V>>) -> (r: Box<Node<V>>)
    requires
        ordered(Some(t)),
    ensures
        r == skewed(t),
        ordered(Some(r)),
        map_of(Some(r)) == map_of(Some(t)),
{
    let horizontal = match &t.left {
        Some(l) => l.level == t.level,
        None => false,
    };
    if horizontal {
        let ghost t0 = t;
        let Node { key, val, level, left, right } = *t;
        let l = left.unwrap();
        let ghost l0 = l;
        let Node { key: lkey, val: lval, level: llevel, left: lleft, right: lright } = *l;
        let inner = Box::new(Node { key, val, level, left: lright, right });
        let r = Box::new(Node { key: lkey, val: lval, level: llevel, left: lleft, right: Some(inner) });
        proof {
            let a = map_of(lleft);
            let b = map_of(lright);
            let c = map_of(right);
            lemma_node(t0);
            lemma_node(l0);
            lemma_node(inner);
            lemma_node(r);
            assert(map_of(Some(l0)).dom().contains(lkey));
            assert forall|k: u64| #[trigger] b.dom().contains(k) implies k < key by {
                assert(map_of(Some(l0)).dom().contains(k));
            }
            assert forall|k: u64| #[trigger] map_of(Some(inner)).dom().contains(k) implies k > lkey by {
                if b.dom().contains(k) {
                } else if c.dom().contains(k) {
                } else {
                }
            }
            assert forall|k: u64| #[trigger] a.dom().contains(k) implies k < lkey by {
            }
            assert(map_of(Some(r)) =~= map_of(Some(t0)));
        }
        r
    } else {
        t
    }
}

/// Left rotation raising the middle node, replacing two consecutive right
/// horizontal links.
fn split<V>(t: Box<Node<V>>) -> (r: Box<Node<V>>)
    requires
        ordered(Some(t)),
    ensures
        r == splitted(t),
        ordered(Some(r)),
        map_of(Some(r)) == map_of(Some(t)),
{
    let horizontal = match &t.right {
        Some(r) => match &r.right {
            Some(rr) => rr.level == t.level,
            None => false,
        },
        None => false,
    };
    if horizontal {
        let ghost t0 = t;
        let Node { key, val, level, left, right } = *t;
        let r = right.unwrap();
        let ghost r0 = r;
        let Node { key: rkey, val: rval, level: rlevel, left: rleft, right: rright } = *r;
        let inner = Box::new(Node { key, val, level, left, right: rleft });
        let r = Box::new(Node { key: rkey, val: rval, level: rlevel.wrapping_add(1), left: Some(inner), right: rright });
        proof {
            let a = map_of(left);
            let b = map_of(rleft);
            let c = map_of(rright);
            lemma_node(t0);
            lemma_node(r0);
            lemma_node(inner);
            lemma_node(r);
            assert(map_of(Some(r0)).dom().contains(rkey));
            assert forall|k: u64| #[trigger] b.dom().contains(k) implies k > key by {
                assert(map_of(Some(r0)).dom().contains(k));
            }
            assert forall|k: u64| #[trigger] map_of(Some(inner)).dom().contains(k) implies k < rkey by {
                if a.dom().contains(k) {
                } else if b.dom().contains(k) {
                } else {
                }
            }
            assert(map_of(Some(r)) =~= map_of(Some(t0)));
        }
        r
    } else {
        t
    }
}

fn lookup_in<'a, V>(t: &'a Option<Box<Node<V>>>, key: u64) -> (r: Option<&'a V>)
    requires
        ordered(*t),
    ensures
        r == (if map_of(*t).dom().contains(key) {
            Some(&map_of(*t)[key])
        } else {
            None
        }),
    decreases *t,
{
    match t {
        None => None,
        Some(node) => {
            proof {
                lemma_node(*node);
            }
            if key < node.key {
                lookup_in(&node.left, key)
            } else if key > node.key {
                lookup_in(&node.right, key)
            } else {
                Some(&node.val)
            }
        },
    }
}

fn lookup_in_mut<'a, V>(t: &'a mut Option<Box<Node<V>>>, key: u64) -> (r: Option<&'a mut V>)
    requires
        ordered(*old(t)),
    ensures
        r is Some <==> map_of(*old(t)).dom().contains(key),
        r matches Some(v) ==> *v == map_of(*old(t))[key] && ordered(*final(t)) && map_of(*final(t)) == map_of(
            *old(t),
        ).insert(key, *final(v)),
        r is None ==> *final(t) == *old(t),
        ordered(*final(t)),
        map_of(*final(t)).dom() == map_of(*old(t)).dom(),
    decreases *old(t),
    no_unwind
{
    match t {
        None => None,
        Some(node) => {
            proof {
                lemma_node(*node);
            }
            if key < node.key {
                lookup_in_mut(&mut node.left, key)
            } else if key > node.key {
                lookup_in_mut(&mut node.right, key)
            } else {
                proof {
                    assert(map_of(*old(t)).insert(key, map_of(*old(t))[key]).dom() =~= map_of(*old(t)).dom());
                }
                Some(&mut node.val)
            }
        },
    }
}

fn insert_into<V>(t: Option<Box<Node<V>>>, key: u64, val: V) -> (r: (Box<Node<V>>, Option<V>))
    requires
        ordered(t),
    ensures
        ordered(Some(r.0)),
        map_of(Some(r.0)) == map_of(t).insert(key, val),
        r.1 == (if map_of(t).dom().contains(key) {
            Some(map_of(t)[key])
        } else {
            None
        }),
        aa(t) && lv(t) + 1 < usize::MAX ==> grown_ok(t, r.0),
    decreases t,
{
    match t {
        None => {
            let n = Box::new(Node { key, val, level: 1, left: None, right: None });
            proof {
                lemma_node(n);
                assert(map_of(Some(n)) =~= map_of(t).insert(key, val));
                assert(aa::<V>(None));
                assert(lv::<V>(None) == 0);
                assert(aa(Some(n)));
            }
            (n, None)
        },
        Some(node) => {
            let ghost n0 = node;
            proof {
                lemma_node(n0);
            }
            let Node { key: nkey, val: nval, level, left, right } = *node;
            if key < nkey {
                let (l, r) = insert_into(left, key, val);
                let n = Box::new(Node { key: nkey, val: nval, level, left: Some(l), right });
                proof {
                    lemma_node(n);
                    assert(!map_of(right).dom().contains(key));
                    assert(map_of(Some(n)) =~= map_of(t).insert(key, val));
                    if aa(t) && lv(t) + 1 < usize::MAX {
                        assert(n == with_left(n0, l));
                        lemma_balance_left(n0, l);
                    }
                }
                (split(skew(n)), r)
            } else if key > nkey {
                let (rt, r) = insert_into(right, key, val);
                let n = Box::new(Node { key: nkey, val: nval, level, left, right: Some(rt) });
                proof {
                    lemma_node(n);
                    assert(!map_of(left).dom().contains(key));
                    assert(map_of(Some(n)) =~= map_of(t).insert(key, val));
                    if aa(t) && lv(t) + 1 < usize::MAX {
                        assert(n == with_right(n0, rt));
                        lemma_balance_right(n0, rt);
                    }
                }
                (split(skew(n)), r)
            } else {
                let n = Box::new(Node { key: nkey, val, level, left, right });
                proof {
                    lemma_node(n);
                    assert(map_of(Some(n)) =~= map_of(t).insert(key, val));
                    if aa(t) {
                        assert(t == Some(n0));
                        assert(aa(Some(n0)));
                        assert(n0.left == left && n0.right == right && n0.level == level);
                        assert(aa(left) && aa(right));
                        assert(aa(Some(n)));
                    }
                }
                (n, Some(nval))
            }
        },
    }
}

/// Take the rightmost node out of a subtree; its left child, if any, takes
/// its place.
fn rightmost<V>(t: Box<Node<V>>) -> (r: (Option<Box<Node<V>>>, Box<Node<V>>))
    requires
        ordered(Some(t)),
    ensures
        ordered(r.0),
        map_of(Some(t)).dom().contains(r.1.key),
        map_of(Some(t))[r.1.key] == r.1.val,
        forall|k: u64| #[trigger] map_of(Some(t)).dom().contains(k) ==> k <= r.1.key,
        map_of(r.0) == map_of(Some(t)).remove(r.1.key),
    decreases t,
{
    let ghost t0 = t;
    proof {
        lemma_node(t0);
    }
    let Node { key, val, level, left, right } = *t;
    match right {
        Some(rn) => {
            let (rest, taken) = rightmost(rn);
            let n = Box::new(Node { key, val, level, left, right: rest });
            proof {
                lemma_node(n);
                assert(taken.key > key);
                assert(!map_of(left).dom().contains(taken.key));
                assert forall|k: u64| #[trigger] map_of(Some(t0)).dom().contains(k) implies k <= taken.key by {
                    if map_of(left).dom().contains(k) {
                    }
                }
                assert(map_of(Some(n)) =~= map_of(Some(t0)).remove(taken.key));
            }
            (Some(n), taken)
        },
        None => {
            let taken = Box::new(Node { key, val, level, left: None, right: None });
            proof {
                assert(!map_of(left).dom().contains(key));
                assert(map_of(left) =~= map_of(Some(t0)).remove(key));
            }
            (left, taken)
        },
    }
}

/// Take the leftmost node out of a subtree; its right child, if any, takes
/// its place.
fn leftmost<V>(t: Box<Node<V>>) -> (r: (Option<Box<Node<V>>>, Box<Node<V>>))
    requires
        ordered(Some(t)),
    ensures
        ordered(r.0),
        map_of(Some(t)).dom().contains(r.1.key),
        map_of(Some(t))[r.1.key] == r.1.val,
        forall|k: u64| #[trigger] map_of(Some(t)).dom().contains(k) ==> k >= r.1.key,
        map_of(r.0) == map_of(Some(t)).remove(r.1.key),
    decreases t,
{
    let ghost t0 = t;
    proof {
        lemma_node(t0);
    }
    let Node { key, val, level, left, right } = *t;
    match left {
        Some(ln) => {
            let (rest, taken) = leftmost(ln);
            let n = Box::new(Node { key, val, level, left: rest, right });
            proof {
                lemma_node(n);
                assert(taken.key < key);
                assert(!map_of(right).dom().contains(taken.key));
                assert forall|k: u64| #[trigger] map_of(Some(t0)).dom().contains(k) implies k >= taken.key by {
                    if map_of(right).dom().contains(k) {
                    }
                }
                assert(map_of(Some(n)) =~= map_of(Some(t0)).remove(taken.key));
            }
            (Some(n), taken)
        },
        None => {
            let taken = Box::new(Node { key, val, level, left: None, right: None });
            proof {
                assert(!map_of(right).dom().contains(key));
                assert(map_of(right) =~= map_of(Some(t0)).remove(key));
            }
            (right, taken)
        },
    }
}

/// Take out the node closest to `n`: the rightmost of its left subtree,
/// else the leftmost of its right subtree, else nothing.
fn take_closest<V>(n: Node<V>) -> (r: (Node<V>, Option<Box<Node<V>>>))
    requires
        ordered(Some(Box::new(n))),
    ensures
        r.0.key == n.key,
        r.0.val == n.val,
        r.0.level == n.level,
        r.1 is None <==> (n.left is None && n.right is None),
        r.1 is None ==> r.0.left is None && r.0.right is None,
        ordered(r.0.left),
        ordered(r.0.right),
        r.1 matches Some(c) ==> {
            let ch = map_of(n.left).union_prefer_right(map_of(n.right));
            let rest = map_of(r.0.left).union_prefer_right(map_of(r.0.right));
            &&& ch.dom().contains(c.key)
            &&& ch[c.key] == c.val
            &&& (forall|k: u64| #[trigger] map_of(r.0.left).dom().contains(k) ==> k < c.key)
            &&& (forall|k: u64| #[trigger] map_of(r.0.right).dom().contains(k) ==> k > c.key)
            &&& rest == ch.remove(c.key)
        },
{
    let ghost n0 = Box::new(n);
    proof {
        lemma_node(n0);
    }
    let Node { key, val, level, left, right } = n;
    match left {
        Some(l) => {
            let (rest, c) = rightmost(l);
            let r = Node { key, val, level, left: rest, right };
            proof {
                let ch = map_of(left).union_prefer_right(map_of(right));
                let rm = map_of(r.left).union_prefer_right(map_of(r.right));
                assert(map_of(left).dom().contains(c.key));
                assert(!map_of(right).dom().contains(c.key));
                assert forall|k: u64| #[trigger] map_of(r.right).dom().contains(k) implies k > c.key by {
                    assert(c.key < key);
                }
                assert forall|k: u64| #[trigger] rm.dom().contains(k) implies ch.remove(c.key).dom().contains(k)
                    && rm[k] == ch.remove(c.key)[k] by {
                    if map_of(r.right).dom().contains(k) {
                        assert(k > key);
                        assert(!map_of(left).dom().contains(k));
                    } else {
                        assert(map_of(left).dom().contains(k));
                        assert(!map_of(right).dom().contains(k));
                    }
                }
                assert(rm =~= ch.remove(c.key));
            }
            (r, Some(c))
        },
        None => match right {
            Some(rt) => {
                let (rest, c) = leftmost(rt);
                let r = Node { key, val, level, left: None, right: rest };
                proof {
                    let ch = map_of(left).union_prefer_right(map_of(right));
                    let rm = map_of(r.left).union_prefer_right(map_of(r.right));
                    assert(map_of(left).dom() =~= Set::empty());
                    assert(rm =~= ch.remove(c.key));
                }
                (r, Some(c))
            },
            None => (Node { key, val, level, left: None, right: None }, None),
        },
    }
}

fn level_of<V>(t: &Option<Box<Node<V>>>) -> (r: usize)
    ensures
        r == match *t {
            Some(n) => n.level,
            None => 0,
        },
{
    match t {
        Some(n) => n.level,
        None => 0,
    }
}

/// The level of a subtree's root, 0 for an empty one.
spec fn spec_level<V>(t: Option<Box<Node<V>>>) -> usize {
    match t {
        Some(n) => n.level,
        None => 0,
    }
}

/// `n` with its level, and its right child's, lowered to one more than the
/// lower of its children's levels where they are above it.
spec fn decreased<V>(n: Node<V>) -> Node<V> {
    let m = if spec_level(n.left) < spec_level(n.right) {
        spec_level(n.left)
    } else {
        spec_level(n.right)
    };
    let should_be = (if m == usize::MAX {
        0
    } else {
        m + 1
    }) as usize;
    if should_be < n.level {
        Node {
            key: n.key,
            val: n.val,
            level: should_be,
            left: n.left,
            right: match n.right {
                Some(r) => Some(
                    Box::new(
                        Node {
                            key: r.key,
                            val: r.val,
                            level: if should_be < r.level {
                                should_be
                            } else {
                                r.level
                            },
                            left: r.left,
                            right: r.right,
                        },
                    ),
                ),
                None => None,
            },
        }
    } else {
        n
    }
}

/// Lower the level of `n`, and of its right child, to one more than the
/// lower of its children's levels.
fn decrease_level<V>(n: Node<V>) -> (r: Node<V>)
    ensures
        r == decreased(n),
        r.key == n.key,
        r.val == n.val,
        r.left == n.left,
        map_of(r.right) == map_of(n.right),
        ordered(r.right) == ordered(n.right),
{
    let left_level = level_of(&n.left);
    let right_level = level_of(&n.right);
    let should_be = (if left_level < right_level {
        left_level
    } else {
        right_level
    }).wrapping_add(1);
    let mut n = n;
    if should_be < n.level {
        n.level = should_be;
        if let Some(r) = n.right {
            let mut rn = *r;
            if should_be < rn.level {
                rn.level = should_be;
            }
            let rb = Box::new(rn);
            proof {
                lemma_node(r);
                lemma_node(rb);
            }
            n.right = Some(rb);
        }
    }
    n
}

/// The rebalancing after a deletion: `skew` the node, its right child and
/// right grandchild, then `split` the node and its right child.
fn rebalance<V>(n: Node<V>) -> (r: Box<Node<V>>)
    requires
        ordered(Some(Box::new(n))),
    ensures
        ordered(Some(r)),
        map_of(Some(r)) == map_of(Some(Box::new(n))),
{
    let ghost n0 = Box::new(n);
    let mut n = *skew(Box::new(n));
    let ghost n1 = Box::new(n);
    if let Some(right) = n.right {
        proof {
            lemma_node(n1);
        }
        let mut rn = *skew(right);
        let ghost rn0 = Box::new(rn);
        if let Some(rr) = rn.right {
            proof {
                lemma_node(rn0);
            }
            let rr2 = skew(rr);
            rn.right = Some(rr2);
            proof {
                lemma_node(Box::new(rn));
            }
        }
        let rb = Box::new(rn);
        n.right = Some(rb);
        proof {
            lemma_node(Box::new(n));
        }
    }
    let mut n = *split(Box::new(n));
    let ghost n2 = Box::new(n);
    if let Some(right) = n.right {
        proof {
            lemma_node(n2);
        }
        n.right = Some(split(right));
        proof {
            lemma_node(Box::new(n));
        }
    }
    Box::new(n)
}

fn delete_from<V>(t: Option<Box<Node<V>>>, key: u64) -> (r: (Option<Box<Node<V>>>, Option<V>))
    requires
        ordered(t),
    ensures
        ordered(r.0),
        r.1 == (if map_of(t).dom().contains(key) {
            Some(map_of(t)[key])
        } else {
            None
        }),
        map_of(r.0) == map_of(t).remove(key),
    decreases t,
{
    match t {
        None => {
            assert(map_of::<V>(None) =~= map_of(t).remove(key));
            (None, None)
        },
        Some(node) => {
            let ghost n0 = node;
            proof {
                lemma_node(n0);
            }
            let mut n = *node;
            let r;
            if key < n.key {
                let (l, found) = delete_from(n.left, key);
                n.left = l;
                r = found;
                proof {
                    let nb = Box::new(n);
                    lemma_node(nb);
                    assert(!map_of(n.right).dom().contains(key));
                    assert forall|k: u64| #[trigger] map_of(Some(nb)).dom().contains(k) implies map_of(t).remove(key).dom().contains(k)
                        && map_of(Some(nb))[k] == map_of(t).remove(key)[k] by {
                        if map_of(n.left).dom().contains(k) {
                            assert(k < n.key);
                        }
                    }
                    assert(map_of(Some(nb)) =~= map_of(t).remove(key));
                }
            } else if key > n.key {
                let (rt, found) = delete_from(n.right, key);
                n.right = rt;
                r = found;
                proof {
                    let nb = Box::new(n);
                    lemma_node(nb);
                    assert(!map_of(n.left).dom().contains(key));
                    assert forall|k: u64| #[trigger] map_of(Some(nb)).dom().contains(k) implies map_of(t).remove(key).dom().contains(k)
                        && map_of(Some(nb))[k] == map_of(t).remove(key)[k] by {
                        if map_of(n.right).dom().contains(k) {
                            assert(k > n.key);
                            assert(!map_of(n.left).dom().contains(k));
                        }
                    }
                    assert(map_of(Some(nb)) =~= map_of(t).remove(key));
                }
            } else {
                assert(n0 == Box::new(n));
                let (rest, closest) = take_closest(n);
                match closest {
                    Some(c) => {
                        let Node { key: _, val, level, left, right } = rest;
                        n = Node { key: c.key, val: c.val, level, left, right };
                        r = Some(val);
                        proof {
                            let nb = Box::new(n);
                            lemma_node(nb);
                            let ch = map_of(n0.left).union_prefer_right(map_of(n0.right));
                            assert(map_of(t).remove(key) =~= ch);
                            assert forall|k: u64| #[trigger] map_of(Some(nb)).dom().contains(k) implies ch.dom().contains(k)
                                && map_of(Some(nb))[k] == ch[k] by {
                                if k != c.key {
                                    assert(map_of(left).union_prefer_right(map_of(right)).dom().contains(k));
                                }
                            }
                            assert(map_of(Some(nb)) =~= ch);
                        }
                    },
                    None => {
                        proof {
                            assert(map_of::<V>(None) =~= map_of(t).remove(key));
                        }
                        return (None, Some(rest.val));
                    },
                }
            }
            let ghost before = Box::new(n);
            let n = decrease_level(n);
            proof {
                lemma_node(before);
                lemma_node(Box::new(n));
            }
            (Some(rebalance(n)), r)
        },
    }
}

/// A map from `u64` keys to values.
pub struct TreeMap<V> {
    root: Option<Box<Node<V>>>,
    len: usize,
}

impl<V> TreeMap<V> {
    #[verifier::type_invariant]
    spec fn inv(self) -> bool {
        &&& ordered(self.root)
        &&& self.len == map_of(self.root).dom().len()
    }

    pub closed spec fn view(&self) -> Map<u64, V> {
        map_of(self.root)
    }

    pub closed spec fn spec_len(&self) -> usize {
        self.len
    }

    /// The tree keeps the AA-tree balance rules. A new map does, and an
    /// insertion keeps them. A deletion need not: the node that takes the
    /// deleted key's place is taken out without rebalancing the nodes above
    /// it.
    pub closed spec fn balanced(&self) -> bool {
        aa(self.root)
    }

    /// Create a new empty `TreeMap`.
    pub fn new() -> (r: TreeMap<V>)
        ensures
            r.view() == Map::<u64, V>::empty(),
            r.spec_len() == 0,
            r.balanced(),
    {
        proof {
            assert(map_of::<V>(None).dom() =~= Set::empty());
        }
        TreeMap { root: None, len: 0 }
    }

    /// The number of keys in the map.
    pub fn len(&self) -> (r: usize)
        ensures
            r == self.spec_len(),
            r == self.view().dom().len(),
            self.view().dom().finite(),
    {
        proof {
            use_type_invariant(self);
            lemma_finite(self.root);
        }
        self.len
    }

    /// The value of `key`, if present.
    pub fn lookup(&self, key: &u64) -> (r: Option<&V>)
        ensures
            r == (if self.view().dom().contains(*key) {
                Some(&self.view()[*key])
            } else {
                None
            }),
    {
        proof {
            use_type_invariant(self);
        }
        lookup_in(&self.root, *key)
    }

    /// A mutable reference to the value of `key`, if present.
    pub fn lookup_mut(&mut self, key: &u64) -> (r: Option<&mut V>)
        ensures
            r is Some <==> old(self).view().dom().contains(*key),
            r matches Some(v) ==> *v == old(self).view()[*key] && final(self).view() == old(self).view().insert(
                *key,
                *final(v),
            ),
            r is None ==> final(self).view() == old(self).view(),
            final(self).spec_len() == old(self).spec_len(),
    {
        proof {
            use_type_invariant(&*self);
        }
        lookup_in_mut(&mut self.root, *key)
    }

    /// Insert a key and value, replacing and returning the value that the
    /// key had, if any.
    pub fn insert(&mut self, key: u64, val: V) -> (r: Option<V>)
        requires
            old(self).view().dom().contains(key) || old(self).spec_len() < usize::MAX,
        ensures
            final(self).view() == old(self).view().insert(key, val),
            r == (if old(self).view().dom().contains(key) {
                Some(old(self).view()[key])
            } else {
                None
            }),
            final(self).spec_len() == old(self).spec_len() + if r is None {
                1int
            } else {
                0int
            },
            old(self).balanced() ==> final(self).balanced(),
    {
        proof {
            use_type_invariant(&*self);
            lemma_finite(self.root);
            if aa(self.root) {
                lemma_level_bound(self.root);
            }
        }
        let mut whole = TreeMap { root: None, len: 0 };
        proof {
            assert(map_of::<V>(None).dom() =~= Set::empty());
        }
        core::mem::swap(&mut whole, self);
        let TreeMap { root, len } = whole;
        let (new_root, r) = insert_into(root, key, val);
        let len = if r.is_none() {
            len + 1
        } else {
            len
        };
        proof {
            assert(map_of(Some(new_root)).dom() =~= map_of(root).dom().insert(key));
        }
        *self = TreeMap { root: Some(new_root), len };
        r
    }

    /// Delete a key, returning its value if it was present; every other
    /// entry stays.
    pub fn delete(&mut self, key: &u64) -> (r: Option<V>)
        ensures
            r == (if old(self).view().dom().contains(*key) {
                Some(old(self).view()[*key])
            } else {
                None
            }),
            final(self).view() == old(self).view().remove(*key),
            final(self).spec_len() == old(self).spec_len() - if r is Some {
                1int
            } else {
                0int
            },
    {
        proof {
            use_type_invariant(&*self);
            lemma_finite(self.root);
        }
        let mut whole = TreeMap { root: None, len: 0 };
        proof {
            assert(map_of::<V>(None).dom() =~= Set::empty());
        }
        core::mem::swap(&mut whole, self);
        let TreeMap { root, len } = whole;
        let (new_root, r) = delete_from(root, *key);
        proof {
            assert(map_of(new_root).dom() =~= map_of(root).dom().remove(*key));
        }
        let len = if r.is_some() {
            len - 1
        } else {
            len
        };
        *self = TreeMap { root: new_root, len };
        r
    }
}

/// Deleting a key that an insert added gives back the map from before the
/// insert: over the views that `insert` and `delete` state their effect in.
pub proof fn law_delete_undoes_insert<V>(before: Map<u64, V>, key: u64, val: V)
    requires
        !before.dom().contains(key),
    ensures
        before.insert(key, val).remove(key) == before,
{
    assert(before.insert(key, val).remove(key) =~= before);
}

/// The map that an ordinary map holds after the calls `ops`, made on an
/// empty one: `(k, Some(v))` inserts `v` at `k`, `(k, None)` deletes `k`.
pub open spec fn replayed<V>(ops: Seq<(u64, Option<V>)>) -> Map<u64, V>
    decreases ops.len(),
{
    if ops.len() == 0 {
        Map::empty()
    } else {
        let m = replayed(ops.drop_last());
        match ops.last().1 {
            Some(v) => m.insert(ops.last().0, v),
            None => m.remove(ops.last().0),
        }
    }
}

/// What `insert` (for `(k, Some(v))`) or `delete` (for `(k, None)`) states
/// of the tree `after` it made from `before`.
pub open spec fn tree_step<V>(before: TreeMap<V>, op: (u64, Option<V>), after: TreeMap<V>) -> bool {
    let present = before.view().dom().contains(op.0);
    match op.1 {
        Some(v) => {
            &&& after.view() == before.view().insert(op.0, v)
            &&& after.spec_len() == before.spec_len() + if present { 0int } else { 1int }
        },
        None => {
            &&& after.view() == before.view().remove(op.0)
            &&& after.spec_len() == before.spec_len() - if present { 1int } else { 0int }
        },
    }
}

/// A tree built from a new map by any sequence of insertions and deletions
/// holds what an ordinary map given the same calls holds, whatever shape
/// the tree took: its entries, so what `lookup` gives for each key, are that
/// map's, and its length is that map's size.
pub proof fn law_tree_refines_map<V>(trees: Seq<TreeMap<V>>, ops: Seq<(u64, Option<V>)>)
    requires
        trees.len() == ops.len() + 1,
        trees[0].view() == Map::<u64, V>::empty(),
        trees[0].spec_len() == 0,
        forall|i: int| 0 <= i < ops.len() ==> #[trigger] tree_step(trees[i], ops[i], trees[i + 1]),
    ensures
        trees.last().view() == replayed(ops),
        replayed(ops).dom().finite(),
        trees.last().spec_len() == replayed(ops).dom().len(),
    decreases ops.len(),
{
    if ops.len() == 0 {
        assert(Map::<u64, V>::empty().dom() =~= Set::<u64>::empty());
    } else {
        let n = ops.len() - 1;
        let t2 = trees.drop_last();
        let o2 = ops.drop_last();
        assert forall|i: int| 0 <= i < o2.len() implies #[trigger] tree_step(t2[i], o2[i], t2[i + 1]) by {
            assert(tree_step(trees[i], ops[i], trees[i + 1]));
        }
        law_tree_refines_map(t2, o2);
        let m = replayed(o2);
        assert(tree_step(trees[n], ops[n], trees[n + 1]));
        assert(trees[n] == t2.last());
        match ops[n].1 {
            Some(v) => {
                assert(m.insert(ops[n].0, v).dom() =~= m.dom().insert(ops[n].0));
            },
            None => {
                assert(m.remove(ops[n].0).dom() =~= m.dom().remove(ops[n].0));
            },
        }
    }
}

} // verus!
