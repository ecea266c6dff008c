//! The in-memory ordered table: a height-balanced binary search tree with a
//! bounded entry count. Its model is the in-order pair sequence, which has
//! strictly ascending keys; rotations leave that sequence untouched.
use vstd::prelude::*;

verus! {

use crate::TOMBSTONE;
use crate::pairs::{
    all_keys_gt, all_keys_lt, filter_range, lemma_bounded_not_contains, lemma_seq_map_concat,
    lemma_seq_map_contains, lemma_seq_map_index, lemma_seq_map_singleton, lemma_sorted_join,
    lemma_sorted_split, lemma_valid_stream_insert, lookup, seq_map, sorted_unique, valid_stream,
};

/// One tree node. The stored height is one more than the taller child's.
pub struct Node {
    pub key: i64,
    pub value: i64,
    pub height: usize,
    pub left: Option<Box<Node>>,
    pub right: Option<Box<Node>>,
}

/// The in-order pair sequence of a node.
pub open spec fn node_seq(n: Node) -> Seq<(i64, i64)>
    decreases n,
{
    tree_seq(n.left) + seq![(n.key, n.value)] + tree_seq(n.right)
}

/// The in-order pair sequence of a subtree.
pub open spec fn tree_seq(t: Option<Box<Node>>) -> Seq<(i64, i64)>
    decreases t,
{
    match t {
        None => Seq::empty(),
        Some(n) => node_seq(*n),
    }
}

/// The stored height of a subtree; an empty subtree has height zero.
pub open spec fn spec_height(t: Option<Box<Node>>) -> nat {
    match t {
        None => 0,
        Some(n) => n.height as nat,
    }
}

/// Every stored height equals one plus the taller child's height.
pub open spec fn heights_ok(t: Option<Box<Node>>) -> bool
    decreases t,
{
    match t {
        None => true,
        Some(n) => {
            &&& heights_ok(n.left)
            &&& heights_ok(n.right)
            &&& n.height as nat == 1 + if spec_height(n.left) >= spec_height(n.right) {
                spec_height(n.left)
            } else {
                spec_height(n.right)
            }
        },
    }
}

/// A correct height never exceeds the number of entries.
pub proof fn lemma_height_le_len(t: Option<Box<Node>>)
    requires
        heights_ok(t),
    ensures
        spec_height(t) <= tree_seq(t).len(),
    decreases t,
{
    match t {
        None => {},
        Some(n) => {
            lemma_height_le_len(n.left);
            lemma_height_le_len(n.right);
        },
    }
}

/// Replacing the pivot's value rewrites exactly that key in the map.
proof fn lemma_replace_mid(a: Seq<(i64, i64)>, p: (i64, i64), c: Seq<(i64, i64)>, v2: i64)
    requires
        sorted_unique(a + seq![p] + c),
    ensures
        sorted_unique(a + seq![(p.0, v2)] + c),
        seq_map(a + seq![(p.0, v2)] + c) == seq_map(a + seq![p] + c).insert(p.0, v2),
        (a + seq![(p.0, v2)] + c).len() == (a + seq![p] + c).len(),
{
    lemma_sorted_split(a, p, c);
    lemma_sorted_join(a, (p.0, v2), c);
    lemma_seq_map_concat(a + seq![p], c);
    lemma_seq_map_concat(a, seq![p]);
    lemma_seq_map_concat(a + seq![(p.0, v2)], c);
    lemma_seq_map_concat(a, seq![(p.0, v2)]);
    lemma_seq_map_singleton(p);
    lemma_seq_map_singleton((p.0, v2));
    lemma_bounded_not_contains(c, p.0);
    assert(seq_map(a + seq![(p.0, v2)] + c) =~= seq_map(a + seq![p] + c).insert(p.0, v2));
}

/// Swapping the left part for one whose map gained `(k, v)`, `k` below the
/// pivot, inserts `(k, v)` into the whole map.
proof fn lemma_update_left(
    a: Seq<(i64, i64)>,
    p: (i64, i64),
    c: Seq<(i64, i64)>,
    k: i64,
    v: i64,
    a2: Seq<(i64, i64)>,
)
    requires
        sorted_unique(a + seq![p] + c),
        k < p.0,
        sorted_unique(a2),
        seq_map(a2) == seq_map(a).insert(k, v),
    ensures
        sorted_unique(a2 + seq![p] + c),
        seq_map(a2 + seq![p] + c) == seq_map(a + seq![p] + c).insert(k, v),
        seq_map(a + seq![p] + c).contains_key(k) == seq_map(a).contains_key(k),
{
    lemma_sorted_split(a, p, c);
    assert forall|i: int| 0 <= i < a2.len() implies (#[trigger] a2[i]).0 < p.0 by {
        lemma_seq_map_contains(a2, a2[i].0);
        if a2[i].0 != k {
            lemma_seq_map_contains(a, a2[i].0);
            let j = choose|j: int| 0 <= j < a.len() && (#[trigger] a[j]).0 == a2[i].0;
        }
    }
    lemma_sorted_join(a2, p, c);
    lemma_seq_map_concat(a + seq![p], c);
    lemma_seq_map_concat(a, seq![p]);
    lemma_seq_map_concat(a2 + seq![p], c);
    lemma_seq_map_concat(a2, seq![p]);
    lemma_seq_map_singleton(p);
    assert(all_keys_gt(c, k));
    lemma_bounded_not_contains(c, k);
    assert(seq_map(a2 + seq![p] + c) =~= seq_map(a + seq![p] + c).insert(k, v));
}

/// The mirror image: a new right part with `k` above the pivot.
proof fn lemma_update_right(
    a: Seq<(i64, i64)>,
    p: (i64, i64),
    c: Seq<(i64, i64)>,
    k: i64,
    v: i64,
    c2: Seq<(i64, i64)>,
)
    requires
        sorted_unique(a + seq![p] + c),
        k > p.0,
        sorted_unique(c2),
        seq_map(c2) == seq_map(c).insert(k, v),
    ensures
        sorted_unique(a + seq![p] + c2),
        seq_map(a + seq![p] + c2) == seq_map(a + seq![p] + c).insert(k, v),
        seq_map(a + seq![p] + c).contains_key(k) == seq_map(c).contains_key(k),
{
    lemma_sorted_split(a, p, c);
    assert forall|i: int| 0 <= i < c2.len() implies (#[trigger] c2[i]).0 > p.0 by {
        lemma_seq_map_contains(c2, c2[i].0);
        if c2[i].0 != k {
            lemma_seq_map_contains(c, c2[i].0);
            let j = choose|j: int| 0 <= j < c.len() && (#[trigger] c[j]).0 == c2[i].0;
        }
    }
    lemma_sorted_join(a, p, c2);
    lemma_seq_map_concat(a + seq![p], c);
    lemma_seq_map_concat(a, seq![p]);
    lemma_seq_map_concat(a + seq![p], c2);
    lemma_seq_map_singleton(p);
    assert(all_keys_lt(a, k));
    lemma_bounded_not_contains(a, k);
    assert(seq_map(a + seq![p] + c2) =~= seq_map(a + seq![p] + c).insert(k, v));
}

impl Node {
    /// A leaf holding one pair.
    pub fn new(key: i64, value: i64) -> (r: Box<Node>)
        ensures
            tree_seq(Some(r)) == seq![(key, value)],
            heights_ok(Some(r)),
    {
        let n = Box::new(Node { key, value, height: 1, left: None, right: None });
        proof {
            assert(tree_seq(n.left) == Seq::<(i64, i64)>::empty());
            assert(tree_seq(n.right) == Seq::<(i64, i64)>::empty());
            assert(node_seq(*n) =~= seq![(key, value)]);
            assert(tree_seq(Some(n)) == node_seq(*n));
            assert(heights_ok(n.left) && heights_ok(n.right));
            assert(spec_height(n.left) == 0 && spec_height(n.right) == 0);
        }
        n
    }

    /// The in-order pairs of this subtree, consuming it.
    pub fn into_iter(self) -> (r: Vec<(i64, i64)>)
        requires
            sorted_unique(node_seq(self)),
        ensures
            r@ == node_seq(self),
    {
        let ghost sq = node_seq(self);
        let mut out: Vec<(i64, i64)> = Vec::new();
        let t = Some(Box::new(self));
        node_scan(&t, i64::MIN, i64::MAX, &mut out);
        proof {
            lemma_filter_range_all(sq);
            assert(out@ =~= sq);
        }
        out
    }

    /// Insert `(key, value)` into an owned subtree, overwriting an equal key.
    pub fn insert(node: Option<Box<Node>>, key: i64, value: i64) -> (r: Box<Node>)
        requires
            sorted_unique(tree_seq(node)),
            heights_ok(node),
            tree_seq(node).len() < usize::MAX,
        ensures
            sorted_unique(tree_seq(Some(r))),
            heights_ok(Some(r)),
            seq_map(tree_seq(Some(r))) == seq_map(tree_seq(node)).insert(key, value),
            tree_seq(Some(r)).len() == tree_seq(node).len() + (
            if seq_map(tree_seq(node)).contains_key(key) {
                0int
            } else {
                1int
            }),
    {
        let (r, _) = node_insert(node, key, value);
        r
    }
}

/// The full height of one plus the taller child, computed without overflow.
fn fix_height(n: &mut Box<Node>)
    requires
        heights_ok(old(n).left),
        heights_ok(old(n).right),
        node_seq(**old(n)).len() <= usize::MAX,
    ensures
        final(n).key == old(n).key,
        final(n).value == old(n).value,
        final(n).left == old(n).left,
        final(n).right == old(n).right,
        node_seq(**final(n)) == node_seq(**old(n)),
        heights_ok(Some(*final(n))),
{
    proof {
        lemma_height_le_len(n.left);
        lemma_height_le_len(n.right);
    }
    let lh = match &n.left {
        None => 0,
        Some(x) => x.height,
    };
    let rh = match &n.right {
        None => 0,
        Some(x) => x.height,
    };
    let h = 1 + if lh >= rh {
        lh
    } else {
        rh
    };
    n.height = h;
}

/// Rotate the right child up; the in-order sequence is unchanged.
fn rotate_left(n: Box<Node>) -> (r: Box<Node>)
    requires
        n.right is Some,
        heights_ok(n.left),
        heights_ok(n.right.unwrap().left),
        heights_ok(n.right.unwrap().right),
        node_seq(*n).len() <= usize::MAX,
    ensures
        node_seq(*r) == node_seq(*n),
        heights_ok(Some(r)),
{
    let ghost orig = node_seq(*n);
    let ghost gr = *n.right.unwrap();
    proof {
        assert(orig == tree_seq(n.left) + seq![(n.key, n.value)] + tree_seq(n.right));
        assert(tree_seq(n.right) == node_seq(gr));
        assert(node_seq(gr) == tree_seq(gr.left) + seq![(gr.key, gr.value)] + tree_seq(gr.right));
    }
    let Node { key, value, height, left, right } = *n;
    let rbox = right.unwrap();
    let Node { key: rk, value: rv, height: rh, left: rl, right: rr } = *rbox;
    let mut newleft = Box::new(Node { key, value, height, left, right: rl });
    proof {
        assert(node_seq(*newleft) == tree_seq(left) + seq![(key, value)] + tree_seq(rl));
        assert(orig =~= node_seq(*newleft) + seq![(rk, rv)] + tree_seq(rr));
    }
    fix_height(&mut newleft);
    let mut top = Box::new(Node { key: rk, value: rv, height: rh, left: Some(newleft), right: rr });
    proof {
        assert(node_seq(*top) == tree_seq(Some(newleft)) + seq![(rk, rv)] + tree_seq(rr));
        assert(tree_seq(Some(newleft)) == node_seq(*newleft));
        assert(node_seq(*top) =~= orig);
    }
    fix_height(&mut top);
    top
}

/// Rotate the left child up; the in-order sequence is unchanged.
fn rotate_right(n: Box<Node>) -> (r: Box<Node>)
    requires
        n.left is Some,
        heights_ok(n.right),
        heights_ok(n.left.unwrap().left),
        heights_ok(n.left.unwrap().right),
        node_seq(*n).len() <= usize::MAX,
    ensures
        node_seq(*r) == node_seq(*n),
        heights_ok(Some(r)),
{
    let ghost orig = node_seq(*n);
    let ghost gl = *n.left.unwrap();
    proof {
        assert(orig == tree_seq(n.left) + seq![(n.key, n.value)] + tree_seq(n.right));
        assert(tree_seq(n.left) == node_seq(gl));
        assert(node_seq(gl) == tree_seq(gl.left) + seq![(gl.key, gl.value)] + tree_seq(gl.right));
    }
    let Node { key, value, height, left, right } = *n;
    let lbox = left.unwrap();
    let Node { key: lk, value: lv, height: lh, left: ll, right: lr } = *lbox;
    let mut newright = Box::new(Node { key, value, height, left: lr, right });
    proof {
        assert(node_seq(*newright) == tree_seq(lr) + seq![(key, value)] + tree_seq(right));
        assert(orig =~= tree_seq(ll) + seq![(lk, lv)] + node_seq(*newright));
    }
    fix_height(&mut newright);
    let mut top = Box::new(Node { key: lk, value: lv, height: lh, left: ll, right: Some(newright) });
    proof {
        assert(node_seq(*top) == tree_seq(ll) + seq![(lk, lv)] + tree_seq(Some(newright)));
        assert(tree_seq(Some(newright)) == node_seq(*newright));
        assert(node_seq(*top) =~= orig);
    }
    fix_height(&mut top);
    top
}

/// Restore the height field and, if one side is two taller, rotate.
fn balance(n: Box<Node>) -> (r: Box<Node>)
    requires
        heights_ok(n.left),
        heights_ok(n.right),
        node_seq(*n).len() <= usize::MAX,
    ensures
        node_seq(*r) == node_seq(*n),
        heights_ok(Some(r)),
{
    let mut n = n;
    proof {
        lemma_height_le_len(n.left);
        lemma_height_le_len(n.right);
    }
    fix_height(&mut n);
    let lh = match &n.left {
        None => 0,
        Some(x) => x.height,
    };
    let rh = match &n.right {
        None => 0,
        Some(x) => x.height,
    };
    let ghost orig = node_seq(*n);
    let ghost ga = tree_seq(n.left);
    let ghost gc = tree_seq(n.right);
    if rh > 1 && rh - 1 > lh {
        // right-heavy; make the right child right-leaning first
        proof {
            assert(n.right is Some);
            assert(tree_seq(n.right) == node_seq(*n.right.unwrap()));
        }
        let Node { key, value, height, left, right } = *n;
        let rbox = right.unwrap();
        let ghost grseq = node_seq(*rbox);
        proof {
            assert(orig == ga + seq![(key, value)] + grseq);
        }
        let rbox = {
            let inner_lh = match &rbox.left {
                None => 0,
                Some(x) => x.height,
            };
            let inner_rh = match &rbox.right {
                None => 0,
                Some(x) => x.height,
            };
            if inner_rh < inner_lh {
                proof {
                    assert(rbox.left is Some);
                    assert(heights_ok(rbox.left) && heights_ok(rbox.right));
                    assert(heights_ok(rbox.left.unwrap().left));
                    assert(heights_ok(rbox.left.unwrap().right));
                    assert(grseq.len() <= orig.len());
                }
                rotate_right(rbox)
            } else {
                rbox
            }
        };
        let n2 = Box::new(Node { key, value, height, left, right: Some(rbox) });
        proof {
            assert(node_seq(*n2) == tree_seq(left) + seq![(key, value)] + node_seq(*rbox));
            assert(node_seq(*n2) =~= orig);
            assert(n2.right is Some);
            assert(heights_ok(n2.right.unwrap().left));
            assert(heights_ok(n2.right.unwrap().right));
        }
        rotate_left(n2)
    } else if lh > 1 && lh - 1 > rh {
        proof {
            assert(n.left is Some);
            assert(tree_seq(n.left) == node_seq(*n.left.unwrap()));
        }
        let Node { key, value, height, left, right } = *n;
        let lbox = left.unwrap();
        let ghost glseq = node_seq(*lbox);
        proof {
            assert(orig == glseq + seq![(key, value)] + gc);
        }
        let lbox = {
            let inner_lh = match &lbox.left {
                None => 0,
                Some(x) => x.height,
            };
            let inner_rh = match &lbox.right {
                None => 0,
                Some(x) => x.height,
            };
            if inner_lh < inner_rh {
                proof {
                    assert(lbox.right is Some);
                    assert(heights_ok(lbox.left) && heights_ok(lbox.right));
                    assert(heights_ok(lbox.right.unwrap().left));
                    assert(heights_ok(lbox.right.unwrap().right));
                    assert(glseq.len() <= orig.len());
                }
                rotate_left(lbox)
            } else {
                lbox
            }
        };
        let n2 = Box::new(Node { key, value, height, left: Some(lbox), right });
        proof {
            assert(node_seq(*n2) == node_seq(*lbox) + seq![(key, value)] + tree_seq(right));
            assert(node_seq(*n2) =~= orig);
            assert(n2.left is Some);
            assert(heights_ok(n2.left.unwrap().left));
            assert(heights_ok(n2.left.unwrap().right));
        }
        rotate_right(n2)
    } else {
        n
    }
}

/// Insert into an owned subtree; the flag reports whether the key existed.
fn node_insert(t: Option<Box<Node>>, key: i64, value: i64) -> (res: (Box<Node>, bool))
    requires
        sorted_unique(tree_seq(t)),
        heights_ok(t),
        tree_seq(t).len() < usize::MAX,
    ensures
        sorted_unique(tree_seq(Some(res.0))),
        heights_ok(Some(res.0)),
        seq_map(tree_seq(Some(res.0))) == seq_map(tree_seq(t)).insert(key, value),
        res.1 == seq_map(tree_seq(t)).contains_key(key),
        tree_seq(Some(res.0)).len() == tree_seq(t).len() + (if res.1 {
            0int
        } else {
            1int
        }),
    decreases tree_seq(t).len(),
{
    match t {
        None => {
            proof {
                assert(seq![(key, value)].drop_last() =~= Seq::<(i64, i64)>::empty());
                lemma_seq_map_contains(Seq::empty(), key);
            }
            (Node::new(key, value), false)
        },
        Some(n) => {
            let ghost s = node_seq(*n);
            let ghost a = tree_seq(n.left);
            let ghost p = (n.key, n.value);
            let ghost c = tree_seq(n.right);
            proof {
                lemma_sorted_split(a, p, c);
            }
            let Node { key: nk, value: nv, height: nh, left: nl, right: nr } = *n;
            if key == nk {
                proof {
                    lemma_replace_mid(a, p, c, value);
                    lemma_seq_map_contains(s, key);
                    assert(s[a.len() as int].0 == key);
                }
                let r = Box::new(Node { key: nk, value, height: nh, left: nl, right: nr });
                proof {
                    assert(node_seq(*r) =~= a + seq![(p.0, value)] + c);
                }
                (r, true)
            } else if key < nk {
                proof {
                    assert(a.len() < s.len());
                }
                let (nl2, existed) = node_insert(nl, key, value);
                let ghost a2 = tree_seq(Some(nl2));
                proof {
                    lemma_update_left(a, p, c, key, value, a2);
                }
                let n2 = Box::new(
                    Node { key: nk, value: nv, height: nh, left: Some(nl2), right: nr },
                );
                proof {
                    assert(node_seq(*n2) =~= a2 + seq![p] + c);
                    assert(node_seq(*n2).len() == s.len() + (if existed {
                        0int
                    } else {
                        1int
                    })) by {
                        assert(node_seq(*n2).len() == a2.len() + 1 + c.len());
                        assert(s.len() == a.len() + 1 + c.len());
                    }
                }
                let r = balance(n2);
                (r, existed)
            } else {
                proof {
                    assert(c.len() < s.len());
                    assert(forall|i: int| 0 <= i < c.len() ==> c[i] == s[a.len() + 1 + i]);
                }
                let (nr2, existed) = node_insert(nr, key, value);
                let ghost c2 = tree_seq(Some(nr2));
                proof {
                    lemma_update_right(a, p, c, key, value, c2);
                }
                let n2 = Box::new(
                    Node { key: nk, value: nv, height: nh, left: nl, right: Some(nr2) },
                );
                proof {
                    assert(node_seq(*n2) =~= a + seq![p] + c2);
                    assert(node_seq(*n2).len() == s.len() + (if existed {
                        0int
                    } else {
                        1int
                    })) by {
                        assert(node_seq(*n2).len() == a.len() + 1 + c2.len());
                        assert(s.len() == a.len() + 1 + c.len());
                    }
                }
                let r = balance(n2);
                (r, existed)
            }
        },
    }
}

/// Point lookup.
fn node_get(t: &Option<Box<Node>>, key: i64) -> (r: Option<i64>)
    requires
        sorted_unique(tree_seq(*t)),
    ensures
        r == lookup(tree_seq(*t), key),
    decreases tree_seq(*t).len(),
{
    match t {
        None => {
            proof {
                lemma_seq_map_contains(Seq::empty(), key);
            }
            None
        },
        Some(n) => {
            let ghost s = node_seq(**n);
            let ghost a = tree_seq(n.left);
            let ghost p = ((n.key, n.value));
            let ghost c = tree_seq(n.right);
            proof {
                lemma_sorted_split(a, p, c);
                lemma_seq_map_concat(a + seq![p], c);
                lemma_seq_map_concat(a, seq![p]);
                lemma_seq_map_singleton(p);
            }
            if key == n.key {
                proof {
                    lemma_bounded_not_contains(c, key);
                }
                Some(n.value)
            } else if key < n.key {
                proof {
                    assert(a.len() < s.len());
                    assert(all_keys_gt(c, key));
                    lemma_bounded_not_contains(c, key);
                }
                node_get(&n.left, key)
            } else {
                proof {
                    assert(forall|i: int| 0 <= i < c.len() ==> c[i] == s[a.len() + 1 + i]);
                    assert(all_keys_lt(a, key));
                    lemma_bounded_not_contains(a, key);
                }
                node_get(&n.right, key)
            }
        },
    }
}

/// The pairs with keys in `[lo, hi]` pass the range test.
pub open spec fn range_pred(lo: i64, hi: i64) -> spec_fn((i64, i64)) -> bool {
    |q: (i64, i64)| lo <= q.0 && q.0 <= hi
}

/// With the full key domain as bounds, the range filter keeps everything.
pub proof fn lemma_filter_range_all(s: Seq<(i64, i64)>)
    ensures
        filter_range(s, i64::MIN, i64::MAX) == s,
    decreases s.len(),
{
    reveal_with_fuel(Seq::filter, 1);
    if s.len() > 0 {
        lemma_filter_range_all(s.drop_last());
        assert(filter_range(s, i64::MIN, i64::MAX) =~= s);
    } else {
        assert(filter_range(s, i64::MIN, i64::MAX) =~= s);
    }
}

/// A sequence with no key in range filters to nothing.
proof fn lemma_filter_range_none(s: Seq<(i64, i64)>, lo: i64, hi: i64)
    requires
        forall|i: int| 0 <= i < s.len() ==> !((lo <= (#[trigger] s[i]).0) && s[i].0 <= hi),
    ensures
        filter_range(s, lo, hi) == Seq::<(i64, i64)>::empty(),
    decreases s.len(),
{
    reveal_with_fuel(Seq::filter, 1);
    if s.len() > 0 {
        lemma_filter_range_none(s.drop_last(), lo, hi);
        assert(filter_range(s, lo, hi) =~= Seq::<(i64, i64)>::empty());
    } else {
        assert(filter_range(s, lo, hi) =~= Seq::<(i64, i64)>::empty());
    }
}

/// In-order range scan, appending matches to `out`.
fn node_scan(t: &Option<Box<Node>>, lo: i64, hi: i64, out: &mut Vec<(i64, i64)>)
    requires
        sorted_unique(tree_seq(*t)),
    ensures
        final(out)@ == old(out)@ + filter_range(tree_seq(*t), lo, hi),
    decreases tree_seq(*t).len(),
{
    let ghost pred = range_pred(lo, hi);
    match t {
        None => {
            proof {
                reveal_with_fuel(Seq::filter, 1);
                assert(out@ =~= out@ + filter_range(tree_seq(*t), lo, hi));
            }
        },
        Some(n) => {
            let ghost s = node_seq(**n);
            let ghost a = tree_seq(n.left);
            let ghost p = ((n.key, n.value));
            let ghost c = tree_seq(n.right);
            proof {
                lemma_sorted_split(a, p, c);
                Seq::filter_distributes_over_add(a + seq![p], c, pred);
                Seq::filter_distributes_over_add(a, seq![p], pred);
                reveal_with_fuel(Seq::filter, 2);
                assert(seq![p].drop_last() =~= Seq::<(i64, i64)>::empty());
                assert(forall|i: int| 0 <= i < c.len() ==> c[i] == s[a.len() + 1 + i]);
            }
            if n.key < lo {
                proof {
                    lemma_filter_range_none(a, lo, hi);
                    assert(filter_range(s, lo, hi) =~= filter_range(c, lo, hi));
                }
                node_scan(&n.right, lo, hi, out);
            } else if n.key > hi {
                proof {
                    lemma_filter_range_none(c, lo, hi);
                    assert(filter_range(s, lo, hi) =~= filter_range(a, lo, hi));
                }
                node_scan(&n.left, lo, hi, out);
            } else {
                let ghost out0 = out@;
                proof {
                    assert(a.len() < s.len());
                }
                node_scan(&n.left, lo, hi, out);
                out.push((n.key, n.value));
                node_scan(&n.right, lo, hi, out);
                proof {
                    assert(seq![p].filter(pred) =~= seq![p]);
                    assert(out@ =~= out0 + filter_range(s, lo, hi));
                }
            }
        },
    }
}

/// The bounded in-memory table absorbing writes.
pub struct MemoryTable {
    mem_table_size: usize,
    cur_size: usize,
    root: Option<Box<Node>>,
}

impl View for MemoryTable {
    type V = Seq<(i64, i64)>;

    closed spec fn view(&self) -> Seq<(i64, i64)> {
        tree_seq(self.root)
    }
}

impl MemoryTable {
    /// Sound state: a sorted sentinel-free tree, correct heights, the entry
    /// count tracked, and the count within the configured bound.
    pub closed spec fn wf(&self) -> bool {
        &&& valid_stream(self@)
        &&& heights_ok(self.root)
        &&& self.cur_size == self@.len()
        &&& self.cur_size <= self.mem_table_size
        &&& 0 < self.mem_table_size < usize::MAX
    }

    /// The configured entry bound.
    pub closed spec fn capacity(&self) -> nat {
        self.mem_table_size as nat
    }

    /// An empty table bounded by `mem_table_size` entries.
    pub fn new(mem_table_size: usize) -> (r: MemoryTable)
        requires
            0 < mem_table_size < usize::MAX,
        ensures
            r.wf(),
            r@ == Seq::<(i64, i64)>::empty(),
            r.capacity() == mem_table_size,
    {
        MemoryTable { mem_table_size, cur_size: 0, root: None }
    }

    /// Insert or overwrite. Fails only when the table is full and the key is
    /// absent; overwriting never changes the count.
    pub fn insert(&mut self, key: i64, value: i64) -> (r: bool)
        requires
            old(self).wf(),
            key != TOMBSTONE,
            value != TOMBSTONE,
        ensures
            final(self).wf(),
            final(self).capacity() == old(self).capacity(),
            r == (seq_map(old(self)@).contains_key(key) || old(self)@.len() < old(
                self,
            ).capacity()),
            r ==> seq_map(final(self)@) == seq_map(old(self)@).insert(key, value),
            r ==> final(self)@.len() == old(self)@.len() + (if seq_map(
                old(self)@,
            ).contains_key(key) {
                0int
            } else {
                1int
            }),
            !r ==> final(self)@ == old(self)@,
    {
        let existed = node_get(&self.root, key).is_some();
        if !existed && self.cur_size >= self.mem_table_size {
            return false;
        }
        let root = self.root.take();
        let (newroot, existed2) = node_insert(root, key, value);
        proof {
            lemma_valid_stream_insert(
                tree_seq(root),
                tree_seq(Some(newroot)),
                key,
                value,
            );
        }
        self.root = Some(newroot);
        if !existed2 {
            self.cur_size = self.cur_size + 1;
        }
        true
    }

    /// A sound table's pairs form a sorted sentinel-free stream.
    pub proof fn lemma_wf_valid(&self)
        requires
            self.wf(),
        ensures
            valid_stream(self@),
            self@.len() <= self.capacity(),
    {
    }

    /// How many pairs the table holds.
    pub fn len(&self) -> (r: usize)
        requires
            self.wf(),
        ensures
            r == self@.len(),
    {
        self.cur_size
    }

    /// Point lookup.
    pub fn get(&self, key: i64) -> (r: Option<i64>)
        requires
            self.wf(),
        ensures
            r == lookup(self@, key),
    {
        node_get(&self.root, key)
    }

    /// The pairs with keys in `[lo, hi]`, ascending; reversed bounds yield
    /// nothing.
    pub fn scan(&self, lower_bound: i64, upper_bound: i64) -> (r: Vec<(i64, i64)>)
        requires
            self.wf(),
        ensures
            r@ == filter_range(self@, lower_bound, upper_bound),
    {
        let mut out: Vec<(i64, i64)> = Vec::new();
        node_scan(&self.root, lower_bound, upper_bound, &mut out);
        proof {
            assert(out@ =~= filter_range(self@, lower_bound, upper_bound));
        }
        out
    }

    /// Every pair, ascending, without consuming the table.
    pub fn iter(&self) -> (r: Vec<(i64, i64)>)
        requires
            self.wf(),
        ensures
            r@ == self@,
    {
        let r = self.scan(i64::MIN, i64::MAX);
        proof {
            lemma_filter_range_all(self@);
        }
        r
    }

    /// Every pair, ascending, consuming the table: the flush stream.
    pub fn into_level_iter(self) -> (r: Vec<(i64, i64)>)
        requires
            self.wf(),
        ensures
            r@ == self@,
    {
        let r = self.scan(i64::MIN, i64::MAX);
        proof {
            lemma_filter_range_all(self@);
        }
        r
    }
}

} // verus!
