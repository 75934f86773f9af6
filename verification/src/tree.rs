//! The arena-backed node tree.
//!
//! Nodes are addressed by stable identity slots; identity survives
//! rebuilds independent of value equality. Slots are never reused: a
//! removed node leaves a free slot behind and fresh nodes always get a
//! fresh, strictly larger slot. Consequently every child's slot number is
//! strictly greater than its parent's, which gives every walk over the
//! tree an obvious termination measure.

use vstd::prelude::*;

use vstd::pervasive::unreached;

use crate::change::Change;
use crate::geom::{Point, Size, MAX_NODES};
use crate::ui::{data_ok, NodeData};

verus! {

/// One tree node: its view value's node-local attributes, parent/child
/// links, the geometry cached by the last layout pass, and the change
/// mask.
pub struct Node {
    pub data: NodeData,
    pub parent: Option<usize>,
    pub children: Vec<usize>,
    pub position: Point,
    pub size: Size,
    pub change: Change,
}

/// The arena tree. A `None` slot is free; a `Some` slot holds a node.
pub struct Tree {
    pub nodes: Vec<Option<Node>>,
    pub root: usize,
}

/// Whether slot `i` holds a node.
pub open spec fn used(t: Tree, i: int) -> bool {
    0 <= i < t.nodes@.len() && t.nodes@[i] is Some
}

/// The node in slot `i`.
pub open spec fn node_at(t: Tree, i: int) -> Node {
    t.nodes@[i]->0
}

/// Well-formedness of one used node's child list: every child slot is a
/// larger, used slot whose parent pointer comes back here, entries are
/// distinct, and the list is short enough for arithmetic on child counts.
pub open spec fn kids_wf(t: Tree, i: int) -> bool {
    let ks = node_at(t, i).children@;
    &&& ks.len() <= MAX_NODES
    &&& forall|k: int|
        0 <= k < ks.len() ==> i < #[trigger] ks[k] < t.nodes@.len() && used(t, ks[k] as int)
            && node_at(t, ks[k] as int).parent == Some(i as usize)
    &&& forall|k1: int, k2: int| 0 <= k1 < k2 < ks.len() ==> ks[k1] != ks[k2]
}

/// Well-formedness of the whole arena: the root is a used, parentless
/// slot; every used node has a valid child list and valid attributes; and
/// every used non-root node is listed by its (smaller, used) parent.
pub open spec fn wf(t: Tree) -> bool {
    &&& used(t, t.root as int)
    &&& node_at(t, t.root as int).parent is None
    &&& forall|i: int| used(t, i) ==> data_ok(#[trigger] node_at(t, i).data)
    &&& forall|i: int| used(t, i) ==> #[trigger] kids_wf(t, i)
    &&& forall|i: int|
        #[trigger] used(t, i) && i != t.root ==> node_at(t, i).parent is Some && ({
            let p = node_at(t, i).parent->0 as int;
            &&& 0 <= p < i
            &&& used(t, p)
            &&& node_at(t, p).children@.contains(i as usize)
        })
}

/// Whether slot `x` lies in the subtree rooted at slot `r`, following
/// parent pointers. The parent-decreasing guard makes the walk obviously
/// well founded.
pub open spec fn in_subtree(t: Tree, r: int, x: int) -> bool
    decreases x,
{
    if x == r {
        true
    } else if 0 <= x < t.nodes@.len() && used(t, x) && node_at(t, x).parent is Some && 0 <= (
    node_at(t, x).parent->0 as int) < x {
        in_subtree(t, r, node_at(t, x).parent->0 as int)
    } else {
        false
    }
}

/// The parent link of one slot is sound: the root has none, every other
/// used slot points at a smaller used slot.
pub open spec fn parent_edge_ok(t: Tree, x: int) -> bool {
    used(t, x) ==> if x == t.root {
        node_at(t, x).parent is None
    } else {
        &&& node_at(t, x).parent is Some
        &&& 0 <= (node_at(t, x).parent->0 as int) < x
        &&& used(t, node_at(t, x).parent->0 as int)
    }
}

/// Every slot of a subtree is at least the subtree's root slot.
pub proof fn lemma_subtree_ge(t: Tree, r: int, x: int)
    requires
        in_subtree(t, r, x),
    ensures
        x >= r,
    decreases x,
{
    if x != r {
        lemma_subtree_ge(t, r, node_at(t, x).parent->0 as int);
    }
}

/// A child's subtree lies inside its parent's subtree.
pub proof fn lemma_subtree_extend(t: Tree, p: int, c: int, x: int)
    requires
        used(t, c),
        node_at(t, c).parent == Some(p as usize),
        0 <= p < c,
        p as usize as int == p,
        in_subtree(t, c, x),
    ensures
        in_subtree(t, p, x),
    decreases x,
{
    if x == c {
        assert(in_subtree(t, p, p));
    } else {
        lemma_subtree_extend(t, p, c, node_at(t, x).parent->0 as int);
    }
}

/// Subtree membership transfers between trees that agree on usedness and
/// parent pointers of the first tree's used slots.
pub proof fn lemma_subtree_mono(t1: Tree, t2: Tree, r: int, x: int)
    requires
        forall|y: int|
            #[trigger] used(t1, y) ==> used(t2, y) && node_at(t2, y).parent == node_at(
                t1,
                y,
            ).parent,
        in_subtree(t1, r, x),
    ensures
        in_subtree(t2, r, x),
    decreases x,
{
    if x != r {
        lemma_subtree_mono(t1, t2, r, node_at(t1, x).parent->0 as int);
    }
}


/// Two arenas with the same length, the same used slots, and per-node
/// equal structure (data, parent, children) are equally well formed,
/// whatever their geometry and masks say.
pub open spec fn same_shape(t1: Tree, t2: Tree) -> bool {
    &&& t1.nodes@.len() == t2.nodes@.len()
    &&& t1.root == t2.root
    &&& forall|x: int| used(t1, x) <==> used(t2, x)
    &&& forall|x: int|
        #[trigger] used(t1, x) ==> node_at(t2, x).data == node_at(t1, x).data && node_at(
            t2,
            x,
        ).parent == node_at(t1, x).parent && node_at(t2, x).children@ == node_at(
            t1,
            x,
        ).children@
}

/// Well-formedness carries across arenas of the same shape.
pub proof fn lemma_same_shape_wf(t1: Tree, t2: Tree)
    requires
        wf(t1),
        same_shape(t1, t2),
    ensures
        wf(t2),
{
    assert forall|j: int| #[trigger] used(t2, j) implies kids_wf(t2, j) by {
        assert(used(t1, j));
        assert(kids_wf(t1, j));
        let ks = node_at(t2, j).children@;
        assert(ks == node_at(t1, j).children@);
        assert forall|k: int|
            0 <= k < ks.len() implies j < #[trigger] ks[k] < t2.nodes@.len() && used(
            t2,
            ks[k] as int,
        ) && node_at(t2, ks[k] as int).parent == Some(j as usize) by {
            assert(used(t1, ks[k] as int));
        }
    }
    assert forall|j: int| used(t2, j) implies data_ok(#[trigger] node_at(t2, j).data) by {
        assert(used(t1, j));
    }
    assert forall|i: int|
        #[trigger] used(t2, i) && i != t2.root implies node_at(t2, i).parent is Some && ({
        let p = node_at(t2, i).parent->0 as int;
        &&& 0 <= p < i
        &&& used(t2, p)
        &&& node_at(t2, p).children@.contains(i as usize)
    }) by {
        assert(used(t1, i));
        let p = node_at(t1, i).parent->0 as int;
        assert(used(t1, p));
        assert(node_at(t2, p).children@ == node_at(t1, p).children@);
    }
}


/// Pushing a newly freed slot keeps the freed-list bookkeeping exact.
#[verifier::rlimit(50)]
proof fn lemma_freed_push(pre: Seq<u64>, fbase: int, t0: Tree, idi: int, x: usize, post: Seq<u64>)
    requires
        0 <= fbase <= pre.len(),
        post == pre.push(x as u64),
        used(t0, x as int) && in_subtree(t0, idi, x as int),
        forall|y: int|
            0 <= y < x ==> ((used(t0, y) && in_subtree(t0, idi, y)) <==> #[trigger] pre.skip(
                fbase,
            ).contains(y as u64)),
        forall|j: int| fbase <= j < pre.len() ==> pre[j] < x,
    ensures
        post.take(fbase) == pre.take(fbase),
        forall|y: int|
            0 <= y < x + 1 ==> ((used(t0, y) && in_subtree(t0, idi, y)) <==> #[trigger] post.skip(
                fbase,
            ).contains(y as u64)),
        forall|j: int| fbase <= j < post.len() ==> post[j] < x + 1,
{
    assert(post.take(fbase) =~= pre.take(fbase));
    let so = pre.skip(fbase);
    let sn = post.skip(fbase);
    assert(sn =~= so.push(x as u64));
    assert forall|y: int|
        0 <= y < x + 1 implies ((used(t0, y) && in_subtree(t0, idi, y)) <==> #[trigger] sn.contains(
        y as u64,
    )) by {
        vstd::seq_lib::lemma_seq_contains_after_push(so, x as u64, y as u64);
        assert(sn.contains(y as u64) <==> (x as u64 == y as u64 || so.contains(y as u64)));
        if y == x {
            assert(x as u64 == y as u64);
        } else {
            assert((y as u64) as int == y);
            assert((x as u64) as int == x as int);
            assert(x as u64 != y as u64);
        }
    }
}

/// Scanning past a slot that stays keeps the freed-list bookkeeping exact.
#[verifier::rlimit(50)]
proof fn lemma_freed_keep(pre: Seq<u64>, fbase: int, t0: Tree, idi: int, x: usize)
    requires
        0 <= fbase <= pre.len(),
        !(used(t0, x as int) && in_subtree(t0, idi, x as int)),
        forall|y: int|
            0 <= y < x ==> ((used(t0, y) && in_subtree(t0, idi, y)) <==> #[trigger] pre.skip(
                fbase,
            ).contains(y as u64)),
        forall|j: int| fbase <= j < pre.len() ==> pre[j] < x,
    ensures
        forall|y: int|
            0 <= y < x + 1 ==> ((used(t0, y) && in_subtree(t0, idi, y)) <==> #[trigger] pre.skip(
                fbase,
            ).contains(y as u64)),
        forall|j: int| fbase <= j < pre.len() ==> pre[j] < x + 1,
{
    assert forall|y: int|
        0 <= y < x + 1 implies ((used(t0, y) && in_subtree(t0, idi, y)) <==> #[trigger] pre.skip(
        fbase,
    ).contains(y as u64)) by {
        if y == x {
            assert forall|i: int|
                0 <= i < pre.skip(fbase).len() implies pre.skip(fbase)[i] != (y as u64) by {
                assert(pre.skip(fbase)[i] == pre[fbase + i]);
                assert(pre[fbase + i] < x);
                assert((x as u64) as int == x as int);
                assert((y as u64) as int == y);
            }
            assert(!pre.skip(fbase).contains(y as u64));
        } else {
            assert(pre.skip(fbase).contains(y as u64) || !pre.skip(fbase).contains(y as u64));
        }
    }
}


/// What the sweep decides at one slot: a scanned slot is a descendant of
/// the removed node exactly when its parent is the removed slot or an
/// already-freed descendant. Parents precede children in the arena, so
/// the parent's fate is already decided.
proof fn lemma_sweep_case(t0: Tree, cur: Tree, idi: int, x: int)
    requires
        parent_edge_ok(t0, x),
        0 <= idi < t0.nodes@.len(),
        cur.nodes@.len() == t0.nodes@.len(),
        idi < x < t0.nodes@.len(),
        forall|y: int| x <= y < t0.nodes@.len() ==> cur.nodes@[y] == t0.nodes@[y],
        forall|y: int|
            0 <= y < x ==> ((#[trigger] used(cur, y)) <==> used(t0, y) && !in_subtree(t0, idi, y)),
    ensures
        used(cur, x) == used(t0, x),
        used(t0, x) ==> node_at(cur, x) == node_at(t0, x),
        used(t0, x) ==> (in_subtree(t0, idi, x) <==> (node_at(t0, x).parent is Some && !used(
            cur,
            node_at(t0, x).parent->0 as int,
        ))),
        !used(t0, x) ==> !in_subtree(t0, idi, x),
{
    assert(cur.nodes@[x] == t0.nodes@[x]);
    if used(t0, x) {
        if x == t0.root {
            assert(node_at(t0, x).parent is None);
            if in_subtree(t0, idi, x) {
                assert(x == idi);
            }
        } else {
            let px = node_at(t0, x).parent->0 as int;
            assert(0 <= px < x);
            assert(used(t0, px));
            if in_subtree(t0, idi, px) {
                lemma_subtree_ge(t0, idi, px);
            }
            if px == idi {
                assert(in_subtree(t0, idi, x));
                assert(!used(cur, px));
            } else {
                assert(in_subtree(t0, idi, x) == in_subtree(t0, idi, px));
                assert(used(cur, px) <==> !in_subtree(t0, idi, px));
            }
        }
    } else {
        if in_subtree(t0, idi, x) {
            assert(x == idi);
        }
    }
}


/// One sweep step preserves the sweep's bookkeeping about slots.
#[verifier::rlimit(100)]
proof fn lemma_sweep_step(t0: Tree, prev: Tree, cur: Tree, idi: int, pi: int, x: int, fr: bool)
    requires
        0 <= pi < idi < x < t0.nodes@.len(),
        prev.nodes@.len() == t0.nodes@.len(),
        cur.nodes@.len() == prev.nodes@.len(),
        forall|y: int| x <= y < t0.nodes@.len() ==> prev.nodes@[y] == t0.nodes@[y],
        forall|y: int|
            0 <= y < x ==> ((#[trigger] used(prev, y)) <==> used(t0, y) && !in_subtree(t0, idi, y)),
        forall|y: int| #[trigger] used(prev, y) && y != pi ==> prev.nodes@[y] == t0.nodes@[y],
        fr == (used(t0, x) && in_subtree(t0, idi, x)),
        fr ==> cur.nodes@ == prev.nodes@.update(x, None::<Node>),
        !fr ==> cur == prev,
    ensures
        forall|y: int| x + 1 <= y < t0.nodes@.len() ==> cur.nodes@[y] == t0.nodes@[y],
        forall|y: int|
            0 <= y < x + 1 ==> ((#[trigger] used(cur, y)) <==> used(t0, y) && !in_subtree(
                t0,
                idi,
                y,
            )),
        forall|y: int| #[trigger] used(cur, y) && y != pi ==> cur.nodes@[y] == t0.nodes@[y],
        cur.nodes@[pi] == prev.nodes@[pi],
        cur.root == prev.root || fr,
{
    if fr {
        assert(cur.nodes@[pi] == prev.nodes@[pi]);
        assert forall|y: int|
            0 <= y < x + 1 implies ((#[trigger] used(cur, y)) <==> used(t0, y) && !in_subtree(
            t0,
            idi,
            y,
        )) by {
            if y < x {
                assert(cur.nodes@[y] == prev.nodes@[y]);
                assert(used(prev, y) <==> used(cur, y));
            } else {
                assert(!used(cur, x));
            }
        }
        assert forall|y: int|
            #[trigger] used(cur, y) && y != pi implies cur.nodes@[y] == t0.nodes@[y] by {
            assert(y != x);
            assert(cur.nodes@[y] == prev.nodes@[y]);
            assert(used(prev, y));
        }
    } else {
        assert forall|y: int|
            0 <= y < x + 1 implies ((#[trigger] used(cur, y)) <==> used(t0, y) && !in_subtree(
            t0,
            idi,
            y,
        )) by {
            if y < x {
                assert(used(prev, y) <==> used(cur, y));
            } else {
                assert(cur.nodes@[x] == t0.nodes@[x]);
                assert(used(prev, x) <==> used(cur, x));
            }
        }
        assert forall|y: int|
            #[trigger] used(cur, y) && y != pi implies cur.nodes@[y] == t0.nodes@[y] by {
            assert(used(prev, y));
        }
    }
}


/// After the removal sweep the arena is well formed again.
#[verifier::rlimit(100)]
#[verifier::spinoff_prover]
proof fn lemma_remove_wf(t0: Tree, tf: Tree, id: usize, p: usize, oks: Seq<usize>, oi: int)
    requires
        wf(t0),
        t0.nodes@.len() <= usize::MAX,
        used(t0, id as int),
        id != t0.root,
        node_at(t0, id as int).parent == Some(p),
        0 <= (p as int) < id as int,
        oks == node_at(t0, p as int).children@,
        0 <= oi < oks.len(),
        oks[oi] == id,
        oks.index_of_first(id) == Some(oi),
        tf.nodes@.len() == t0.nodes@.len(),
        tf.root == t0.root,
        forall|y: int|
            0 <= y < t0.nodes@.len() ==> ((#[trigger] used(tf, y)) <==> used(t0, y)
                && !in_subtree(t0, id as int, y)),
        forall|y: int|
            #[trigger] used(tf, y) && y != p as int ==> tf.nodes@[y] == t0.nodes@[y],
        used(tf, p as int),
        node_at(tf, p as int).data == node_at(t0, p as int).data,
        node_at(tf, p as int).parent == node_at(t0, p as int).parent,
        node_at(tf, p as int).children@ == oks.remove_value(id),
    ensures
        wf(tf),
{
    let idi = id as int;
    let pi = p as int;
    oks.index_of_first_ensures(id);
    assert(node_at(tf, pi).children@ == oks.remove(oi));
    assert(used(tf, t0.root as int)) by {
        if in_subtree(t0, idi, t0.root as int) {
            assert(t0.root as int != idi);
        }
    }
    assert forall|j: int| #[trigger] used(tf, j) implies kids_wf(tf, j) by {
        assert(used(t0, j));
        assert(!in_subtree(t0, idi, j));
        assert(kids_wf(t0, j));
        let ks = node_at(tf, j).children@;
        assert forall|k: int|
            0 <= k < ks.len() implies j < #[trigger] ks[k] < tf.nodes@.len() && used(
            tf,
            ks[k] as int,
        ) && node_at(tf, ks[k] as int).parent == Some(j as usize) by {
            if j == pi {
                assert(ks == oks.remove(oi));
                assert(ks[k] == if k < oi {
                    oks[k]
                } else {
                    oks[k + 1]
                });
            }
            let c = ks[k] as int;
            assert(used(t0, c) && node_at(t0, c).parent == Some(j as usize));
            assert(c != idi) by {
                if c == idi {
                    assert(node_at(t0, idi).parent == Some(j as usize));
                    assert(j == pi);
                    assert(forall|k1: int, k2: int|
                        0 <= k1 < k2 < oks.len() ==> oks[k1] != oks[k2]);
                    if k < oi {
                        assert(oks[k] == id);
                    } else {
                        assert(oks[k + 1] == id);
                    }
                }
            }
            assert(!in_subtree(t0, idi, c)) by {
                if in_subtree(t0, idi, c) {
                    assert(in_subtree(t0, idi, j));
                }
            }
            assert(used(tf, c));
            assert(node_at(tf, c).parent == node_at(t0, c).parent);
        }
        if j == pi {
            assert(ks.len() <= node_at(t0, j).children@.len());
        } else {
            assert(ks == node_at(t0, j).children@);
        }
        assert forall|k1: int, k2: int| 0 <= k1 < k2 < ks.len() implies ks[k1] != ks[k2] by {
            if j == pi {
                assert(ks == oks.remove(oi));
                assert(ks[k1] == if k1 < oi {
                    oks[k1]
                } else {
                    oks[k1 + 1]
                });
                assert(ks[k2] == if k2 < oi {
                    oks[k2]
                } else {
                    oks[k2 + 1]
                });
            }
        }
    }
    assert forall|i: int|
        #[trigger] used(tf, i) && i != tf.root implies node_at(tf, i).parent is Some && ({
        let q = node_at(tf, i).parent->0 as int;
        &&& 0 <= q < i
        &&& used(tf, q)
        &&& node_at(tf, q).children@.contains(i as usize)
    }) by {
        assert(used(t0, i));
        assert(!in_subtree(t0, idi, i));
        let q = node_at(t0, i).parent->0 as int;
        assert(node_at(tf, i).parent == node_at(t0, i).parent);
        assert(used(t0, q));
        assert(!in_subtree(t0, idi, q)) by {
            if in_subtree(t0, idi, q) {
                assert(in_subtree(t0, idi, i));
            }
        }
        assert(used(tf, q));
        assert(kids_wf(t0, q));
        if q == pi {
            let w = choose|k: int| 0 <= k < oks.len() && oks[k] == i as usize;
            assert(in_subtree(t0, idi, idi));
            assert(i != idi);
            assert((i as usize) as int == i);
            assert(i as usize != id);
            assert(w != oi);
            let ks = node_at(tf, q).children@;
            assert(ks == oks.remove(oi));
            if w < oi {
                assert(ks[w] == i as usize);
            } else {
                assert(ks[w - 1] == i as usize);
            }
            assert(ks.contains(i as usize));
        } else {
            assert(node_at(tf, q).children@ == node_at(t0, q).children@);
        }
    }
    assert forall|i: int| used(tf, i) implies data_ok(#[trigger] node_at(tf, i).data) by {
        assert(used(t0, i));
    }
    assert(wf(tf));
}


/// Freed-list bookkeeping right after the subtree root itself is freed.
proof fn lemma_freed_init(t0: Tree, id: usize, fbase: int, ofreed: Seq<u64>, now: Seq<u64>)
    requires
        used(t0, id as int),
        fbase == ofreed.len(),
        now == ofreed.push(id as u64),
    ensures
        now.take(fbase) == ofreed,
        now.len() >= fbase,
        forall|y: int|
            0 <= y < id as int + 1 ==> ((used(t0, y) && in_subtree(t0, id as int, y))
                <==> #[trigger] now.skip(fbase).contains(y as u64)),
        forall|j: int| fbase <= j < now.len() ==> now[j] < id as int + 1,
        forall|y: int| 0 <= y < id as int ==> !in_subtree(t0, id as int, y),
{
    let idi = id as int;
    assert(now.take(fbase) =~= ofreed);
    assert(now.skip(fbase) =~= seq![id as u64]);
    assert forall|y: int| 0 <= y < idi implies !in_subtree(t0, idi, y) by {
        if in_subtree(t0, idi, y) {
            lemma_subtree_ge(t0, idi, y);
        }
    }
    assert forall|y: int|
        0 <= y < idi + 1 implies ((used(t0, y) && in_subtree(t0, idi, y))
        <==> #[trigger] now.skip(fbase).contains(y as u64)) by {
        if now.skip(fbase).contains(y as u64) {
            let w = choose|i: int|
                0 <= i < now.skip(fbase).len() && now.skip(fbase)[i] == y as u64;
            assert(now.skip(fbase)[w] == id as u64);
            assert((y as u64) as int == y);
            assert((id as u64) as int == id as int);
        }
        if y == idi {
            assert(now.skip(fbase)[0] == y as u64);
        }
    }
}

impl Tree {
    /// A fresh tree holding a single root node with the given attributes
    /// and no children yet; a build pass populates the rest.
    pub fn new(data: NodeData) -> (t: Tree)
        requires
            data_ok(data),
        ensures
            wf(t),
            t.nodes@.len() == 1,
            t.root == 0,
            used(t, 0),
            node_at(t, 0).data == data,
            node_at(t, 0).children@.len() == 0,
            node_at(t, 0).change == Change::spec_none(),
    {
        let node = Node {
            data,
            parent: None,
            children: Vec::new(),
            position: Point { x: 0, y: 0 },
            size: Size { w: 0, h: 0 },
            change: Change::none(),
        };
        let mut nodes: Vec<Option<Node>> = Vec::new();
        nodes.push(Some(node));
        let t = Tree { nodes, root: 0 };
        proof {
            assert(used(t, 0));
            assert(forall|i: int| used(t, i) ==> i == 0);
        }
        t
    }

    /// Allocate a fresh slot for a new node under the given parent. The
    /// caller must list the new slot in the parent's child list to keep
    /// the tree well formed; until then only the arena grew.
    pub fn insert(&mut self, parent: usize, data: NodeData) -> (id: usize)
        requires
            used(*old(self), parent as int),
        ensures
            id == old(self).nodes@.len(),
            final(self).nodes@.len() == old(self).nodes@.len() + 1,
            forall|x: int| 0 <= x < old(self).nodes@.len() ==> final(self).nodes@[x] == old(
                self,
            ).nodes@[x],
            final(self).root == old(self).root,
            used(*final(self), id as int),
            ({
                let n = node_at(*final(self), id as int);
                &&& n.data == data
                &&& n.parent == Some(parent)
                &&& n.children@ == Seq::<usize>::empty()
                &&& n.position == (Point { x: 0, y: 0 })
                &&& n.size == (Size { w: 0, h: 0 })
                &&& n.change == Change::spec_view_bit()
            }),
    {
        let id = self.nodes.len();
        let node = Node {
            data,
            parent: Some(parent),
            children: Vec::new(),
            position: Point { x: 0, y: 0 },
            size: Size { w: 0, h: 0 },
            change: Change::view_bit(),
        };
        self.nodes.push(Some(node));
        id
    }

    /// Whether the slot holds a node.
    pub fn is_used(&self, id: usize) -> (r: bool)
        ensures
            r == used(*self, id as int),
    {
        id < self.nodes.len() && match &self.nodes[id] {
            Some(_) => true,
            None => false,
        }
    }

    /// The change mask of the node in the given slot.
    pub fn change_at(&self, id: usize) -> (c: Change)
        requires
            used(*self, id as int),
        ensures
            c == node_at(*self, id as int).change,
    {
        match &self.nodes[id] {
            Some(node) => node.change,
            None => Change::none(),
        }
    }

    /// The cached position of the node in the given slot.
    pub fn position_at(&self, id: usize) -> (p: Point)
        requires
            used(*self, id as int),
        ensures
            p == node_at(*self, id as int).position,
    {
        match &self.nodes[id] {
            Some(node) => node.position,
            None => Point { x: 0, y: 0 },
        }
    }

    /// The cached size of the node in the given slot.
    pub fn size_at(&self, id: usize) -> (s: Size)
        requires
            used(*self, id as int),
        ensures
            s == node_at(*self, id as int).size,
    {
        match &self.nodes[id] {
            Some(node) => node.size,
            None => Size { w: 0, h: 0 },
        }
    }

    /// A copy of the child slot list of the node in the given slot.
    #[verifier::loop_isolation(false)]
    pub fn children_at(&self, id: usize) -> (ks: Vec<usize>)
        requires
            used(*self, id as int),
        ensures
            ks@ == node_at(*self, id as int).children@,
    {
        let mut ks: Vec<usize> = Vec::new();
        match &self.nodes[id] {
            Some(node) => {
                let n = node.children.len();
                let mut k: usize = 0;
                while k < n
                    invariant
                        used(*self, id as int),
                        n == node_at(*self, id as int).children@.len(),
                        k <= n,
                        ks@ == node_at(*self, id as int).children@.take(k as int),
                    decreases n - k,
                {
                    ks.push(node.children[k]);
                    proof {
                        assert(ks@ =~= node_at(*self, id as int).children@.take(k as int + 1));
                    }
                    k = k + 1;
                }
                proof {
                    assert(ks@ =~= node_at(*self, id as int).children@);
                }
            },
            None => {},
        }
        ks
    }

    /// Merge a change into the node's mask, leaving everything else as it
    /// was. Hosts use this to flag durable-state changes.
    pub fn mark(&mut self, id: usize, change: Change)
        requires
            used(*old(self), id as int),
        ensures
            final(self).nodes@.len() == old(self).nodes@.len(),
            final(self).root == old(self).root,
            forall|x: int|
                0 <= x < old(self).nodes@.len() && x != id ==> final(self).nodes@[x] == old(
                    self,
                ).nodes@[x],
            used(*final(self), id as int),
            node_at(*final(self), id as int) == (Node {
                change: node_at(*old(self), id as int).change.spec_union(change),
                ..node_at(*old(self), id as int)
            }),
            wf(*old(self)) ==> wf(*final(self)),
    {
        let mut slot: Option<Node> = None;
        std::mem::swap(&mut slot, &mut self.nodes[id]);
        match slot {
            Some(mut node) => {
                node.change.add(change);
                self.nodes.set(id, Some(node));
            },
            None => {},
        }
        proof {
            assert(forall|x: int| used(*final(self), x) <==> used(*old(self), x));
            assert(same_shape(*old(self), *final(self)));
            if wf(*old(self)) {
                lemma_same_shape_wf(*old(self), *final(self));
            }
        }
    }

    /// Clear every node's change mask: the full-tree reset walk that ends
    /// an update cycle. Nothing else about any node changes.
    pub fn reset(&mut self)
        ensures
            final(self).nodes@.len() == old(self).nodes@.len(),
            final(self).root == old(self).root,
            forall|x: int| used(*final(self), x) <==> used(*old(self), x),
            forall|x: int|
                used(*old(self), x) ==> node_at(*final(self), x) == (Node {
                    change: Change::spec_none(),
                    ..node_at(*old(self), x)
                }),
            forall|x: int|
                0 <= x < old(self).nodes@.len() && !used(*old(self), x) ==> final(self).nodes@[x]
                    == old(self).nodes@[x],
            wf(*old(self)) ==> wf(*final(self)),
    {
        let n = self.nodes.len();
        let mut i: usize = 0;
        while i < n
            invariant
                n == old(self).nodes@.len(),
                self.nodes@.len() == n,
                self.root == old(self).root,
                i <= n,
                forall|x: int| i <= x < n ==> self.nodes@[x] == old(self).nodes@[x],
                forall|x: int| 0 <= x < i ==> (used(*self, x) <==> used(*old(self), x)),
                forall|x: int|
                    0 <= x < i && used(*old(self), x) ==> node_at(*self, x) == (Node {
                        change: Change::spec_none(),
                        ..node_at(*old(self), x)
                    }),
                forall|x: int|
                    0 <= x < i && !used(*old(self), x) ==> self.nodes@[x] == old(self).nodes@[x],
            decreases n - i,
        {
            let mut slot: Option<Node> = None;
            std::mem::swap(&mut slot, &mut self.nodes[i]);
            match slot {
                Some(mut node) => {
                    node.change.clear();
                    self.nodes.set(i, Some(node));
                },
                None => {
                    proof {
                        assert(self.nodes@[i as int] == old(self).nodes@[i as int]);
                    }
                },
            }
            i = i + 1;
        }
        proof {
            assert(same_shape(*old(self), *final(self)));
            if wf(*old(self)) {
                lemma_same_shape_wf(*old(self), *final(self));
            }
        }
    }


    /// One step of the removal sweep: decide slot `x` and free it if its
    /// parent chain has gone dead, keeping all sweep bookkeeping.
    #[verifier::rlimit(100)]
    #[verifier::spinoff_prover]
    fn sweep_visit(
        &mut self,
        x: usize,
        id: usize,
        p: usize,
        freed: &mut Vec<u64>,
        Ghost(t0): Ghost<Tree>,
        Ghost(fbase): Ghost<int>,
        Ghost(ofreed): Ghost<Seq<u64>>,
    )
        requires
            parent_edge_ok(t0, x as int),
            t0.nodes@.len() == old(self).nodes@.len(),
            id != t0.root,
            used(t0, id as int),
            node_at(t0, id as int).parent == Some(p),
            0 <= (p as int) < id as int,
            id as int + 1 <= x as int,
            (x as int) < t0.nodes@.len(),
            old(self).root == t0.root,
            forall|y: int|
                x as int <= y < t0.nodes@.len() ==> old(self).nodes@[y] == t0.nodes@[y],
            forall|y: int|
                0 <= y < x as int ==> ((#[trigger] used(*old(self), y)) <==> used(t0, y)
                    && !in_subtree(t0, id as int, y)),
            forall|y: int|
                #[trigger] used(*old(self), y) && y != p as int ==> old(self).nodes@[y]
                    == t0.nodes@[y],
            0 <= fbase <= ofreed.len(),
            fbase == ofreed.len(),
            old(freed)@.len() >= fbase,
            old(freed)@.take(fbase) == ofreed,
            forall|y: int|
                0 <= y < x as int ==> ((used(t0, y) && in_subtree(t0, id as int, y))
                    <==> #[trigger] old(freed)@.skip(fbase).contains(y as u64)),
            forall|j: int| fbase <= j < old(freed)@.len() ==> old(freed)@[j] < x,
        ensures
            final(self).nodes@.len() == old(self).nodes@.len(),
            final(self).root == old(self).root,
            forall|y: int|
                x as int + 1 <= y < t0.nodes@.len() ==> final(self).nodes@[y] == t0.nodes@[y],
            forall|y: int|
                0 <= y < x as int + 1 ==> ((#[trigger] used(*final(self), y)) <==> used(t0, y)
                    && !in_subtree(t0, id as int, y)),
            forall|y: int|
                #[trigger] used(*final(self), y) && y != p as int ==> final(self).nodes@[y]
                    == t0.nodes@[y],
            final(self).nodes@[p as int] == old(self).nodes@[p as int],
            final(freed)@.len() >= fbase,
            final(freed)@.take(fbase) == ofreed,
            forall|y: int|
                0 <= y < x as int + 1 ==> ((used(t0, y) && in_subtree(t0, id as int, y))
                    <==> #[trigger] final(freed)@.skip(fbase).contains(y as u64)),
            forall|j: int| fbase <= j < final(freed)@.len() ==> final(freed)@[j] < x + 1,
    {
        let ghost idi = id as int;
        let ghost pi = p as int;
        proof {
            if in_subtree(t0, idi, pi) {
                lemma_subtree_ge(t0, idi, pi);
            }
            lemma_sweep_case(t0, *self, idi, x as int);
        }
        let mut fr = false;
        match &self.nodes[x] {
            Some(node) => {
                match node.parent {
                    Some(px) => {
                        let palive = match &self.nodes[px] {
                            Some(_) => true,
                            None => false,
                        };
                        fr = !palive;
                    },
                    None => {},
                }
            },
            None => {},
        }
        proof {
            assert(fr <==> (used(t0, x as int) && in_subtree(t0, idi, x as int)));
        }
        let ghost pre = freed@;
        let ghost prev = *self;
        if fr {
            let mut dead: Option<Node> = None;
            std::mem::swap(&mut dead, &mut self.nodes[x]);
            freed.push(x as u64);
            proof {
                assert(self.nodes@ =~= prev.nodes@.update(x as int, None::<Node>));
                assert(pre.take(fbase) =~= ofreed);
                lemma_freed_push(pre, fbase, t0, idi, x, freed@);
                assert(freed@.take(fbase) =~= ofreed);
            }
        } else {
            proof {
                lemma_freed_keep(freed@, fbase, t0, idi, x);
            }
        }
        proof {
            lemma_sweep_step(t0, prev, *self, idi, pi, x as int, fr);
            assert(prev == *old(self));
            assert(pi != x as int);
            assert(0 <= pi < self.nodes@.len());
            assert(self.nodes@[pi] == prev.nodes@[pi]);
        }
    }


    /// Strike `id` from the child list of its parent `p`, returning the
    /// position it held.
    #[verifier::rlimit(100)]
    #[verifier::spinoff_prover]
    fn unlink_child(&mut self, id: usize, p: usize) -> (idx: usize)
        requires
            used(*old(self), p as int),
            node_at(*old(self), p as int).children@.contains(id),
        ensures
            final(self).nodes@.len() == old(self).nodes@.len(),
            final(self).root == old(self).root,
            forall|x: int|
                0 <= x < old(self).nodes@.len() && x != p as int ==> final(self).nodes@[x]
                    == old(self).nodes@[x],
            used(*final(self), p as int),
            ({
                let oks = node_at(*old(self), p as int).children@;
                let nn = node_at(*final(self), p as int);
                &&& nn.data == node_at(*old(self), p as int).data
                &&& nn.parent == node_at(*old(self), p as int).parent
                &&& nn.position == node_at(*old(self), p as int).position
                &&& nn.size == node_at(*old(self), p as int).size
                &&& nn.change == node_at(*old(self), p as int).change
                &&& nn.children@ == oks.remove_value(id)
                &&& (idx as int) < oks.len()
                &&& oks[idx as int] == id
                &&& oks.index_of_first(id) == Some(idx as int)
            }),
    {
        let mut pslot: Option<Node> = None;
        std::mem::swap(&mut pslot, &mut self.nodes[p]);
        let mut pnode = match pslot {
            Some(node) => node,
            None => {
                proof {
                    assert(false);
                }
                unreached()
            },
        };
        let ghost oks = pnode.children@;
        let mut idx: usize = 0;
        while idx < pnode.children.len() && pnode.children[idx] != id
            invariant
                idx <= oks.len(),
                pnode.children@ == oks,
                forall|k: int| 0 <= k < idx ==> oks[k] != id,
            decreases oks.len() - idx,
        {
            idx = idx + 1;
        }
        proof {
            assert(oks.contains(id));
            assert(idx < oks.len() && oks[idx as int] == id) by {
                if idx == oks.len() {
                    let w = choose|k: int| 0 <= k < oks.len() && oks[k] == id;
                    assert(oks[w] != id);
                }
            }
            oks.index_of_first_ensures(id);
            assert(oks.index_of_first(id) == Some(idx as int)) by {
                let f = oks.index_of_first(id)->0;
                if f < idx {
                    assert(oks[f] != id);
                }
                if f > idx {
                    assert(oks[idx as int] != id);
                }
            }
        }
        pnode.children.remove(idx);
        proof {
            assert(pnode.children@ == oks.remove_value(id));
        }
        self.nodes.set(p, Some(pnode));
        idx
    }

    /// Remove the node and its entire subtree from the arena, releasing
    /// the slots and reporting every removed slot in `freed` so the host
    /// can release the durable state those identities own. The node is
    /// unlinked from its parent's child list; nothing else changes.
    #[verifier::rlimit(100)]
    #[verifier::spinoff_prover]
    pub fn remove(&mut self, id: usize, freed: &mut Vec<u64>)
        requires
            wf(*old(self)),
            used(*old(self), id as int),
            id != old(self).root,
        ensures
            wf(*final(self)),
            final(self).nodes@.len() == old(self).nodes@.len(),
            final(self).root == old(self).root,
            forall|x: int|
                used(*final(self), x) <==> used(*old(self), x) && !in_subtree(
                    *old(self),
                    id as int,
                    x,
                ),
            ({
                let p = node_at(*old(self), id as int).parent->0 as int;
                &&& forall|x: int|
                    used(*final(self), x) && x != p ==> final(self).nodes@[x] == old(
                        self,
                    ).nodes@[x]
                &&& node_at(*final(self), p).data == node_at(*old(self), p).data
                &&& node_at(*final(self), p).parent == node_at(*old(self), p).parent
                &&& node_at(*final(self), p).position == node_at(*old(self), p).position
                &&& node_at(*final(self), p).size == node_at(*old(self), p).size
                &&& node_at(*final(self), p).change == node_at(*old(self), p).change
                &&& node_at(*final(self), p).children@ == node_at(
                    *old(self),
                    p,
                ).children@.remove_value(id)
            }),
            final(freed)@.len() >= old(freed)@.len(),
            final(freed)@.take(old(freed)@.len() as int) == old(freed)@,
            forall|x: int|
                0 <= x < old(self).nodes@.len() ==> ((used(*old(self), x) && in_subtree(
                    *old(self),
                    id as int,
                    x,
                )) <==> final(freed)@.skip(old(freed)@.len() as int).contains(x as u64)),
            forall|j: int|
                old(freed)@.len() <= j < final(freed)@.len() ==> final(freed)@[j]
                    < old(self).nodes@.len(),
    {
        let ghost t0 = *self;
        let ghost idi = id as int;
        proof {
            assert(node_at(t0, idi).parent is Some);
        }
        // Unlink `id` from its parent's child list.
        let p: usize = match &self.nodes[id] {
            Some(node) => match node.parent {
                Some(p) => p,
                None => 0,
            },
            None => 0,
        };
        let ghost pi = p as int;
        let ghost oks = node_at(t0, pi).children@;
        proof {
            assert(kids_wf(t0, pi));
        }
        let idx = self.unlink_child(id, p);
        // Free the subtree root itself.
        let mut gone: Option<Node> = None;
        std::mem::swap(&mut gone, &mut self.nodes[id]);
        freed.push(id as u64);
        let ghost fbase = old(freed)@.len() as int;
        proof {
            lemma_freed_init(t0, id, fbase, old(freed)@, freed@);
        }
        let ghost pslot_g = self.nodes@[pi];
        proof {
            assert(used(*self, pi));
        }
        // Sweep: every later slot whose parent chain has gone dead is a
        // descendant; free it too. Parents precede children, so by the
        // time a slot is scanned its ancestors have been decided.
        let n = self.nodes.len();
        let mut x: usize = id + 1;
        while x < n
            invariant
                wf(t0),
                t0.nodes@.len() == n,
                idi == id as int,
                0 <= idi < n,
                id != t0.root,
                used(t0, idi),
                node_at(t0, idi).parent == Some(p),
                pi == p as int,
                0 <= pi < idi,
                oks == node_at(t0, pi).children@,
                idx < oks.len(),
                oks[idx as int] == id,
                fbase == old(freed)@.len(),
                id + 1 <= x <= n,
                self.nodes@.len() == n,
                self.root == t0.root,
                forall|y: int| x <= y < n ==> self.nodes@[y] == t0.nodes@[y],
                forall|y: int|
                    0 <= y < x ==> ((#[trigger] used(*self, y)) <==> used(t0, y) && !in_subtree(
                        t0,
                        idi,
                        y,
                    )),
                forall|y: int|
                    #[trigger] used(*self, y) && y != pi ==> self.nodes@[y] == t0.nodes@[y],
                self.nodes@[pi] == pslot_g,
                pslot_g is Some,
                pslot_g->0.data == node_at(t0, pi).data,
                pslot_g->0.parent == node_at(t0, pi).parent,
                pslot_g->0.position == node_at(t0, pi).position,
                pslot_g->0.size == node_at(t0, pi).size,
                pslot_g->0.change == node_at(t0, pi).change,
                pslot_g->0.children@ == oks.remove_value(id),
                freed@.len() >= fbase,
                freed@.take(fbase) == old(freed)@,
                forall|y: int|
                    0 <= y < x ==> ((used(t0, y) && in_subtree(t0, idi, y)) <==> #[trigger] freed@.skip(
                        fbase,
                    ).contains(y as u64)),
                forall|j: int| fbase <= j < freed@.len() ==> freed@[j] < x,
            decreases n - x,
        {
            proof {
                assert(parent_edge_ok(t0, x as int));
            }
            self.sweep_visit(x, id, p, freed, Ghost(t0), Ghost(fbase), Ghost(old(freed)@));
            x = x + 1;
        }
        proof {
            let tf = *self;
            assert(forall|y: int|
                0 <= y < n ==> ((#[trigger] used(tf, y)) <==> used(t0, y) && !in_subtree(
                    t0,
                    idi,
                    y,
                )));
            assert(used(tf, pi)) by {
                if in_subtree(t0, idi, pi) {
                    lemma_subtree_ge(t0, idi, pi);
                }
            }
            lemma_remove_wf(t0, tf, id, p, oks, idx as int);
        }
    }

}

} // verus!
