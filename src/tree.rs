use vstd::prelude::*;
use crate::bbox::union;
use crate::node::{GeoNode, LeafRecord};

verus! {

/// End (exclusive) of the subtree rooted at `k` in a pre-order array: a leaf
/// ends right after itself, an internal node where its right child ends.
pub open spec fn ext(nodes: Seq<GeoNode>, k: int) -> int
    decreases nodes.len() - k,
{
    if 0 <= k < nodes.len() && !nodes[k].is_leaf && k < nodes[k].value2 < nodes.len() {
        ext(nodes, nodes[k].value2 as int)
    } else {
        k + 1
    }
}

/// Node `k` is a leaf, or an internal node whose left child follows it,
/// whose right child starts where the left subtree ends, and whose box is
/// the union of its children's boxes.
pub open spec fn shaped(nodes: Seq<GeoNode>, k: int) -> bool {
    let n = nodes[k];
    !n.is_leaf ==> {
        &&& n.value1 == k + 1
        &&& k + 1 < n.value2 < nodes.len()
        &&& ext(nodes, k + 1) == n.value2
        &&& n.bbox == union(nodes[k + 1].bbox, nodes[n.value2 as int].bbox)
    }
}

/// Node `p` is internal and `k` is one of its children.
pub open spec fn is_child(nodes: Seq<GeoNode>, p: int, k: int) -> bool {
    !nodes[p].is_leaf && (nodes[p].value1 == k || nodes[p].value2 == k)
}

/// Some node in `nodes[i..k)` is the parent of `k`.
pub open spec fn has_parent(nodes: Seq<GeoNode>, i: int, k: int) -> bool {
    exists|p: int| i <= p < k && #[trigger] is_child(nodes, p, k)
}

/// The split at node `k` is a median split: the left subtree holds half of
/// the subtree's leaves, rounded down.
pub open spec fn balanced(nodes: Seq<GeoNode>, k: int) -> bool {
    !nodes[k].is_leaf ==> leaf_records(nodes, k + 1, nodes[k].value2 as int).len() == leaf_records(
        nodes,
        k,
        ext(nodes, k),
    ).len() / 2
}

/// `nodes[i..e)` hold exactly one pre-order subtree rooted at `i`, split at
/// the median everywhere.
pub open spec fn subtree(nodes: Seq<GeoNode>, i: int, e: int) -> bool {
    &&& 0 <= i < e <= nodes.len()
    &&& ext(nodes, i) == e
    &&& forall|k: int| i <= k < e ==> #[trigger] shaped(nodes, k) && ext(nodes, k) <= e
    &&& forall|k: int| i <= k < e ==> #[trigger] balanced(nodes, k)
    &&& forall|k: int| i < k < e ==> #[trigger] has_parent(nodes, i, k)
}

/// The records of the leaves in `nodes[i..e)`, in index order.
pub open spec fn leaf_records(nodes: Seq<GeoNode>, i: int, e: int) -> Seq<LeafRecord>
    decreases e - i,
{
    if i < e {
        let rest = leaf_records(nodes, i + 1, e);
        if nodes[i].is_leaf {
            seq![nodes[i].record()] + rest
        } else {
            rest
        }
    } else {
        seq![]
    }
}

/// Where a traversal goes once the subtree of `k` is done: the node that
/// follows the subtree, or 0 when the subtree runs to the end.
pub open spec fn successor(nodes: Seq<GeoNode>, k: int) -> int {
    if ext(nodes, k) == nodes.len() {
        0
    } else {
        ext(nodes, k)
    }
}

/// The threading rules at node `k`: a leaf links to the node right after it
/// (0 at the end of the array); an internal node `p` with children `l`, `r`
/// has `l` right after it, `l.next == r`, `r.next == p.next`, a `next`
/// past `r`, and the union of its children's boxes as its box.
pub open spec fn linked(nodes: Seq<GeoNode>, k: int) -> bool {
    let n = nodes[k];
    if n.is_leaf {
        n.next as int == (if k + 1 == nodes.len() {
            0
        } else {
            k + 1
        })
    } else {
        &&& n.value1 == k + 1
        &&& k + 1 < n.value2 < nodes.len()
        &&& nodes[k + 1].next == n.value2
        &&& nodes[n.value2 as int].next == n.next
        &&& (n.next == 0 || n.value2 < n.next < nodes.len())
        &&& n.bbox == union(nodes[k + 1].bbox, nodes[n.value2 as int].bbox)
    }
}

/// A well-formed node array: non-empty, the root first with `next == 0`,
/// and every node threaded.
pub open spec fn threaded(nodes: Seq<GeoNode>) -> bool {
    &&& nodes.len() > 0
    &&& nodes[0].next == 0
    &&& forall|k: int| 0 <= k < nodes.len() ==> #[trigger] linked(nodes, k)
}

pub proof fn lemma_ext_gt(nodes: Seq<GeoNode>, k: int)
    requires
        0 <= k,
    ensures
        ext(nodes, k) > k,
    decreases nodes.len() - k,
{
    if 0 <= k < nodes.len() && !nodes[k].is_leaf && k < nodes[k].value2 < nodes.len() {
        lemma_ext_gt(nodes, nodes[k].value2 as int);
    }
}

pub proof fn lemma_ext_le(nodes: Seq<GeoNode>, k: int)
    requires
        0 <= k < nodes.len(),
    ensures
        ext(nodes, k) <= nodes.len(),
    decreases nodes.len() - k,
{
    if !nodes[k].is_leaf && k < nodes[k].value2 < nodes.len() {
        lemma_ext_le(nodes, nodes[k].value2 as int);
    }
}

/// `ext` of a node reads only the nodes of its own subtree.
pub proof fn lemma_ext_frame(a: Seq<GeoNode>, b: Seq<GeoNode>, k: int, e: int)
    requires
        0 <= k < e <= a.len() <= b.len(),
        forall|j: int| k <= j < e ==> a[j] == b[j],
        forall|j: int| k <= j < e ==> #[trigger] shaped(a, j) && ext(a, j) <= e,
    ensures
        ext(b, k) == ext(a, k),
    decreases e - k,
{
    assert(shaped(a, k));
    if !a[k].is_leaf {
        let v2 = a[k].value2 as int;
        lemma_ext_gt(a, v2);
        lemma_ext_frame(a, b, v2, e);
    }
}

/// A subtree stays one when the nodes around it change.
pub proof fn lemma_subtree_frame(a: Seq<GeoNode>, b: Seq<GeoNode>, i: int, e: int)
    requires
        subtree(a, i, e),
        a.len() <= b.len(),
        forall|j: int| i <= j < e ==> a[j] == b[j],
    ensures
        subtree(b, i, e),
{
    lemma_ext_frame(a, b, i, e);
    assert forall|k: int| i <= k < e implies #[trigger] shaped(b, k) && ext(b, k) <= e by {
        assert(shaped(a, k));
        lemma_ext_frame(a, b, k, e);
        if !a[k].is_leaf {
            let v2 = a[k].value2 as int;
            lemma_ext_gt(a, v2);
            assert(ext(a, k) == ext(a, v2));
            assert(k + 1 < e);
            lemma_ext_frame(a, b, k + 1, e);
        }
    }
    assert forall|k: int| i < k < e implies #[trigger] has_parent(b, i, k) by {
        assert(has_parent(a, i, k));
        let p = choose|p: int| i <= p < k && #[trigger] is_child(a, p, k);
        assert(is_child(b, p, k));
    }
    assert forall|k: int| i <= k < e implies #[trigger] balanced(b, k) by {
        assert(balanced(a, k));
        assert(shaped(a, k));
        lemma_ext_frame(a, b, k, e);
        if !a[k].is_leaf {
            let v2 = a[k].value2 as int;
            lemma_ext_gt(a, v2);
            assert(ext(a, k) == ext(a, v2));
            lemma_records_frame(a, b, k + 1, v2);
            lemma_records_frame(a, b, k, ext(a, k));
        }
    }
}

/// `leaf_records` reads only the leaves in its range.
pub proof fn lemma_records_frame(a: Seq<GeoNode>, b: Seq<GeoNode>, i: int, e: int)
    requires
        0 <= i,
        e <= a.len(),
        e <= b.len(),
        forall|j: int| i <= j < e ==> a[j].is_leaf == b[j].is_leaf,
        forall|j: int| i <= j < e && a[j].is_leaf ==> a[j].record() == b[j].record(),
    ensures
        leaf_records(b, i, e) == leaf_records(a, i, e),
    decreases e - i,
{
    if i < e {
        lemma_records_frame(a, b, i + 1, e);
    }
}

pub proof fn lemma_records_split(nodes: Seq<GeoNode>, i: int, m: int, e: int)
    requires
        i <= m <= e,
    ensures
        leaf_records(nodes, i, e) == leaf_records(nodes, i, m) + leaf_records(nodes, m, e),
    decreases m - i,
{
    if i < m {
        lemma_records_split(nodes, i + 1, m, e);
        assert(leaf_records(nodes, i, m) + leaf_records(nodes, m, e) =~= if nodes[i].is_leaf {
            seq![nodes[i].record()] + (leaf_records(nodes, i + 1, m) + leaf_records(nodes, m, e))
        } else {
            leaf_records(nodes, i + 1, m) + leaf_records(nodes, m, e)
        });
    } else {
        assert(leaf_records(nodes, i, m) =~= seq![]);
        assert(leaf_records(nodes, i, e) =~= leaf_records(nodes, i, m) + leaf_records(nodes, m, e));
    }
}

/// The same node, with only `next` allowed to differ.
pub open spec fn same_but_next(a: GeoNode, b: GeoNode) -> bool {
    a.bbox == b.bbox && a.is_leaf == b.is_leaf && a.value1 == b.value1 && a.value2 == b.value2
}

/// `ext` does not read the `next` links.
pub proof fn lemma_ext_same_shape(a: Seq<GeoNode>, b: Seq<GeoNode>, k: int)
    requires
        a.len() == b.len(),
        forall|j: int| 0 <= j < a.len() ==> same_but_next(#[trigger] a[j], b[j]),
    ensures
        ext(a, k) == ext(b, k),
    decreases a.len() - k,
{
    if 0 <= k < a.len() {
        assert(same_but_next(a[k], b[k]));
        if !a[k].is_leaf && k < a[k].value2 < a.len() {
            lemma_ext_same_shape(a, b, a[k].value2 as int);
        }
    }
}

/// Nor does the shape of a subtree.
pub proof fn lemma_subtree_same_shape(a: Seq<GeoNode>, b: Seq<GeoNode>, i: int, e: int)
    requires
        subtree(a, i, e),
        a.len() == b.len(),
        forall|j: int| 0 <= j < a.len() ==> same_but_next(#[trigger] a[j], b[j]),
    ensures
        subtree(b, i, e),
{
    lemma_ext_same_shape(a, b, i);
    assert forall|k: int| i <= k < e implies #[trigger] shaped(b, k) && ext(b, k) <= e by {
        assert(shaped(a, k));
        assert(same_but_next(a[k], b[k]));
        lemma_ext_same_shape(a, b, k);
        if !a[k].is_leaf {
            lemma_ext_same_shape(a, b, k + 1);
            assert(same_but_next(a[k + 1], b[k + 1]));
            assert(same_but_next(a[a[k].value2 as int], b[a[k].value2 as int]));
        }
    }
    assert forall|k: int| i < k < e implies #[trigger] has_parent(b, i, k) by {
        assert(has_parent(a, i, k));
        let p = choose|p: int| i <= p < k && #[trigger] is_child(a, p, k);
        assert(same_but_next(a[p], b[p]));
        assert(is_child(b, p, k));
    }
    assert forall|j: int| 0 <= j < a.len() implies a[j].is_leaf == b[j].is_leaf && (a[j].is_leaf
        ==> a[j].record() == b[j].record()) by {
        assert(same_but_next(a[j], b[j]));
    }
    assert forall|k: int| i <= k < e implies #[trigger] balanced(b, k) by {
        assert(balanced(a, k));
        assert(shaped(a, k));
        assert(same_but_next(a[k], b[k]));
        lemma_ext_same_shape(a, b, k);
        if !a[k].is_leaf {
            let v2 = a[k].value2 as int;
            lemma_ext_gt(a, v2);
            assert(ext(a, k) == ext(a, v2));
            lemma_records_frame(a, b, k + 1, v2);
            lemma_records_frame(a, b, k, ext(a, k));
        }
    }
}

/// Moving the leaves' byte offsets keeps a tree threaded.
pub proof fn lemma_threaded_offsets(a: Seq<GeoNode>, b: Seq<GeoNode>)
    requires
        threaded(a),
        a.len() == b.len(),
        forall|k: int|
            0 <= k < a.len() ==> (#[trigger] b[k]).is_leaf == a[k].is_leaf && b[k].bbox == a[k].bbox
                && b[k].next == a[k].next && (!a[k].is_leaf ==> b[k] == a[k]),
    ensures
        threaded(b),
{
    assert forall|k: int| 0 <= k < b.len() implies #[trigger] linked(b, k) by {
        assert(linked(a, k));
        assert(b[k].is_leaf == a[k].is_leaf);
        if !a[k].is_leaf {
            assert(b[k + 1].next == a[k + 1].next);
            assert(b[a[k].value2 as int].next == a[a[k].value2 as int].next);
            assert(b[a[k].value2 as int].bbox == a[a[k].value2 as int].bbox);
        }
    }
    assert(b[0].next == a[0].next);
}

} // verus!
