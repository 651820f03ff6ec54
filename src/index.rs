use vstd::prelude::*;
use vstd::seq_lib::lemma_multiset_commutative;
use crate::bbox::{
    boxes_cover, lemma_tight_cover, lemma_tight_one, lemma_tight_same_keys, lemma_tight_union, same_keys,
    tight, union, GeoBBox,
};
use crate::search::{hits, lemma_span_misses, query_cursor, query_leaves};
use crate::node::{GeoEntry, GeoNode, LeafRecord};
use crate::tree::{
    ext, has_parent, is_child, leaf_records, lemma_ext_gt, lemma_records_frame,
    lemma_records_split, lemma_subtree_frame, lemma_subtree_same_shape, same_but_next, linked, shaped, subtree, successor, threaded,
};

verus! {

/// The records of a sequence of entries.
pub open spec fn entry_records(entries: Seq<GeoEntry>) -> Seq<LeafRecord> {
    entries.map_values(|e: GeoEntry| e.record())
}

/// Relies on `slice::sort_unstable_by_key`: afterwards `entries[lo..hi]`
/// holds the same entries, ordered by their key along the chosen axis, and
/// nothing outside that range moves.
#[verifier::external_body]
fn sort_range(entries: &mut Vec<GeoEntry>, lo: usize, hi: usize, by_x: bool)
    requires
        lo <= hi <= old(entries).len(),
    ensures
        final(entries).len() == old(entries).len(),
        forall|k: int|
            0 <= k < old(entries).len() && !(lo <= k < hi) ==> final(entries)[k] == old(entries)[k],
        final(entries)@.subrange(lo as int, hi as int).to_multiset() == old(entries)@.subrange(
            lo as int,
            hi as int,
        ).to_multiset(),
        forall|a: int, b: int|
            lo <= a <= b < hi ==> #[trigger] final(entries)[a].spec_sort_key(by_x)
                <= #[trigger] final(entries)[b].spec_sort_key(by_x),
{
    entries[lo..hi].sort_unstable_by_key(|e| e.sort_key(by_x));
}

/// Along the chosen axis, no entry of `l` comes after an entry of `r`.
pub open spec fn halves_ordered(l: Seq<GeoEntry>, r: Seq<GeoEntry>, by_x: bool) -> bool {
    forall|x: GeoEntry, y: GeoEntry|
        #[trigger] l.to_multiset().contains(x) && #[trigger] r.to_multiset().contains(y)
            ==> x.spec_sort_key(by_x) <= y.spec_sort_key(by_x)
}

/// At internal node `k`, whose leaves carry `perm[a..a + n)` (`a` leaves
/// come before it), the entries of the left subtree come no later than
/// those of the right subtree along one of the two axes.
pub open spec fn split_ordered<F: Fn(&GeoBBox) -> bool>(
    nodes: Seq<GeoNode>,
    perm: Seq<GeoEntry>,
    k: int,
    horizontal: F,
) -> bool {
    !nodes[k].is_leaf ==> {
        let a = leaf_records(nodes, 0, k).len() as int;
        let m = leaf_records(nodes, k + 1, nodes[k].value2 as int).len() as int;
        let n = leaf_records(nodes, k, ext(nodes, k)).len() as int;
        exists|c: GeoBBox|
            #[trigger] same_keys(c, nodes[k].bbox) && axis_ok(
                perm.subrange(a, a + m),
                perm.subrange(a + m, a + n),
                c,
                horizontal,
            )
    }
}

/// The halves are ordered along the axis that `horizontal` chose for the
/// box `c`: x when it said the box is wider than high, else y.
pub open spec fn axis_ok<F: Fn(&GeoBBox) -> bool>(
    l: Seq<GeoEntry>,
    r: Seq<GeoEntry>,
    c: GeoBBox,
    horizontal: F,
) -> bool {
    ||| horizontal.ensures((&c,), true) && halves_ordered(l, r, true)
    ||| horizontal.ensures((&c,), false) && halves_ordered(l, r, false)
}

/// The boxes of a sequence of entries.
pub open spec fn boxes_of(s: Seq<GeoEntry>) -> Seq<GeoBBox> {
    s.map_values(|e: GeoEntry| e.bbox)
}

/// The same entries, in any order, have the same boxes.
proof fn lemma_boxes_same(s1: Seq<GeoEntry>, s2: Seq<GeoEntry>)
    requires
        s1.to_multiset() == s2.to_multiset(),
    ensures
        forall|b: GeoBBox| boxes_of(s1).contains(b) <==> boxes_of(s2).contains(b),
{
    broadcast use vstd::seq_lib::group_to_multiset_ensures;

    assert forall|b: GeoBBox| boxes_of(s1).contains(b) implies boxes_of(s2).contains(b) by {
        let i = choose|i: int| 0 <= i < boxes_of(s1).len() && boxes_of(s1)[i] == b;
        assert(s1.contains(s1[i]));
        assert(s1.to_multiset().count(s1[i]) > 0);
        assert(s2.contains(s1[i]));
        let j = choose|j: int| 0 <= j < s2.len() && s2[j] == s1[i];
        assert(boxes_of(s2)[j] == b);
    }
    assert forall|b: GeoBBox| boxes_of(s2).contains(b) implies boxes_of(s1).contains(b) by {
        let i = choose|i: int| 0 <= i < boxes_of(s2).len() && boxes_of(s2)[i] == b;
        assert(s2.contains(s2[i]));
        assert(s2.to_multiset().count(s2[i]) > 0);
        assert(s1.contains(s2[i]));
        let j = choose|j: int| 0 <= j < s1.len() && s1[j] == s2[i];
        assert(boxes_of(s1)[j] == b);
    }
}

/// Every entry of a permutation of entries without NaN has none.
proof fn lemma_wf_perm(s1: Seq<GeoEntry>, s2: Seq<GeoEntry>)
    requires
        s1.to_multiset() == s2.to_multiset(),
        forall|i: int| 0 <= i < s1.len() ==> (#[trigger] s1[i]).wf(),
    ensures
        forall|i: int| 0 <= i < s2.len() ==> (#[trigger] s2[i]).wf(),
{
    broadcast use vstd::seq_lib::group_to_multiset_ensures;

    assert forall|i: int| 0 <= i < s2.len() implies (#[trigger] s2[i]).wf() by {
        assert(s2.contains(s2[i]));
        assert(s2.to_multiset().count(s2[i]) > 0);
        assert(s1.contains(s2[i]));
    }
}

proof fn lemma_halves_ordered(e1: Seq<GeoEntry>, e3: Seq<GeoEntry>, lo: int, mid: int, hi: int, by_x: bool)
    requires
        0 <= lo <= mid <= hi <= e1.len(),
        hi <= e3.len(),
        forall|a: int, b: int|
            lo <= a <= b < hi ==> #[trigger] e1[a].spec_sort_key(by_x) <= #[trigger] e1[b].spec_sort_key(by_x),
        e3.subrange(lo, mid).to_multiset() == e1.subrange(lo, mid).to_multiset(),
        e3.subrange(mid, hi).to_multiset() == e1.subrange(mid, hi).to_multiset(),
    ensures
        halves_ordered(e3.subrange(lo, mid), e3.subrange(mid, hi), by_x),
{
    broadcast use vstd::seq_lib::group_to_multiset_ensures;

    let l = e1.subrange(lo, mid);
    let r = e1.subrange(mid, hi);
    assert forall|x: GeoEntry, y: GeoEntry|
        #[trigger] e3.subrange(lo, mid).to_multiset().contains(x) && #[trigger] e3.subrange(
            mid,
            hi,
        ).to_multiset().contains(y) implies x.spec_sort_key(by_x) <= y.spec_sort_key(by_x) by {
        assert(l.to_multiset().count(x) > 0);
        assert(r.to_multiset().count(y) > 0);
        assert(l.contains(x));
        assert(r.contains(y));
        let i = choose|i: int| 0 <= i < l.len() && l[i] == x;
        let j = choose|j: int| 0 <= j < r.len() && r[j] == y;
        assert(e1[lo + i] == x && e1[mid + j] == y);
    }
}

/// `split_ordered` at node `k` survives changes that keep `k`'s subtree,
/// the leaves before it, and the entries its leaves carry.
proof fn lemma_split_ordered_frame<F: Fn(&GeoBBox) -> bool>(
    horizontal: F,
    a: Seq<GeoNode>,
    b: Seq<GeoNode>,
    ea: Seq<GeoEntry>,
    eb: Seq<GeoEntry>,
    k: int,
    end: int,
    lo: int,
    hi: int,
)
    requires
        0 <= k < end <= a.len() <= b.len(),
        forall|j: int|
            0 <= j < end ==> a[j].is_leaf == b[j].is_leaf && (a[j].is_leaf ==> a[j].record()
                == b[j].record()),
        forall|j: int| k <= j < end ==> a[j] == b[j],
        forall|j: int| k <= j < end ==> #[trigger] shaped(a, j) && ext(a, j) <= end,
        split_ordered(a, ea, k, horizontal),
        lo <= leaf_records(a, 0, k).len(),
        leaf_records(a, 0, end).len() <= hi,
        0 <= lo,
        hi <= ea.len(),
        hi <= eb.len(),
        forall|i: int| lo <= i < hi ==> ea[i] == eb[i],
    ensures
        split_ordered(b, eb, k, horizontal),
{
    if !a[k].is_leaf {
        assert(shaped(a, k));
        let v2 = a[k].value2 as int;
        assert forall|j: int| k <= j < end implies #[trigger] shaped(a, j) && ext(a, j) <= end by {}
        crate::tree::lemma_ext_frame(a, b, k, end);
        lemma_ext_gt(a, v2);
        assert(ext(a, k) == ext(a, v2));
        let e = ext(a, k);
        lemma_records_frame(a, b, 0, k);
        lemma_records_frame(a, b, k + 1, v2);
        lemma_records_frame(a, b, k, e);
        lemma_records_split(a, 0, k, end);
        lemma_records_split(a, k, e, end);
        let p = leaf_records(a, 0, k).len() as int;
        let m = leaf_records(a, k + 1, v2).len() as int;
        let n = leaf_records(a, k, e).len() as int;
        lemma_records_split(a, k, k + 1, e);
        lemma_records_split(a, k + 1, v2, e);
        assert(leaf_records(a, k, k + 1) =~= seq![]) by {
            assert(leaf_records(a, k + 1, k + 1) =~= seq![]);
        }
        assert(ea.subrange(p, p + m) =~= eb.subrange(p, p + m));
        assert(ea.subrange(p + m, p + n) =~= eb.subrange(p + m, p + n));
    }
}

/// At a new internal node: the union of the children's tight covers is a
/// tight cover of the range, equal as numbers to the cover that
/// `horizontal` was asked about, and the halves are ordered along the axis
/// it chose.
proof fn lemma_root_split<F: Fn(&GeoBBox) -> bool>(
    horizontal: F,
    e0: Seq<GeoEntry>,
    e1: Seq<GeoEntry>,
    e3: Seq<GeoEntry>,
    lo: int,
    mid: int,
    hi: int,
    cover: GeoBBox,
    by_x: bool,
    lb: GeoBBox,
    rb: GeoBBox,
)
    requires
        0 <= lo < mid < hi <= e0.len(),
        e1.len() == e0.len(),
        e3.len() == e0.len(),
        forall|k: int| 0 <= k < e0.len() ==> (#[trigger] e0[k]).wf(),
        cover == boxes_cover(boxes_of(e0.subrange(lo, hi))),
        horizontal.ensures((&cover,), by_x),
        forall|a: int, b: int|
            lo <= a <= b < hi ==> #[trigger] e1[a].spec_sort_key(by_x) <= #[trigger] e1[b].spec_sort_key(by_x),
        e1.subrange(lo, hi).to_multiset() == e0.subrange(lo, hi).to_multiset(),
        e3.subrange(lo, mid).to_multiset() == e1.subrange(lo, mid).to_multiset(),
        e3.subrange(mid, hi).to_multiset() == e1.subrange(mid, hi).to_multiset(),
        tight(lb, boxes_of(e3.subrange(lo, mid))),
        tight(rb, boxes_of(e3.subrange(mid, hi))),
    ensures
        tight(union(lb, rb), boxes_of(e3.subrange(lo, hi))),
        same_keys(cover, union(lb, rb)),
        axis_ok(e3.subrange(lo, mid), e3.subrange(mid, hi), cover, horizontal),
{
    assert(boxes_of(e3.subrange(lo, hi)) =~= boxes_of(e3.subrange(lo, mid)) + boxes_of(
        e3.subrange(mid, hi),
    ));
    lemma_tight_union(lb, boxes_of(e3.subrange(lo, mid)), rb, boxes_of(e3.subrange(mid, hi)));
    let b0 = boxes_of(e0.subrange(lo, hi));
    assert forall|i: int| 0 <= i < b0.len() implies (#[trigger] b0[i]).wf() by {
        assert(e0.subrange(lo, hi)[i] == e0[lo + i]);
    }
    lemma_tight_cover(b0);
    assert(e3.subrange(lo, hi) =~= e3.subrange(lo, mid) + e3.subrange(mid, hi));
    assert(e1.subrange(lo, hi) =~= e1.subrange(lo, mid) + e1.subrange(mid, hi));
    lemma_multiset_commutative(e3.subrange(lo, mid), e3.subrange(mid, hi));
    lemma_multiset_commutative(e1.subrange(lo, mid), e1.subrange(mid, hi));
    lemma_boxes_same(e0.subrange(lo, hi), e3.subrange(lo, hi));
    lemma_tight_same_keys(cover, b0, union(lb, rb), boxes_of(e3.subrange(lo, hi)));
    lemma_halves_ordered(e1, e3, lo, mid, hi, by_x);
}

/// Joining two finished subtrees under a new root keeps every split of
/// theirs ordered, and orders the root's own split.
#[verifier::spinoff_prover]
proof fn lemma_join_splits<F: Fn(&GeoBBox) -> bool>(
    horizontal: F,
    n2: Seq<GeoNode>,
    n3: Seq<GeoNode>,
    ns: Seq<GeoNode>,
    e2: Seq<GeoEntry>,
    e3: Seq<GeoEntry>,
    root: int,
    right: int,
    end: int,
    lo: int,
    mid: int,
    hi: int,
    cover: GeoBBox,
)
    requires
        0 <= root,
        root + 1 < right < end,
        n2.len() == right,
        n3.len() == end,
        ns.len() == end,
        0 <= lo < mid < hi <= e3.len(),
        e2.len() == e3.len(),
        forall|i: int| lo <= i < mid ==> e2[i] == e3[i],
        forall|j: int| 0 <= j < right ==> #[trigger] n3[j] == n2[j],
        forall|j: int| 0 <= j < end && j != root ==> ns[j] == n3[j],
        !n2[root].is_leaf,
        !ns[root].is_leaf,
        ns[root].value2 == right,
        subtree(n2, root + 1, right),
        subtree(n3, right, end),
        subtree(ns, root, end),
        forall|k: int| root + 1 <= k < right ==> #[trigger] split_ordered(n2, e2, k, horizontal),
        forall|k: int| right <= k < end ==> #[trigger] split_ordered(n3, e3, k, horizontal),
        leaf_records(n2, 0, root + 1).len() == lo,
        leaf_records(n2, 0, right).len() == mid,
        leaf_records(n3, 0, end).len() == hi,
        leaf_records(ns, 0, root).len() == lo,
        leaf_records(ns, root + 1, right).len() == mid - lo,
        leaf_records(ns, root, end).len() == hi - lo,
        same_keys(cover, ns[root].bbox),
        axis_ok(e3.subrange(lo, mid), e3.subrange(mid, hi), cover, horizontal),
    ensures
        forall|k: int| root <= k < end ==> #[trigger] split_ordered(ns, e3, k, horizontal),
{
    assert forall|k: int| root <= k < end implies #[trigger] split_ordered(ns, e3, k, horizontal) by {
        if k >= right {
            assert(split_ordered(n3, e3, k, horizontal));
            assert forall|j: int| 0 <= j < end implies n3[j].is_leaf == ns[j].is_leaf && (
            n3[j].is_leaf ==> n3[j].record() == ns[j].record()) by {
                if j == root {
                    assert(n3[root] == n2[root]);
                }
            }
            lemma_split_ordered_frame(horizontal, n3, ns, e3, e3, k, end, 0, hi);
        } else if k > root {
            assert(split_ordered(n2, e2, k, horizontal));
            lemma_records_split(n2, 0, root + 1, k);
            assert forall|j: int| 0 <= j < right implies n2[j].is_leaf == ns[j].is_leaf && (
            n2[j].is_leaf ==> n2[j].record() == ns[j].record()) by {
                if j != root {
                    assert(n3[j] == n2[j]);
                }
            }
            assert forall|j: int| k <= j < right implies n2[j] == ns[j] by {
                assert(n3[j] == n2[j]);
            }
            lemma_split_ordered_frame(horizontal, n2, ns, e2, e3, k, right, lo, mid);
        } else {
            assert(ext(ns, root) == end);
        }
    }
}

/// Builds the subtree over `entries[lo..hi)` at the end of `nodes` and
/// returns the index of its root.
#[verifier::rlimit(100)]
#[verifier::spinoff_prover]
fn build_subtree<H: Fn(&GeoBBox) -> bool>(
    entries: &mut Vec<GeoEntry>,
    lo: usize,
    hi: usize,
    nodes: &mut Vec<GeoNode>,
    horizontal: &H,
) -> (root: usize)
    requires
        lo < hi <= old(entries).len(),
        old(nodes).len() + 2 * (hi - lo) <= usize::MAX,
        forall|b: &GeoBBox| horizontal.requires((b,)),
        leaf_records(old(nodes)@, 0, old(nodes).len() as int).len() == lo,
        forall|k: int| 0 <= k < old(entries).len() ==> (#[trigger] old(entries)[k]).wf(),
    ensures
        root == old(nodes).len(),
        leaf_records(final(nodes)@, 0, final(nodes).len() as int).len() == hi,
        forall|k: int|
            root <= k < final(nodes).len() ==> #[trigger] split_ordered(
                final(nodes)@,
                final(entries)@,
                k,
                horizontal,
            ),
        forall|k: int| 0 <= k < final(entries).len() ==> (#[trigger] final(entries)[k]).wf(),
        tight(final(nodes)@[root as int].bbox, boxes_of(final(entries)@.subrange(lo as int, hi as int))),
        final(nodes).len() == old(nodes).len() + 2 * (hi - lo) - 1,
        final(nodes)@.subrange(0, root as int) == old(nodes)@,
        subtree(final(nodes)@, root as int, final(nodes).len() as int),
        forall|k: int| root <= k < final(nodes).len() ==> (#[trigger] final(nodes)[k]).next == 0,
        final(entries).len() == old(entries).len(),
        forall|k: int|
            0 <= k < old(entries).len() && !(lo <= k < hi) ==> final(entries)[k] == old(entries)[k],
        final(entries)@.subrange(lo as int, hi as int).to_multiset() == old(entries)@.subrange(
            lo as int,
            hi as int,
        ).to_multiset(),
        leaf_records(final(nodes)@, root as int, final(nodes).len() as int) == entry_records(
            final(entries)@.subrange(lo as int, hi as int),
        ),
    decreases hi - lo,
{
    if hi - lo == 1 {
        let root = nodes.len();
        let e = entries[lo];
        nodes.push(GeoNode::new_leaf(e.bbox, e.start, e.length));
        proof {
            let ns = nodes@;
            assert(ns.subrange(0, root as int) =~= old(nodes)@);
            assert(shaped(ns, root as int));
            assert(leaf_records(ns, root + 1, root + 1) =~= seq![]);
            assert(entries@.subrange(lo as int, hi as int) =~= seq![e]);
            assert(leaf_records(ns, root as int, root + 1) =~= entry_records(
                entries@.subrange(lo as int, hi as int),
            ));
            lemma_records_frame(old(nodes)@, ns, 0, root as int);
            lemma_records_split(ns, 0, root as int, root + 1);
            assert(boxes_of(entries@.subrange(lo as int, hi as int)) =~= seq![e.bbox]);
            lemma_tight_one(e.bbox);
        }
        root
    } else {
        let mut cover = GeoBBox::new_empty();
        let mut i: usize = lo;
        proof {
            assert(boxes_of(entries@.subrange(lo as int, lo as int)) =~= seq![]);
        }
        while i < hi
            invariant
                lo <= i <= hi <= entries.len(),
                cover == boxes_cover(boxes_of(entries@.subrange(lo as int, i as int))),
            decreases hi - i,
        {
            proof {
                let bs = boxes_of(entries@.subrange(lo as int, i + 1));
                assert(bs.drop_last() =~= boxes_of(entries@.subrange(lo as int, i as int)));
                assert(bs.last() == entries@[i as int].bbox);
            }
            cover.include_bbox(&entries[i].bbox);
            i += 1;
        }
        let by_x = horizontal(&cover);
        let ghost e0 = entries@;
        sort_range(entries, lo, hi, by_x);
        let ghost e1 = entries@;
        proof {
            lemma_wf_perm(e0.subrange(lo as int, hi as int), e1.subrange(lo as int, hi as int));
            assert forall|k: int| 0 <= k < e1.len() implies (#[trigger] e1[k]).wf() by {
                if lo <= k < hi {
                    assert(e1.subrange(lo as int, hi as int)[k - lo] == e1[k]);
                    assert(e0.subrange(lo as int, hi as int)[k - lo] == e0[k]);
                } else {
                    assert(e1[k] == e0[k]);
                }
            }
        }
        let mid = lo + (hi - lo) / 2;
        let root = nodes.len();
        nodes.push(GeoNode::new_node(cover));
        let ghost n1 = nodes@;
        proof {
            lemma_records_frame(old(nodes)@, n1, 0, root as int);
            lemma_records_split(n1, 0, root as int, root + 1);
            assert(leaf_records(n1, root + 1, root + 1) =~= seq![]);
        }
        let left = build_subtree(entries, lo, mid, nodes, horizontal);
        proof {
            let n2 = nodes@;
            assert(n2.subrange(0, left as int) =~= n1);
            lemma_records_frame(n1, n2, 0, left as int);
            lemma_records_split(n2, 0, left as int, n2.len() as int);
        }
        let ghost e2 = entries@;
        let ghost n2 = nodes@;
        let right = build_subtree(entries, mid, hi, nodes, horizontal);
        let ghost e3 = entries@;
        let ghost n3 = nodes@;
        let end = nodes.len();
        let node = GeoNode {
            bbox: crate::bbox::union_of(&nodes[left].bbox, &nodes[right].bbox),
            is_leaf: false,
            value1: left,
            value2: right,
            next: 0,
        };
        nodes.set(root, node);
        proof {
            let ns = nodes@;
            // the earlier nodes are untouched
            assert(n2.subrange(0, left as int) =~= n1);
            assert(n3.subrange(0, right as int) =~= n2);
            assert forall|j: int| 0 <= j < root implies ns[j] == old(nodes)@[j] by {
                assert(n3.subrange(0, right as int)[j] == n2[j]);
                assert(n2.subrange(0, left as int)[j] == n1[j]);
            }
            assert(ns.subrange(0, root as int) =~= old(nodes)@);
            // both subtrees survive the later changes
            lemma_subtree_frame(n2, ns, left as int, right as int);
            lemma_subtree_frame(n3, ns, right as int, end as int);
            assert(shaped(ns, root as int));
            assert forall|k: int| root <= k < end implies (#[trigger] ns[k]).next == 0 by {
                if k >= right {
                    assert(ns[k] == n3[k]);
                } else if k > root {
                    assert(ns[k] == n3[k]);
                    assert(n3[k] == n2[k]);
                }
            }
            lemma_ext_gt(ns, right as int);
            assert(ext(ns, root as int) == end);
            assert forall|k: int| root <= k < end implies #[trigger] shaped(ns, k) && ext(ns, k)
                <= end by {
                if k >= right {
                    assert(subtree(ns, right as int, end as int));
                    assert(shaped(ns, k));
                    assert(ext(ns, k) <= end);
                } else if k > root {
                    assert(subtree(ns, left as int, right as int));
                    assert(left <= k < right);
                    assert(shaped(ns, k));
                    assert(ext(ns, k) <= right);
                }
            }
            assert forall|k: int| root < k < end implies #[trigger] has_parent(ns, root as int, k) by {
                if k == left || k == right {
                    assert(is_child(ns, root as int, k));
                } else if k < right {
                    assert(has_parent(ns, left as int, k));
                    let p = choose|p: int| left <= p < k && #[trigger] is_child(ns, p, k);
                    assert(is_child(ns, p, k));
                } else {
                    assert(has_parent(ns, right as int, k));
                    let p = choose|p: int| right <= p < k && #[trigger] is_child(ns, p, k);
                    assert(is_child(ns, p, k));
                }
            }
            // records of the leaves
            lemma_records_frame(n2, ns, left as int, right as int);
            lemma_records_frame(n3, ns, right as int, end as int);
            lemma_records_split(ns, root as int, left as int, end as int);
            lemma_records_split(ns, left as int, right as int, end as int);
            assert(leaf_records(ns, root as int, left as int) =~= seq![]) by {
                assert(leaf_records(ns, left as int, left as int) =~= seq![]);
            }
            assert(e3.subrange(lo as int, mid as int) =~= e2.subrange(lo as int, mid as int));
            assert(e3.subrange(lo as int, hi as int) =~= e3.subrange(lo as int, mid as int)
                + e3.subrange(mid as int, hi as int));
            assert(entry_records(e3.subrange(lo as int, hi as int)) =~= entry_records(
                e3.subrange(lo as int, mid as int),
            ) + entry_records(e3.subrange(mid as int, hi as int)));
            // the entries in range are a permutation of the input
            assert(e2.subrange(mid as int, hi as int) =~= e1.subrange(mid as int, hi as int));
            assert(e1.subrange(lo as int, hi as int) =~= e1.subrange(lo as int, mid as int)
                + e1.subrange(mid as int, hi as int));
            lemma_multiset_commutative(
                e1.subrange(lo as int, mid as int),
                e1.subrange(mid as int, hi as int),
            );
            lemma_multiset_commutative(
                e3.subrange(lo as int, mid as int),
                e3.subrange(mid as int, hi as int),
            );
            assert(entry_records(e3.subrange(lo as int, mid as int)).len() == mid - lo);
            assert(entry_records(e3.subrange(lo as int, hi as int)).len() == hi - lo);
            // the leaves before each node, and how entries are split
            lemma_records_frame(n3, ns, 0, end as int);
            lemma_records_split(ns, 0, root as int, end as int);
            lemma_records_frame(old(nodes)@, ns, 0, root as int);
            assert(leaf_records(ns, 0, end as int).len() == hi);
            lemma_records_frame(n2, ns, 0, right as int);
            assert(ns[left as int] == n2[left as int]);
            assert(ns[right as int] == n3[right as int]);
            lemma_root_split(
                horizontal,
                e0,
                e1,
                e3,
                lo as int,
                mid as int,
                hi as int,
                cover,
                by_x,
                n2[left as int].bbox,
                n3[right as int].bbox,
            );
            assert(leaf_records(ns, 0, root as int).len() == lo);
            assert(same_keys(cover, ns[root as int].bbox));
            assert forall|j: int| 0 <= j < end && j != root implies ns[j] == n3[j] by {}
            assert forall|j: int| 0 <= j < right implies #[trigger] n3[j] == n2[j] by {
                assert(n3.subrange(0, right as int)[j] == n2[j]);
            }
            lemma_join_splits(
                horizontal,
                n2,
                n3,
                ns,
                e2,
                e3,
                root as int,
                right as int,
                end as int,
                lo as int,
                mid as int,
                hi as int,
                cover,
            );
            assert forall|k: int| root <= k < end implies #[trigger] crate::tree::balanced(ns, k) by {
                if k >= right {
                    assert(subtree(ns, right as int, end as int));
                    assert(crate::tree::balanced(ns, k));
                } else if k > root {
                    assert(subtree(ns, left as int, right as int));
                    assert(crate::tree::balanced(ns, k));
                } else {
                    assert(ext(ns, root as int) == end);
                    assert(leaf_records(ns, left as int, right as int).len() == mid - lo);
                    assert(leaf_records(ns, root as int, end as int).len() == hi - lo);
                    assert((hi - lo) / 2 == mid - lo);
                }
            }
        }
        root
    }
}

/// Fills the `next` links of a freshly built tree: for every internal node
/// `p` with children `l` and `r`, in index order, `l.next = r` and
/// `r.next = p.next`.
fn thread(nodes: &mut Vec<GeoNode>)
    requires
        subtree(old(nodes)@, 0, old(nodes).len() as int),
        old(nodes)[0].next == 0,
    ensures
        final(nodes).len() == old(nodes).len(),
        forall|k: int| 0 <= k < old(nodes).len() ==> same_but_next(#[trigger] final(nodes)[k], old(nodes)[k]),
        threaded(final(nodes)@),
{
    let ghost n0 = nodes@;
    let len = nodes.len();
    let mut i: usize = 0;
    while i < len
        invariant
            len == n0.len() == nodes.len(),
            subtree(n0, 0, len as int),
            0 <= i <= len,
            nodes[0].next == 0,
            forall|k: int| 0 <= k < len ==> same_but_next(#[trigger] nodes[k], n0[k]),
            forall|p: int, k: int|
                0 <= p < i && 0 <= k < len && #[trigger] is_child(n0, p, k) ==> nodes[k].next
                    == successor(n0, k),
        decreases len - i,
    {
        let n = nodes[i];
        if !n.is_leaf {
            proof {
                assert(shaped(n0, i as int));
                lemma_ext_gt(n0, n.value2 as int);
                if i > 0 {
                    assert(has_parent(n0, 0, i as int));
                }
                assert(n.next == successor(n0, i as int));
                assert(is_child(n0, i as int, i + 1));
                assert(is_child(n0, i as int, n.value2 as int));
            }
            proof {
                assert(ext(n0, i as int) == ext(n0, n.value2 as int));
                assert(successor(n0, i + 1) == n.value2);
            }
            let ghost before = nodes@;
            let mut l = nodes[n.value1];
            l.next = n.value2;
            nodes.set(n.value1, l);
            let mut r = nodes[n.value2];
            r.next = n.next;
            nodes.set(n.value2, r);
            proof {
                assert forall|p: int, k: int|
                    0 <= p < i + 1 && 0 <= k < len && #[trigger] is_child(n0, p, k) implies nodes[k].next
                    == successor(n0, k) by {
                    if k != n.value1 && k != n.value2 {
                        assert(nodes[k] == before[k]);
                    }
                }
                assert forall|k: int| 0 <= k < len implies same_but_next(#[trigger] nodes[k], n0[k]) by {
                    assert(same_but_next(before[k], n0[k]));
                }
            }
        }
        i += 1;
    }
    proof {
        assert forall|k: int| 0 <= k < len implies nodes[k].next == successor(n0, k) by {
            if k > 0 {
                assert(has_parent(n0, 0, k));
            }
        }
        assert forall|k: int| 0 <= k < len implies #[trigger] linked(nodes@, k) by {
            assert(shaped(n0, k));
            assert(same_but_next(nodes[k], n0[k]));
            if !n0[k].is_leaf {
                let v2 = n0[k].value2 as int;
                lemma_ext_gt(n0, v2);
                assert(ext(n0, k) == ext(n0, v2));
                assert(same_but_next(nodes[k + 1], n0[k + 1]));
                assert(same_but_next(nodes[v2], n0[v2]));
                assert(nodes[k + 1].next == successor(n0, k + 1));
                assert(nodes[v2].next == successor(n0, v2));
                assert(nodes[k].next == successor(n0, k));
                assert(ext(n0, k) <= len);
            } else {
                assert(ext(n0, k) == k + 1);
                assert(nodes[k].next == successor(n0, k));
            }
        }
    }
}

/// Why a tree could not be built.
#[derive(Clone, Copy, PartialEq, Eq, Structural, Debug)]
pub enum BuildError {
    /// The input holds no record.
    NoRecords,
    /// A coordinate or a sort key of some record is a NaN.
    InvalidCoordinate,
}

/// The spatial index: a flat array of nodes, root first.
#[derive(Debug)]
pub struct GeoIndex {
    pub nodes: Vec<GeoNode>,
}

/// `nodes` is the tree over `entries`: a pre-order tree split at the median
/// everywhere, with one leaf per entry carrying the entry's box, offset and
/// length, and one internal node fewer than leaves.
pub open spec fn built_from<F: Fn(&GeoBBox) -> bool>(
    nodes: Seq<GeoNode>,
    entries: Seq<GeoEntry>,
    horizontal: F,
) -> bool {
    &&& nodes.len() == 2 * entries.len() - 1
    &&& subtree(nodes, 0, nodes.len() as int)
    &&& exists|perm: Seq<GeoEntry>|
        {
            &&& perm.to_multiset() == entries.to_multiset()
            &&& leaf_records(nodes, 0, nodes.len() as int) == entry_records(perm)
            &&& forall|k: int|
                0 <= k < nodes.len() ==> #[trigger] split_ordered(nodes, perm, k, horizontal)
        }
}

/// Moving `next` links keeps every split ordered.
proof fn lemma_split_ordered_same_shape<F: Fn(&GeoBBox) -> bool>(
    horizontal: F,
    a: Seq<GeoNode>,
    b: Seq<GeoNode>,
    e: Seq<GeoEntry>,
    k: int,
)
    requires
        0 <= k < a.len(),
        a.len() == b.len(),
        forall|j: int| 0 <= j < a.len() ==> same_but_next(#[trigger] a[j], b[j]),
        shaped(a, k),
        split_ordered(a, e, k, horizontal),
    ensures
        split_ordered(b, e, k, horizontal),
{
    assert(same_but_next(a[k], b[k]));
    assert forall|j: int| 0 <= j < a.len() implies a[j].is_leaf == b[j].is_leaf && (a[j].is_leaf
        ==> a[j].record() == b[j].record()) by {
        assert(same_but_next(a[j], b[j]));
    }
    crate::tree::lemma_ext_same_shape(a, b, k);
    if !a[k].is_leaf {
        lemma_records_frame(a, b, 0, k);
        lemma_records_frame(a, b, k + 1, a[k].value2 as int);
        crate::tree::lemma_ext_le(a, k);
        lemma_records_frame(a, b, k, ext(a, k));
    }
}

impl GeoIndex {
    /// Bulk-loads the tree over `entries` by median splits.
    ///
    /// Each group of entries is ordered along the x axis when `horizontal`
    /// says its covering box is wider than high, else along the y axis; the
    /// lower half goes left. The nodes are laid out in pre-order and then
    /// threaded.
    pub fn create<H: Fn(&GeoBBox) -> bool>(entries: Vec<GeoEntry>, horizontal: H) -> (r: Result<
        GeoIndex,
        BuildError,
    >)
        requires
            entries.len() <= usize::MAX / 2,
            forall|b: &GeoBBox| horizontal.requires((b,)),
        ensures
            r == Err::<GeoIndex, BuildError>(BuildError::NoRecords) <==> entries.len() == 0,
            r == Err::<GeoIndex, BuildError>(BuildError::InvalidCoordinate) <==> entries.len() > 0
                && exists|k: int| 0 <= k < entries.len() && !(#[trigger] entries[k]).wf(),
            r is Ok ==> threaded(r->Ok_0.nodes@) && built_from(r->Ok_0.nodes@, entries@, &horizontal),
    {
        if entries.len() == 0 {
            return Err(BuildError::NoRecords);
        }
        let mut k: usize = 0;
        while k < entries.len()
            invariant
                0 <= k <= entries.len(),
                forall|j: int| 0 <= j < k ==> (#[trigger] entries[j]).wf(),
            decreases entries.len() - k,
        {
            if !entries[k].check() {
                return Err(BuildError::InvalidCoordinate);
            }
            k += 1;
        }
        let mut entries = entries;
        let ghost e0 = entries@;
        let mut nodes: Vec<GeoNode> = Vec::new();
        let n = entries.len();
        assert(leaf_records(nodes@, 0, 0) =~= seq![]);
        build_subtree(&mut entries, 0, n, &mut nodes, &horizontal);
        let ghost n1 = nodes@;
        thread(&mut nodes);
        proof {
            assert(entries@.subrange(0, n as int) =~= entries@);
            assert(e0.subrange(0, n as int) =~= e0);
            lemma_records_frame(n1, nodes@, 0, nodes.len() as int);
            lemma_subtree_same_shape(n1, nodes@, 0, nodes.len() as int);
            assert forall|k: int| 0 <= k < nodes.len() implies #[trigger] split_ordered(
                nodes@,
                entries@,
                k,
                &horizontal,
            ) by {
                assert(shaped(n1, k));
                lemma_split_ordered_same_shape(&horizontal, n1, nodes@, entries@, k);
            }
        }
        Ok(GeoIndex { nodes })
    }

    /// Returns up to `max_count` leaves whose boxes overlap `bbox`, visiting
    /// the tree from node `start_index` (0 is the root), and the cursor to
    /// resume from; a cursor of 0 means the traversal is complete.
    pub fn query_bbox(&self, bbox: &GeoBBox, start_index: usize, max_count: usize) -> (r: (
        Vec<GeoNode>,
        usize,
    ))
        requires
            threaded(self.nodes@),
            start_index < self.nodes.len(),
        ensures
            r.0@ == query_leaves(self.nodes@, *bbox, start_index as int, max_count as int),
            r.1 == query_cursor(self.nodes@, *bbox, start_index as int, max_count as int),
    {
        let ghost ns = self.nodes@;
        let ghost q = *bbox;
        let ghost c = start_index as int;
        let mut leaves: Vec<GeoNode> = Vec::new();
        if max_count == 0 {
            proof {
                assert(hits(ns, q, c).take(0) =~= seq![]);
            }
            return (leaves, start_index);
        }
        let mut index = start_index;
        let ghost mut taken: Seq<int> = seq![];
        loop
            invariant
                threaded(ns),
                ns == self.nodes@,
                q == *bbox,
                c == start_index as int,
                0 < max_count,
                0 <= index < ns.len(),
                hits(ns, q, c) == taken + hits(ns, q, index as int),
                leaves@ == taken.map_values(|j: int| ns[j]),
                taken.len() < max_count,
            decreases ns.len() - index,
        {
            let node = self.nodes[index];
            proof {
                assert(linked(ns, index as int));
            }
            if node.bbox.overlap_bbox(bbox) {
                if node.is_leaf {
                    leaves.push(node);
                    proof {
                        assert(hits(ns, q, index as int) == seq![index as int] + hits(
                            ns,
                            q,
                            index + 1,
                        ));
                        assert(taken + hits(ns, q, index as int) =~= taken.push(index as int)
                            + hits(ns, q, index + 1));
                        taken = taken.push(index as int);
                        assert(leaves@ =~= taken.map_values(|j: int| ns[j]));
                    }
                    index = node.next;
                    if leaves.len() >= max_count {
                        proof {
                            let h = hits(ns, q, c);
                            assert(h.take(max_count as int) =~= taken);
                            assert(h[max_count - 1] == taken.last());
                        }
                        return (leaves, index);
                    }
                    if index == 0 {
                        proof {
                            assert(hits(ns, q, ns.len() as int) =~= seq![]);
                            assert(hits(ns, q, c) =~= taken);
                            assert(hits(ns, q, c).take(taken.len() as int) =~= taken);
                            assert(query_leaves(ns, q, c, max_count as int) =~= leaves@);
                        }
                        return (leaves, index);
                    }
                } else {
                    index = node.value1;
                }
            } else {
                proof {
                    lemma_span_misses(ns, q, index as int);
                }
                index = node.next;
                if index == 0 {
                    proof {
                        assert(hits(ns, q, ns.len() as int) =~= seq![]);
                        assert(hits(ns, q, c) =~= taken);
                        assert(hits(ns, q, c).take(taken.len() as int) =~= taken);
                        assert(query_leaves(ns, q, c, max_count as int) =~= leaves@);
                    }
                    return (leaves, index);
                }
            }
        }
    }

    /// Whether the nodes form a well-formed threaded tree.
    pub fn is_threaded(&self) -> (r: bool)
        ensures
            r == threaded(self.nodes@),
    {
        let len = self.nodes.len();
        if len == 0 || self.nodes[0].next != 0 {
            return false;
        }
        let mut k: usize = 0;
        while k < len
            invariant
                len == self.nodes.len(),
                0 <= k <= len,
                forall|j: int| 0 <= j < k ==> #[trigger] linked(self.nodes@, j),
            decreases len - k,
        {
            let n = self.nodes[k];
            let ok = if n.is_leaf {
                n.next == (if k + 1 == len {
                    0
                } else {
                    k + 1
                })
            } else {
                n.value1 == k + 1 && k + 1 < n.value2 && n.value2 < len && self.nodes[k
                    + 1].next == n.value2 && self.nodes[n.value2].next == n.next && (n.next == 0 || (
                n.value2 < n.next && n.next < len)) && n.bbox == crate::bbox::union_of(
                    &self.nodes[k + 1].bbox,
                    &self.nodes[n.value2].bbox,
                )
            };
            if !ok {
                assert(!linked(self.nodes@, k as int));
                return false;
            }
            k += 1;
        }
        true
    }

    /// Whether every leaf's byte range lies inside a buffer of `len` bytes.
    pub fn leaves_within(&self, len: usize) -> (r: bool)
        ensures
            r == leaves_within(self.nodes@, len as int),
    {
        let mut k: usize = 0;
        while k < self.nodes.len()
            invariant
                0 <= k <= self.nodes.len(),
                forall|j: int| 0 <= j < k ==> #[trigger] leaf_within(self.nodes@, len as int, j),
            decreases self.nodes.len() - k,
        {
            let n = self.nodes[k];
            if n.is_leaf && (n.value1 > len || n.value2 > len - n.value1) {
                assert(!leaf_within(self.nodes@, len as int, k as int));
                return false;
            }
            k += 1;
        }
        true
    }

    /// Copies the bytes of every leaf, in index order, from `source` into a
    /// new packed table and points each leaf at its bytes there. Fails,
    /// changing nothing, when some leaf's range lies outside `source`.
    pub fn rewrite_table(&mut self, source: &[u8]) -> (r: Result<Vec<u8>, TableError>)
        ensures
            r is Err <==> !leaves_within(old(self).nodes@, source@.len() as int),
            r is Err ==> final(self).nodes@ == old(self).nodes@,
            r is Ok ==> {
                let table = r->Ok_0@;
                let (a, b) = (old(self).nodes@, final(self).nodes@);
                &&& table == packed(a, source@, a.len() as int)
                &&& threaded(a) ==> threaded(b)
                &&& b.len() == a.len()
                &&& forall|k: int|
                    0 <= k < a.len() ==> (#[trigger] b[k]) == (if a[k].is_leaf {
                        GeoNode { value1: packed(a, source@, k).len() as usize, ..a[k] }
                    } else {
                        a[k]
                    })
                &&& forall|k: int|
                    0 <= k < a.len() && a[k].is_leaf ==> table.subrange(
                        b[k].value1 as int,
                        b[k].value1 + b[k].value2,
                    ) == source@.subrange(a[k].value1 as int, a[k].value1 + a[k].value2)
            },
    {
        if !self.leaves_within(source.len()) {
            return Err(TableError::OutOfRange);
        }
        let ghost a = self.nodes@;
        let mut table: Vec<u8> = Vec::new();
        let mut i: usize = 0;
        while i < self.nodes.len()
            invariant
                a.len() == self.nodes.len(),
                leaves_within(a, source@.len() as int),
                0 <= i <= a.len(),
                table@ == packed(a, source@, i as int),
                forall|k: int| i <= k < a.len() ==> #[trigger] self.nodes@[k] == a[k],
                forall|k: int|
                    0 <= k < i ==> (#[trigger] self.nodes@[k]) == (if a[k].is_leaf {
                        GeoNode { value1: packed(a, source@, k).len() as usize, ..a[k] }
                    } else {
                        a[k]
                    }),
                forall|k: int|
                    0 <= k < i && a[k].is_leaf ==> table@.subrange(
                        (#[trigger] self.nodes@[k]).value1 as int,
                        self.nodes@[k].value1 + self.nodes@[k].value2,
                    ) == source@.subrange(a[k].value1 as int, a[k].value1 + a[k].value2),
            decreases a.len() - i,
        {
            let n = self.nodes[i];
            if n.is_leaf {
                proof {
                    assert(n == a[i as int]);
                    assert(leaf_within(a, source@.len() as int, i as int));
                    assert(source@.len() == source.len());
                }
                let ghost before = table@;
                let start = table.len();
                table.extend_from_slice(&source[n.value1..n.value1 + n.value2]);
                let mut m = n;
                m.value1 = start;
                self.nodes.set(i, m);
                proof {
                    assert forall|k: int| 0 <= k < i && a[k].is_leaf implies table@.subrange(
                        (#[trigger] self.nodes@[k]).value1 as int,
                        self.nodes@[k].value1 + self.nodes@[k].value2,
                    ) == source@.subrange(a[k].value1 as int, a[k].value1 + a[k].value2) by {
                        lemma_packed_len(a, source@, k + 1, i as int);
                        assert(leaf_within(a, source@.len() as int, k));
                        assert(packed(a, source@, k + 1).len() == packed(a, source@, k).len()
                            + a[k].value2);
                        assert(table@.subrange(
                            self.nodes@[k].value1 as int,
                            self.nodes@[k].value1 + self.nodes@[k].value2,
                        ) =~= before.subrange(
                            self.nodes@[k].value1 as int,
                            self.nodes@[k].value1 + self.nodes@[k].value2,
                        ));
                    }
                    assert(table@.subrange(start as int, start + n.value2) =~= source@.subrange(
                        n.value1 as int,
                        n.value1 + n.value2,
                    ));
                }
            }
            i += 1;
        }
        proof {
            if threaded(a) {
                crate::tree::lemma_threaded_offsets(a, self.nodes@);
            }
        }
        Ok(table)
    }
}

/// Why the packed table could not be written.
#[derive(Clone, Copy, PartialEq, Eq, Structural, Debug)]
pub enum TableError {
    /// A leaf's byte range lies outside the source.
    OutOfRange,
}

/// Leaf `k`, if it is one, addresses bytes inside a buffer of `len` bytes.
pub open spec fn leaf_within(nodes: Seq<GeoNode>, len: int, k: int) -> bool {
    nodes[k].is_leaf ==> nodes[k].value1 + nodes[k].value2 <= len
}

pub open spec fn leaves_within(nodes: Seq<GeoNode>, len: int) -> bool {
    forall|k: int| 0 <= k < nodes.len() ==> #[trigger] leaf_within(nodes, len, k)
}

/// The bytes of the leaves among the first `n` nodes, in index order.
pub open spec fn packed(nodes: Seq<GeoNode>, source: Seq<u8>, n: int) -> Seq<u8>
    decreases n,
{
    if 0 < n <= nodes.len() {
        let prev = packed(nodes, source, n - 1);
        let m = nodes[n - 1];
        if m.is_leaf {
            prev + source.subrange(m.value1 as int, m.value1 + m.value2)
        } else {
            prev
        }
    } else {
        seq![]
    }
}

/// The packed bytes only grow: those of the first `n` nodes begin those of
/// the first `m`.
pub proof fn lemma_packed_len(nodes: Seq<GeoNode>, source: Seq<u8>, n: int, m: int)
    requires
        0 <= n <= m <= nodes.len(),
        leaves_within(nodes, source.len() as int),
    ensures
        packed(nodes, source, n).len() <= packed(nodes, source, m).len(),
        packed(nodes, source, m).subrange(0, packed(nodes, source, n).len() as int) == packed(
            nodes,
            source,
            n,
        ),
    decreases m - n,
{
    if n < m {
        lemma_packed_len(nodes, source, n, m - 1);
        assert(leaf_within(nodes, source.len() as int, m - 1));
        let pm = packed(nodes, source, m);
        let pm1 = packed(nodes, source, m - 1);
        let pn = packed(nodes, source, n);
        assert(pm.subrange(0, pm1.len() as int) =~= pm1);
        assert(pm.subrange(0, pn.len() as int) =~= pm1.subrange(0, pn.len() as int));
    } else {
        assert(packed(nodes, source, m).subrange(0, packed(nodes, source, n).len() as int) =~= packed(
            nodes,
            source,
            n,
        ));
    }
}

} // verus!
