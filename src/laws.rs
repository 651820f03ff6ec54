use vstd::prelude::*;
use crate::bbox::{GeoBBox, overlaps, union};
use crate::index::{built_from, entry_records, split_ordered};
use crate::node::{GeoEntry, GeoNode, LeafRecord};
use crate::search::{
    hits, lemma_hits_elems, lemma_hits_split, query_cursor, query_leaves, step_after,
};
use crate::tree::{leaf_records, linked, threaded};

verus! {

broadcast use vstd::seq_lib::group_to_multiset_ensures;

/// Every internal node's box is exactly the union of its children's boxes.
pub proof fn lemma_coverage(nodes: Seq<GeoNode>, i: int)
    requires
        threaded(nodes),
        0 <= i < nodes.len(),
        !nodes[i].is_leaf,
    ensures
        nodes[i].bbox == union(
            nodes[nodes[i].value1 as int].bbox,
            nodes[nodes[i].value2 as int].bbox,
        ),
{
    assert(linked(nodes, i));
}

/// Both children of an internal node come after it, the right one after the
/// left one.
pub proof fn lemma_preorder(nodes: Seq<GeoNode>, i: int)
    requires
        threaded(nodes),
        0 <= i < nodes.len(),
        !nodes[i].is_leaf,
    ensures
        i < nodes[i].value1 < nodes[i].value2 < nodes.len(),
{
    assert(linked(nodes, i));
}

/// The nodes that following the threads visits from `i`: an internal node
/// descends to its left child, a leaf goes on to its `next`, and 0 ends the
/// walk. Only the leaves visited are listed.
pub open spec fn walk(nodes: Seq<GeoNode>, i: int) -> Seq<int>
    decreases nodes.len() - i,
{
    if 0 <= i < nodes.len() {
        if nodes[i].is_leaf {
            if i < nodes[i].next < nodes.len() {
                seq![i] + walk(nodes, nodes[i].next as int)
            } else {
                seq![i]
            }
        } else if i < nodes[i].value1 < nodes.len() {
            walk(nodes, nodes[i].value1 as int)
        } else {
            seq![]
        }
    } else {
        seq![]
    }
}

/// The positions of the leaves at or after `i`, in index order.
pub open spec fn leaf_positions(nodes: Seq<GeoNode>, i: int) -> Seq<int>
    decreases nodes.len() - i,
{
    if 0 <= i < nodes.len() {
        if nodes[i].is_leaf {
            seq![i] + leaf_positions(nodes, i + 1)
        } else {
            leaf_positions(nodes, i + 1)
        }
    } else {
        seq![]
    }
}

proof fn lemma_walk_from(nodes: Seq<GeoNode>, i: int)
    requires
        threaded(nodes),
        0 <= i <= nodes.len(),
    ensures
        walk(nodes, i) == leaf_positions(nodes, i),
        leaf_positions(nodes, i).len() == leaf_records(nodes, i, nodes.len() as int).len(),
        forall|k: int|
            0 <= k < leaf_positions(nodes, i).len() ==> i <= #[trigger] leaf_positions(nodes, i)[k]
                < nodes.len() && nodes[leaf_positions(nodes, i)[k]].is_leaf,
        forall|a: int, b: int|
            0 <= a < b < leaf_positions(nodes, i).len() ==> #[trigger] leaf_positions(nodes, i)[a]
                < #[trigger] leaf_positions(nodes, i)[b],
        forall|j: int|
            i <= j < nodes.len() && nodes[j].is_leaf ==> #[trigger] leaf_positions(
                nodes,
                i,
            ).contains(j),
    decreases nodes.len() - i,
{
    if i < nodes.len() {
        assert(linked(nodes, i));
        lemma_walk_from(nodes, i + 1);
        let lp = leaf_positions(nodes, i);
        let rest = leaf_positions(nodes, i + 1);
        if nodes[i].is_leaf {
            if i + 1 == nodes.len() {
                assert(rest =~= seq![]);
            }
            assert forall|k: int| 0 < k < lp.len() implies #[trigger] lp[k] == rest[k - 1] by {}
            assert forall|k: int| 0 <= k < lp.len() implies i <= #[trigger] lp[k] < nodes.len()
                && nodes[lp[k]].is_leaf by {
                if k > 0 {
                    assert(lp[k] == rest[k - 1]);
                }
            }
            assert forall|a: int, b: int| 0 <= a < b < lp.len() implies #[trigger] lp[a]
                < #[trigger] lp[b] by {
                assert(lp[b] == rest[b - 1]);
                if a > 0 {
                    assert(lp[a] == rest[a - 1]);
                }
            }
            assert forall|j: int| i <= j < nodes.len() && nodes[j].is_leaf implies #[trigger] lp.contains(
                j,
            ) by {
                if j == i {
                    assert(lp[0] == i);
                } else {
                    assert(rest.contains(j));
                    let k = choose|k: int| 0 <= k < rest.len() && rest[k] == j;
                    assert(lp[k + 1] == j);
                }
            }
        }
    }
}

/// Following the threads from the root visits every leaf exactly once, in
/// index order, and then stops: as many leaves as the tree holds.
pub proof fn lemma_thread_walk(nodes: Seq<GeoNode>)
    requires
        threaded(nodes),
    ensures
        walk(nodes, 0).len() == leaf_records(nodes, 0, nodes.len() as int).len(),
        forall|j: int| 0 <= j < nodes.len() && nodes[j].is_leaf ==> #[trigger] walk(nodes, 0).contains(j),
        forall|k: int| 0 <= k < walk(nodes, 0).len() ==> nodes[#[trigger] walk(nodes, 0)[k]].is_leaf,
        forall|a: int, b: int|
            0 <= a < b < walk(nodes, 0).len() ==> #[trigger] walk(nodes, 0)[a] < #[trigger] walk(
                nodes,
                0,
            )[b],
{
    lemma_walk_from(nodes, 0);
}

/// Every leaf that a query returns overlaps the query box.
pub proof fn lemma_query_sound(nodes: Seq<GeoNode>, q: GeoBBox, c: int, cap: int)
    requires
        0 <= c,
        0 <= cap,
    ensures
        forall|i: int|
            0 <= i < query_leaves(nodes, q, c, cap).len() ==> (#[trigger] query_leaves(
                nodes,
                q,
                c,
                cap,
            )[i]).is_leaf && overlaps(query_leaves(nodes, q, c, cap)[i].bbox, q),
{
    lemma_hits_elems(nodes, q, c);
    let h = hits(nodes, q, c);
    assert forall|i: int| 0 <= i < query_leaves(nodes, q, c, cap).len() implies (
    #[trigger] query_leaves(nodes, q, c, cap)[i]).is_leaf && overlaps(
        query_leaves(nodes, q, c, cap)[i].bbox,
        q,
    ) by {
        assert(query_leaves(nodes, q, c, cap)[i] == nodes[h[i]]);
    }
}

/// Two queries, the second resumed from the cursor that the first returned,
/// return together what one query with room for both returns, and end at
/// the same cursor. A returned cursor of 0 means the traversal is over, so
/// it is not resumed.
pub proof fn lemma_pagination(nodes: Seq<GeoNode>, q: GeoBBox, c: int, cap1: int, cap2: int)
    requires
        0 <= c,
        0 <= cap1,
        0 <= cap2,
        query_cursor(nodes, q, c, cap1) != 0,
    ensures
        query_leaves(nodes, q, c, cap1) + query_leaves(
            nodes,
            q,
            query_cursor(nodes, q, c, cap1),
            cap2,
        ) == query_leaves(nodes, q, c, cap1 + cap2),
        query_cursor(nodes, q, query_cursor(nodes, q, c, cap1), cap2) == query_cursor(
            nodes,
            q,
            c,
            cap1 + cap2,
        ),
{
    let h = hits(nodes, q, c);
    if cap1 == 0 {
        assert(query_leaves(nodes, q, c, 0) =~= seq![]);
        assert(query_leaves(nodes, q, c, cap1) + query_leaves(nodes, q, c, cap2) =~= query_leaves(
            nodes,
            q,
            c,
            cap2,
        ));
    } else {
        let n1 = query_cursor(nodes, q, c, cap1);
        lemma_hits_split(nodes, q, c, cap1 - 1);
        assert(n1 == h[cap1 - 1] + 1);
        let h2 = hits(nodes, q, n1);
        assert(h2 == h.skip(cap1));
        if cap2 == 0 {
            assert(query_leaves(nodes, q, n1, 0) =~= seq![]);
            assert(query_leaves(nodes, q, c, cap1) + query_leaves(nodes, q, n1, 0) =~= query_leaves(
                nodes,
                q,
                c,
                cap1,
            ));
        } else {
            let k2 = if cap2 < h2.len() {
                cap2
            } else {
                h2.len() as int
            };
            assert(h.take(cap1) + h2.take(k2) =~= h.take(cap1 + k2));
            assert(query_leaves(nodes, q, c, cap1) + query_leaves(nodes, q, n1, cap2) =~= query_leaves(
                nodes,
                q,
                c,
                cap1 + cap2,
            ));
            if h2.len() >= cap2 {
                assert(h2[cap2 - 1] == h[cap1 + cap2 - 1]);
            }
        }
    }
}

/// The leaves gathered by asking again and again for one leaf at a time,
/// each time from the cursor returned before, until the cursor is 0.
pub open spec fn paged(nodes: Seq<GeoNode>, q: GeoBBox, c: int) -> Seq<GeoNode>
    decreases nodes.len() - c,
{
    if 0 <= c < nodes.len() {
        let next = query_cursor(nodes, q, c, 1);
        if c < next < nodes.len() {
            query_leaves(nodes, q, c, 1) + paged(nodes, q, next)
        } else {
            query_leaves(nodes, q, c, 1)
        }
    } else {
        seq![]
    }
}

proof fn lemma_paged_is_hits(nodes: Seq<GeoNode>, q: GeoBBox, c: int)
    requires
        0 <= c < nodes.len(),
    ensures
        paged(nodes, q, c) == hits(nodes, q, c).map_values(|j: int| nodes[j]),
    decreases nodes.len() - c,
{
    let h = hits(nodes, q, c);
    lemma_hits_elems(nodes, q, c);
    if h.len() == 0 {
        assert(query_leaves(nodes, q, c, 1) =~= seq![]);
        assert(h.map_values(|j: int| nodes[j]) =~= seq![]);
    } else {
        lemma_hits_split(nodes, q, c, 0);
        let next = step_after(nodes, h[0]);
        if next == 0 {
            assert(hits(nodes, q, nodes.len() as int) =~= seq![]);
            assert(h =~= seq![h[0]]);
            assert(paged(nodes, q, c) =~= h.map_values(|j: int| nodes[j]));
        } else {
            lemma_paged_is_hits(nodes, q, next);
            assert(h =~= seq![h[0]] + h.skip(1));
            assert(paged(nodes, q, c) =~= h.map_values(|j: int| nodes[j]));
        }
    }
}

/// Paging through a query one leaf at a time from the root returns every
/// leaf whose box overlaps the query box.
pub proof fn lemma_query_complete(nodes: Seq<GeoNode>, q: GeoBBox, j: int)
    requires
        threaded(nodes),
        0 <= j < nodes.len(),
        nodes[j].is_leaf,
        overlaps(nodes[j].bbox, q),
    ensures
        paged(nodes, q, 0).contains(nodes[j]),
{
    lemma_paged_is_hits(nodes, q, 0);
    lemma_hits_has(nodes, q, 0, j);
    let h = hits(nodes, q, 0);
    let k = choose|k: int| 0 <= k < h.len() && h[k] == j;
    assert(paged(nodes, q, 0)[k] == nodes[j]);
}

proof fn lemma_hits_has(nodes: Seq<GeoNode>, q: GeoBBox, c: int, j: int)
    requires
        0 <= c <= j < nodes.len(),
        nodes[j].is_leaf,
        overlaps(nodes[j].bbox, q),
    ensures
        hits(nodes, q, c).contains(j),
    decreases j - c,
{
    if c < j {
        lemma_hits_has(nodes, q, c + 1, j);
        let rest = hits(nodes, q, c + 1);
        let k = choose|k: int| 0 <= k < rest.len() && rest[k] == j;
        if nodes[c].is_leaf && overlaps(nodes[c].bbox, q) {
            assert(hits(nodes, q, c)[k + 1] == j);
        }
    } else {
        assert(hits(nodes, q, c)[0] == j);
    }
}

proof fn lemma_records_index(nodes: Seq<GeoNode>, i: int, e: int, k: int)
    requires
        0 <= i,
        e <= nodes.len(),
        0 <= k < leaf_records(nodes, i, e).len(),
    ensures
        exists|j: int|
            i <= j < e && nodes[j].is_leaf && (#[trigger] nodes[j]).record() == leaf_records(
                nodes,
                i,
                e,
            )[k],
    decreases e - i,
{
    if i < e {
        if nodes[i].is_leaf {
            if k == 0 {
                assert(nodes[i].record() == leaf_records(nodes, i, e)[0]);
            } else {
                lemma_records_index(nodes, i + 1, e, k - 1);
            }
        } else {
            lemma_records_index(nodes, i + 1, e, k);
        }
    }
}

/// Every input entry is carried by a leaf with the entry's own box, offset
/// and length.
pub proof fn lemma_entry_has_leaf<F: Fn(&GeoBBox) -> bool>(
    horizontal: F,
    nodes: Seq<GeoNode>, entries: Seq<GeoEntry>, t: int)
    requires
        built_from(nodes, entries, horizontal),
        0 <= t < entries.len(),
    ensures
        exists|j: int|
            0 <= j < nodes.len() && nodes[j].is_leaf && (#[trigger] nodes[j]).record()
                == entries[t].record(),
{
    let perm = choose|perm: Seq<GeoEntry>|
        {
            &&& perm.to_multiset() == entries.to_multiset()
            &&& leaf_records(nodes, 0, nodes.len() as int) == entry_records(perm)
            &&& forall|k: int|
                0 <= k < nodes.len() ==> #[trigger] split_ordered(nodes, perm, k, horizontal)
        };
    assert(entries.contains(entries[t]));
    assert(entries.to_multiset().count(entries[t]) > 0);
    assert(perm.to_multiset().count(entries[t]) > 0);
    assert(perm.contains(entries[t]));
    let k = choose|k: int| 0 <= k < perm.len() && perm[k] == entries[t];
    lemma_records_index(nodes, 0, nodes.len() as int, k);
}

proof fn lemma_records_has(nodes: Seq<GeoNode>, i: int, e: int, j: int)
    requires
        0 <= i <= j < e <= nodes.len(),
        nodes[j].is_leaf,
    ensures
        leaf_records(nodes, i, e).contains(nodes[j].record()),
    decreases j - i,
{
    if i < j {
        lemma_records_has(nodes, i + 1, e, j);
        let rest = leaf_records(nodes, i + 1, e);
        let k = choose|k: int| 0 <= k < rest.len() && rest[k] == nodes[j].record();
        if nodes[i].is_leaf {
            assert(leaf_records(nodes, i, e)[k + 1] == nodes[j].record());
        }
    } else {
        assert(leaf_records(nodes, i, e)[0] == nodes[j].record());
    }
}

/// Every leaf carries the box, offset and length of some input entry.
pub proof fn lemma_leaf_has_entry<F: Fn(&GeoBBox) -> bool>(
    horizontal: F,
    nodes: Seq<GeoNode>, entries: Seq<GeoEntry>, j: int)
    requires
        built_from(nodes, entries, horizontal),
        0 <= j < nodes.len(),
        nodes[j].is_leaf,
    ensures
        exists|t: int| 0 <= t < entries.len() && (#[trigger] entries[t]).record() == nodes[j].record(),
{
    let perm = choose|perm: Seq<GeoEntry>|
        {
            &&& perm.to_multiset() == entries.to_multiset()
            &&& leaf_records(nodes, 0, nodes.len() as int) == entry_records(perm)
            &&& forall|k: int|
                0 <= k < nodes.len() ==> #[trigger] split_ordered(nodes, perm, k, horizontal)
        };
    lemma_records_has(nodes, 0, nodes.len() as int, j);
    let recs = leaf_records(nodes, 0, nodes.len() as int);
    let k = choose|k: int| 0 <= k < recs.len() && recs[k] == nodes[j].record();
    assert(perm[k].record() == nodes[j].record());
    assert(perm.contains(perm[k]));
    assert(perm.to_multiset().count(perm[k]) > 0);
    assert(entries.to_multiset().count(perm[k]) > 0);
    assert(entries.contains(perm[k]));
}

/// Paging one leaf at a time through a query from the root finds every
/// input entry whose box overlaps the query box, as a leaf with the entry's
/// own box, offset and length.
pub proof fn lemma_entry_found<F: Fn(&GeoBBox) -> bool>(
    horizontal: F,
    nodes: Seq<GeoNode>, entries: Seq<GeoEntry>, q: GeoBBox, t: int)
    requires
        threaded(nodes),
        built_from(nodes, entries, horizontal),
        0 <= t < entries.len(),
        overlaps(entries[t].bbox, q),
    ensures
        exists|j: int|
            0 <= j < nodes.len() && (#[trigger] nodes[j]).record() == entries[t].record()
                && paged(nodes, q, 0).contains(nodes[j]),
{
    lemma_entry_has_leaf(horizontal, nodes, entries, t);
    let j = choose|j: int|
        0 <= j < nodes.len() && nodes[j].is_leaf && (#[trigger] nodes[j]).record()
            == entries[t].record();
    lemma_query_complete(nodes, q, j);
}

} // verus!
