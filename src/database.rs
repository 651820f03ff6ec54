use vstd::prelude::*;
use crate::bbox::GeoBBox;
use crate::codec::{decoded, loadable, LoadError};
use crate::index::{built_from, leaf_within, leaves_within, BuildError, GeoIndex};
use crate::laws::{lemma_entry_has_leaf, lemma_leaf_has_entry};
use crate::node::{GeoEntry, GeoNode};
use crate::search::{hits, lemma_hits_elems, query_cursor, query_leaves};
use crate::table::GeoTable;
use crate::tree::threaded;

verus! {

/// Why a database could not be built, loaded or queried.
#[derive(Clone, Copy, PartialEq, Eq, Structural, Debug)]
pub enum GeoError {
    /// The source holds no record.
    NoRecords,
    /// A coordinate or a sort key of some record is a NaN.
    InvalidCoordinate,
    /// A record's byte range lies outside the source.
    OutOfRange,
    /// The index file does not load.
    Load(LoadError),
    /// The index addresses bytes beyond the end of the table.
    TableTooShort,
    /// The cursor is not a node of the index.
    BadCursor,
}

/// Some leaf carries the entry's box and length, and addresses the same
/// bytes in the table as the entry did in the source.
pub open spec fn stored(nodes: Seq<GeoNode>, table: Seq<u8>, source: Seq<u8>, e: GeoEntry) -> bool {
    exists|j: int|
        0 <= j < nodes.len() && (#[trigger] nodes[j]).is_leaf && nodes[j].bbox == e.bbox
            && nodes[j].value2 == e.length && table.subrange(
            nodes[j].value1 as int,
            nodes[j].value1 + nodes[j].value2,
        ) == source.subrange(e.start as int, e.start + e.length)
}

/// Node `k` of `b` is node `k` of `a`, except that a leaf may point at
/// another place, in `table`, holding the bytes it addressed in `source`.
pub open spec fn moved_leaf(a: Seq<GeoNode>, b: Seq<GeoNode>, table: Seq<u8>, source: Seq<u8>, k: int) -> bool {
    if a[k].is_leaf {
        &&& b[k] == (GeoNode { value1: b[k].value1, ..a[k] })
        &&& table.subrange(b[k].value1 as int, b[k].value1 + b[k].value2) == source.subrange(
            a[k].value1 as int,
            a[k].value1 + a[k].value2,
        )
    } else {
        b[k] == a[k]
    }
}

/// `b` is the tree `a` with its leaves' bytes packed into `table`.
pub open spec fn repacked(a: Seq<GeoNode>, b: Seq<GeoNode>, table: Seq<u8>, source: Seq<u8>) -> bool {
    a.len() == b.len() && forall|k: int| 0 <= k < a.len() ==> #[trigger] moved_leaf(a, b, table, source, k)
}

/// An index and the packed table that its leaves address.
#[derive(Debug)]
pub struct GeoDB {
    pub index: GeoIndex,
    pub table: GeoTable,
}

impl GeoDB {
    /// A threaded tree whose every leaf lies inside the table.
    pub open spec fn wf(&self) -> bool {
        threaded(self.index.nodes@) && leaves_within(
            self.index.nodes@,
            self.table.data@.len() as int,
        )
    }

    /// Builds the index over `entries` and packs their bytes, taken from
    /// `source`, into the table.
    pub fn build<H: Fn(&GeoBBox) -> bool>(entries: Vec<GeoEntry>, horizontal: H, source: &[u8]) -> (r:
        Result<GeoDB, GeoError>)
        requires
            entries.len() <= usize::MAX / 2,
            forall|b: &GeoBBox| horizontal.requires((b,)),
        ensures
            r == Err::<GeoDB, GeoError>(GeoError::NoRecords) <==> entries.len() == 0,
            r == Err::<GeoDB, GeoError>(GeoError::InvalidCoordinate) <==> entries.len() > 0
                && exists|k: int| 0 <= k < entries.len() && !(#[trigger] entries[k]).wf(),
            r == Err::<GeoDB, GeoError>(GeoError::OutOfRange) <==> entries.len() > 0 && (forall|
                k: int,
            | 0 <= k < entries.len() ==> (#[trigger] entries[k]).wf()) && exists|k: int|
                0 <= k < entries.len() && (#[trigger] entries[k]).start + entries[k].length
                    > source@.len(),
            r is Ok <==> entries.len() > 0 && (forall|k: int|
                0 <= k < entries.len() ==> (#[trigger] entries[k]).wf()) && (forall|k: int|
                0 <= k < entries.len() ==> (#[trigger] entries[k]).start + entries[k].length
                    <= source@.len()),
            r matches Ok(db) ==> {
                &&& db.wf()
                &&& exists|a: Seq<GeoNode>|
                    #[trigger] built_from(a, entries@, &horizontal) && threaded(a) && repacked(
                        a,
                        db.index.nodes@,
                        db.table.data@,
                        source@,
                    )
                &&& db.index.nodes@.len() == 2 * entries.len() - 1
                &&& forall|t: int|
                    0 <= t < entries.len() ==> #[trigger] stored(
                        db.index.nodes@,
                        db.table.data@,
                        source@,
                        entries[t],
                    )
            },
    {
        let ghost es = entries@;
        let mut index = match GeoIndex::create(entries, horizontal) {
            Ok(ix) => ix,
            Err(BuildError::NoRecords) => {
                return Err(GeoError::NoRecords);
            },
            Err(BuildError::InvalidCoordinate) => {
                return Err(GeoError::InvalidCoordinate);
            },
        };
        let ghost a = index.nodes@;
        match index.rewrite_table(source) {
            Ok(data) => {
                let db = GeoDB { index, table: GeoTable::load(data) };
                proof {
                    let b = db.index.nodes@;
                    let t = db.table.data@;
                    assert forall|k: int| 0 <= k < b.len() implies #[trigger] leaf_within(
                        b,
                        t.len() as int,
                        k,
                    ) by {
                        if b[k].is_leaf {
                            assert(a[k].is_leaf);
                            crate::index::lemma_packed_len(a, source@, k + 1, a.len() as int);
                            assert(leaf_within(a, source@.len() as int, k));
                        }
                    }
                    assert forall|t: int| 0 <= t < es.len() implies #[trigger] stored(
                        b,
                        db.table.data@,
                        source@,
                        es[t],
                    ) by {
                        lemma_entry_has_leaf(&horizontal, a, es, t);
                        let j = choose|j: int|
                            0 <= j < a.len() && a[j].is_leaf && (#[trigger] a[j]).record()
                                == es[t].record();
                        assert(b[j].is_leaf);
                    }
                    assert forall|k: int| 0 <= k < a.len() implies #[trigger] moved_leaf(
                        a,
                        b,
                        t,
                        source@,
                        k,
                    ) by {}
                    assert(built_from(a, es, &horizontal) && threaded(a) && repacked(a, b, t, source@));
                    assert(forall|k: int| 0 <= k < es.len() ==> (#[trigger] es[k]).start + es[k].length
                        <= source@.len()) by {
                        assert forall|k: int| 0 <= k < es.len() implies (#[trigger] es[k]).start
                            + es[k].length <= source@.len() by {
                            lemma_entry_has_leaf(&horizontal, a, es, k);
                            let j = choose|j: int|
                                0 <= j < a.len() && a[j].is_leaf && (#[trigger] a[j]).record()
                                    == es[k].record();
                            assert(leaf_within(a, source@.len() as int, j));
                        }
                    }
                }
                Ok(db)
            },
            Err(_) => {
                proof {
                    let k = choose|k: int|
                        0 <= k < a.len() && !#[trigger] leaf_within(a, source@.len() as int, k);
                    lemma_leaf_has_entry(&horizontal, a, es, k);
                    let t = choose|t: int|
                        0 <= t < es.len() && (#[trigger] es[t]).record() == a[k].record();
                    assert(es[t].start + es[t].length > source@.len());
                }
                Err(GeoError::OutOfRange)
            },
        }
    }

    /// Loads a database from the bytes of its index file and its table.
    pub fn load(index_bytes: &[u8], table: Vec<u8>) -> (r: Result<GeoDB, GeoError>)
        ensures
            r is Ok <==> loadable(index_bytes@) && leaves_within(
                decoded(index_bytes@),
                table@.len() as int,
            ),
            r matches Ok(db) ==> db.wf() && db.index.nodes@ == decoded(index_bytes@)
                && db.table.data@ == table@,
            r == Err::<GeoDB, GeoError>(GeoError::TableTooShort) ==> loadable(index_bytes@),
    {
        let index = match GeoIndex::load(index_bytes) {
            Ok(ix) => ix,
            Err(e) => {
                return Err(GeoError::Load(e));
            },
        };
        if !index.leaves_within(table.len()) {
            return Err(GeoError::TableTooShort);
        }
        Ok(GeoDB { index, table: GeoTable::load(table) })
    }

    /// Runs a query and returns the bytes of the leaves found, borrowed from
    /// the table, with the cursor to resume from (0 when done).
    pub fn query_bbox(&self, bbox: &GeoBBox, start_index: usize, max_count: usize) -> (r: Result<
        (Vec<&[u8]>, usize),
        GeoError,
    >)
        requires
            self.wf(),
        ensures
            r is Err <==> start_index >= self.index.nodes@.len(),
            r is Err ==> r == Err::<(Vec<&[u8]>, usize), GeoError>(GeoError::BadCursor),
            r matches Ok((chunks, next)) ==> {
                let ns = self.index.nodes@;
                let found = query_leaves(ns, *bbox, start_index as int, max_count as int);
                &&& next == query_cursor(ns, *bbox, start_index as int, max_count as int)
                &&& chunks@.len() == found.len()
                &&& forall|i: int|
                    0 <= i < found.len() ==> (#[trigger] chunks@[i])@ == self.table.data@.subrange(
                        found[i].value1 as int,
                        found[i].value1 + found[i].value2,
                    )
            },
    {
        if start_index >= self.index.nodes.len() {
            return Err(GeoError::BadCursor);
        }
        let (leaves, next) = self.index.query_bbox(bbox, start_index, max_count);
        proof {
            let ns = self.index.nodes@;
            let h = hits(ns, *bbox, start_index as int);
            lemma_hits_elems(ns, *bbox, start_index as int);
            assert forall|i: int| 0 <= i < leaves@.len() implies #[trigger] leaves@[i].value1
                + leaves@[i].value2 <= self.table.data@.len() by {
                assert(leaves@[i] == ns[h[i]]);
                assert(leaf_within(ns, self.table.data@.len() as int, h[i]));
            }
        }
        let chunks = self.table.read_ranges(&leaves);
        Ok((chunks, next))
    }
}

} // verus!
