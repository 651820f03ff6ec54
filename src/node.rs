use vstd::prelude::*;
use crate::bbox::{GeoBBox, is_number};

verus! {

/// One record of the flat tree.
///
/// An internal node keeps the indices of its children in `value1` and
/// `value2`; a leaf keeps the offset and length of its record's bytes.
/// `next` is the node that a traversal visits once this subtree is done,
/// or 0 when nothing follows.
#[derive(Clone, Copy, PartialEq, Eq, Structural, Debug)]
pub struct GeoNode {
    pub bbox: GeoBBox,
    pub is_leaf: bool,
    pub value1: usize,
    pub value2: usize,
    pub next: usize,
}

/// What a leaf says about its record: its box, offset and length.
pub type LeafRecord = (GeoBBox, usize, usize);

impl GeoNode {
    pub open spec fn record(self) -> LeafRecord {
        (self.bbox, self.value1, self.value2)
    }

    pub fn new_leaf(bbox: GeoBBox, start: usize, length: usize) -> (r: Self)
        ensures
            r == (GeoNode { bbox, is_leaf: true, value1: start, value2: length, next: 0 }),
    {
        GeoNode { bbox, is_leaf: true, value1: start, value2: length, next: 0 }
    }

    pub fn new_node(bbox: GeoBBox) -> (r: Self)
        ensures
            r == (GeoNode { bbox, is_leaf: false, value1: 0, value2: 0, next: 0 }),
    {
        GeoNode { bbox, is_leaf: false, value1: 0, value2: 0, next: 0 }
    }
}

/// One input record before the tree is built: its box, where its bytes lie
/// in the source, and the bit patterns of `x_min + x_max` and
/// `y_min + y_max` as single-precision sums, which order the records along
/// each axis.
#[derive(Clone, Copy, PartialEq, Eq, Structural, Debug)]
pub struct GeoEntry {
    pub bbox: GeoBBox,
    pub start: usize,
    pub length: usize,
    pub sum_x: u32,
    pub sum_y: u32,
}

impl GeoEntry {
    pub open spec fn record(self) -> LeafRecord {
        (self.bbox, self.start, self.length)
    }

    /// Neither the box nor the sort keys hold a NaN.
    pub open spec fn wf(self) -> bool {
        self.bbox.wf() && is_number(self.sum_x) && is_number(self.sum_y)
    }

    pub open spec fn spec_sort_key(self, by_x: bool) -> int {
        crate::bbox::coord_key(if by_x { self.sum_x } else { self.sum_y })
    }

    /// The position of this entry along the x axis (`by_x`) or the y axis.
    pub fn sort_key(&self, by_x: bool) -> (r: i64)
        ensures
            r == self.spec_sort_key(by_x),
    {
        crate::bbox::order_key(if by_x { self.sum_x } else { self.sum_y })
    }

    /// Whether no coordinate and no sort key is a NaN.
    pub fn check(&self) -> (r: bool)
        ensures
            r == self.wf(),
    {
        self.bbox.x_min % 0x8000_0000 <= crate::bbox::POS_INFINITY
            && self.bbox.x_max % 0x8000_0000 <= crate::bbox::POS_INFINITY
            && self.bbox.y_min % 0x8000_0000 <= crate::bbox::POS_INFINITY
            && self.bbox.y_max % 0x8000_0000 <= crate::bbox::POS_INFINITY
            && self.sum_x % 0x8000_0000 <= crate::bbox::POS_INFINITY
            && self.sum_y % 0x8000_0000 <= crate::bbox::POS_INFINITY
    }
}

} // verus!
