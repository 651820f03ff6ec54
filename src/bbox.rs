use vstd::prelude::*;

verus! {

/// Bit pattern of single-precision positive infinity.
pub const POS_INFINITY: u32 = 0x7f80_0000;

/// Bit pattern of single-precision negative infinity.
pub const NEG_INFINITY: u32 = 0xff80_0000;

/// The position of a single-precision bit pattern in the numeric order.
///
/// Positive values keep their bit pattern, negative values are mirrored
/// below zero, and both zeros land on 0, so for any two non-NaN patterns
/// `a < b` as floats exactly when `coord_key(a) < coord_key(b)`.
pub open spec fn coord_key(bits: u32) -> int {
    if bits >= 0x8000_0000 {
        -(bits - 0x8000_0000)
    } else {
        bits as int
    }
}

/// The bit pattern is a number (finite or infinite), not a NaN.
pub open spec fn is_number(bits: u32) -> bool {
    bits % 0x8000_0000 <= POS_INFINITY
}

/// The smaller coordinate; on a tie the first one is kept.
pub open spec fn low(a: u32, b: u32) -> u32 {
    if coord_key(a) > coord_key(b) {
        b
    } else {
        a
    }
}

/// The larger coordinate; on a tie the first one is kept.
pub open spec fn high(a: u32, b: u32) -> u32 {
    if coord_key(a) < coord_key(b) {
        b
    } else {
        a
    }
}

/// Executable form of [`coord_key`].
pub fn order_key(bits: u32) -> (r: i64)
    ensures
        r == coord_key(bits),
{
    if bits >= 0x8000_0000 {
        -((bits - 0x8000_0000) as i64)
    } else {
        bits as i64
    }
}

/// An axis-aligned bounding box; each coordinate is the bit pattern of a
/// single-precision float.
#[derive(Clone, Copy, PartialEq, Eq, Structural, Debug)]
pub struct GeoBBox {
    pub x_min: u32,
    pub x_max: u32,
    pub y_min: u32,
    pub y_max: u32,
}

/// The box that covers nothing: mins at +inf and maxes at -inf.
pub open spec fn empty_bbox() -> GeoBBox {
    GeoBBox { x_min: POS_INFINITY, x_max: NEG_INFINITY, y_min: POS_INFINITY, y_max: NEG_INFINITY }
}

/// The degenerate box of a single point.
pub open spec fn point_bbox(x: u32, y: u32) -> GeoBBox {
    GeoBBox { x_min: x, x_max: x, y_min: y, y_max: y }
}

/// The componentwise min/max of two boxes.
pub open spec fn union(a: GeoBBox, b: GeoBBox) -> GeoBBox {
    GeoBBox {
        x_min: low(a.x_min, b.x_min),
        x_max: high(a.x_max, b.x_max),
        y_min: low(a.y_min, b.y_min),
        y_max: high(a.y_max, b.y_max),
    }
}

/// Inclusive overlap on both axes.
pub open spec fn overlaps(a: GeoBBox, b: GeoBBox) -> bool {
    &&& coord_key(a.x_min) <= coord_key(b.x_max)
    &&& coord_key(a.x_max) >= coord_key(b.x_min)
    &&& coord_key(a.y_min) <= coord_key(b.y_max)
    &&& coord_key(a.y_max) >= coord_key(b.y_min)
}

/// `outer` covers `inner` on both axes.
pub open spec fn contains(outer: GeoBBox, inner: GeoBBox) -> bool {
    &&& coord_key(outer.x_min) <= coord_key(inner.x_min)
    &&& coord_key(inner.x_max) <= coord_key(outer.x_max)
    &&& coord_key(outer.y_min) <= coord_key(inner.y_min)
    &&& coord_key(inner.y_max) <= coord_key(outer.y_max)
}

impl GeoBBox {
    /// No coordinate is a NaN.
    pub open spec fn wf(self) -> bool {
        is_number(self.x_min) && is_number(self.x_max) && is_number(self.y_min) && is_number(
            self.y_max,
        )
    }

    pub fn new(x_min: u32, x_max: u32, y_min: u32, y_max: u32) -> (r: Self)
        ensures
            r == (GeoBBox { x_min, x_max, y_min, y_max }),
    {
        GeoBBox { x_min, x_max, y_min, y_max }
    }

    pub fn new_point(x: u32, y: u32) -> (r: Self)
        ensures
            r == point_bbox(x, y),
    {
        GeoBBox { x_min: x, x_max: x, y_min: y, y_max: y }
    }

    pub fn new_empty() -> (r: Self)
        ensures
            r == empty_bbox(),
    {
        GeoBBox { x_min: POS_INFINITY, x_max: NEG_INFINITY, y_min: POS_INFINITY, y_max: NEG_INFINITY }
    }

    /// Widens the box so that it covers the point `(x, y)`.
    pub fn include_point(&mut self, x: u32, y: u32)
        ensures
            *final(self) == union(*old(self), point_bbox(x, y)),
    {
        if order_key(self.x_min) > order_key(x) {
            self.x_min = x;
        }
        if order_key(self.x_max) < order_key(x) {
            self.x_max = x;
        }
        if order_key(self.y_min) > order_key(y) {
            self.y_min = y;
        }
        if order_key(self.y_max) < order_key(y) {
            self.y_max = y;
        }
    }

    /// Widens the box so that it covers `bbox`.
    pub fn include_bbox(&mut self, bbox: &GeoBBox)
        ensures
            *final(self) == union(*old(self), *bbox),
    {
        if order_key(self.x_min) > order_key(bbox.x_min) {
            self.x_min = bbox.x_min;
        }
        if order_key(self.x_max) < order_key(bbox.x_max) {
            self.x_max = bbox.x_max;
        }
        if order_key(self.y_min) > order_key(bbox.y_min) {
            self.y_min = bbox.y_min;
        }
        if order_key(self.y_max) < order_key(bbox.y_max) {
            self.y_max = bbox.y_max;
        }
    }

    /// Whether the two boxes share at least one point, borders included.
    pub fn overlap_bbox(&self, bbox: &GeoBBox) -> (r: bool)
        ensures
            r == overlaps(*self, *bbox),
    {
        if order_key(self.x_min) > order_key(bbox.x_max) {
            return false;
        }
        if order_key(self.x_max) < order_key(bbox.x_min) {
            return false;
        }
        if order_key(self.y_min) > order_key(bbox.y_max) {
            return false;
        }
        if order_key(self.y_max) < order_key(bbox.y_min) {
            return false;
        }
        true
    }
}

/// The union of two boxes, as a new box.
pub fn union_of(a: &GeoBBox, b: &GeoBBox) -> (r: GeoBBox)
    ensures
        r == union(*a, *b),
{
    let mut r = *a;
    r.include_bbox(b);
    r
}

/// The box covering a sequence of points `(x, y)`, widened point by point
/// from the empty box.
pub open spec fn points_cover(ps: Seq<(u32, u32)>) -> GeoBBox
    decreases ps.len(),
{
    if ps.len() == 0 {
        empty_bbox()
    } else {
        union(points_cover(ps.drop_last()), point_bbox(ps.last().0, ps.last().1))
    }
}

/// The box covering all the points, in order; the empty box when there
/// are none.
pub fn from_points(points: &Vec<(u32, u32)>) -> (r: GeoBBox)
    ensures
        r == points_cover(points@),
{
    let mut bbox = GeoBBox::new_empty();
    let mut i: usize = 0;
    while i < points.len()
        invariant
            0 <= i <= points@.len(),
            bbox == points_cover(points@.subrange(0, i as int)),
        decreases points.len() - i,
    {
        let (x, y) = points[i];
        bbox.include_point(x, y);
        proof {
            assert(points@.subrange(0, i + 1).drop_last() =~= points@.subrange(0, i as int));
        }
        i += 1;
    }
    assert(points@.subrange(0, points@.len() as int) =~= points@);
    bbox
}

/// The union covers both of its arguments.
pub proof fn lemma_union_contains(a: GeoBBox, b: GeoBBox)
    ensures
        contains(union(a, b), a),
        contains(union(a, b), b),
{
}

/// Containment is transitive.
pub proof fn lemma_contains_trans(a: GeoBBox, b: GeoBBox, c: GeoBBox)
    requires
        contains(a, b),
        contains(b, c),
    ensures
        contains(a, c),
{
}

/// A box that covers one overlapping `q` overlaps `q` too.
pub proof fn lemma_contains_overlaps(outer: GeoBBox, inner: GeoBBox, q: GeoBBox)
    requires
        contains(outer, inner),
        overlaps(inner, q),
    ensures
        overlaps(outer, q),
{
}

/// The empty box is a right identity of the union on boxes without NaN.
pub proof fn lemma_union_empty(a: GeoBBox)
    requires
        a.wf(),
    ensures
        union(a, empty_bbox()) == a,
{
}

/// Every point of the sequence is a number on both axes.
pub open spec fn points_wf(ps: Seq<(u32, u32)>) -> bool {
    forall|i: int| 0 <= i < ps.len() ==> is_number(#[trigger] ps[i].0) && is_number(ps[i].1)
}

proof fn lemma_points_cover_wf(ps: Seq<(u32, u32)>)
    requires
        points_wf(ps),
    ensures
        points_cover(ps).wf(),
    decreases ps.len(),
{
    if ps.len() > 0 {
        lemma_points_cover_wf(ps.drop_last());
        assert(is_number(ps[ps.len() - 1].0));
    }
}

/// Covering two runs of points one after the other gives the union of
/// their covers: nested geometries may be covered part by part.
pub proof fn lemma_points_cover_concat(a: Seq<(u32, u32)>, b: Seq<(u32, u32)>)
    requires
        points_wf(a),
    ensures
        points_cover(a + b) == union(points_cover(a), points_cover(b)),
    decreases b.len(),
{
    if b.len() == 0 {
        assert(a + b =~= a);
        lemma_points_cover_wf(a);
        lemma_union_empty(points_cover(a));
    } else {
        let p = b.last();
        assert((a + b).drop_last() =~= a + b.drop_last());
        lemma_points_cover_concat(a, b.drop_last());
        lemma_union_assoc(points_cover(a), points_cover(b.drop_last()), point_bbox(p.0, p.1));
    }
}

/// The union is associative.
pub proof fn lemma_union_assoc(a: GeoBBox, b: GeoBBox, c: GeoBBox)
    ensures
        union(union(a, b), c) == union(a, union(b, c)),
{
}

/// The two boxes are equal as numbers: only the signs of zeros may differ.
pub open spec fn same_keys(a: GeoBBox, b: GeoBBox) -> bool {
    &&& coord_key(a.x_min) == coord_key(b.x_min)
    &&& coord_key(a.x_max) == coord_key(b.x_max)
    &&& coord_key(a.y_min) == coord_key(b.y_min)
    &&& coord_key(a.y_max) == coord_key(b.y_max)
}

/// `c` covers every box of `s`, and each of its sides is a side of one of
/// them: `c` is the smallest cover of `s`, up to the signs of zeros.
pub open spec fn tight(c: GeoBBox, s: Seq<GeoBBox>) -> bool {
    &&& forall|i: int| 0 <= i < s.len() ==> contains(c, #[trigger] s[i])
    &&& exists|i: int| 0 <= i < s.len() && coord_key(c.x_min) == coord_key((#[trigger] s[i]).x_min)
    &&& exists|i: int| 0 <= i < s.len() && coord_key(c.x_max) == coord_key((#[trigger] s[i]).x_max)
    &&& exists|i: int| 0 <= i < s.len() && coord_key(c.y_min) == coord_key((#[trigger] s[i]).y_min)
    &&& exists|i: int| 0 <= i < s.len() && coord_key(c.y_max) == coord_key((#[trigger] s[i]).y_max)
}

/// The cover of a sequence of boxes, widened box by box from the empty one.
pub open spec fn boxes_cover(s: Seq<GeoBBox>) -> GeoBBox
    decreases s.len(),
{
    if s.len() == 0 {
        empty_bbox()
    } else {
        union(boxes_cover(s.drop_last()), s.last())
    }
}

pub proof fn lemma_tight_one(b: GeoBBox)
    ensures
        tight(b, seq![b]),
{
    assert(seq![b][0] == b);
}

/// The union of tight covers is a tight cover of the concatenation.
pub proof fn lemma_tight_union(c1: GeoBBox, s1: Seq<GeoBBox>, c2: GeoBBox, s2: Seq<GeoBBox>)
    requires
        tight(c1, s1),
        tight(c2, s2),
    ensures
        tight(union(c1, c2), s1 + s2),
{
    let u = union(c1, c2);
    let s = s1 + s2;
    lemma_union_contains(c1, c2);
    assert forall|i: int| 0 <= i < s.len() implies contains(u, #[trigger] s[i]) by {
        if i < s1.len() {
            assert(s[i] == s1[i]);
            assert(contains(c1, s1[i]));
        } else {
            assert(s[i] == s2[i - s1.len()]);
            assert(contains(c2, s2[i - s1.len()]));
        }
    }
    let a1 = choose|i: int| 0 <= i < s1.len() && coord_key(c1.x_min) == coord_key((#[trigger] s1[i]).x_min);
    let a2 = choose|i: int| 0 <= i < s2.len() && coord_key(c2.x_min) == coord_key((#[trigger] s2[i]).x_min);
    let b1 = choose|i: int| 0 <= i < s1.len() && coord_key(c1.x_max) == coord_key((#[trigger] s1[i]).x_max);
    let b2 = choose|i: int| 0 <= i < s2.len() && coord_key(c2.x_max) == coord_key((#[trigger] s2[i]).x_max);
    let d1 = choose|i: int| 0 <= i < s1.len() && coord_key(c1.y_min) == coord_key((#[trigger] s1[i]).y_min);
    let d2 = choose|i: int| 0 <= i < s2.len() && coord_key(c2.y_min) == coord_key((#[trigger] s2[i]).y_min);
    let f1 = choose|i: int| 0 <= i < s1.len() && coord_key(c1.y_max) == coord_key((#[trigger] s1[i]).y_max);
    let f2 = choose|i: int| 0 <= i < s2.len() && coord_key(c2.y_max) == coord_key((#[trigger] s2[i]).y_max);
    assert(s[a1] == s1[a1] && s[s1.len() + a2] == s2[a2]);
    assert(s[b1] == s1[b1] && s[s1.len() + b2] == s2[b2]);
    assert(s[d1] == s1[d1] && s[s1.len() + d2] == s2[d2]);
    assert(s[f1] == s1[f1] && s[s1.len() + f2] == s2[f2]);
}

/// Widening the empty box over boxes without NaN gives a tight cover.
pub proof fn lemma_tight_cover(s: Seq<GeoBBox>)
    requires
        s.len() > 0,
        forall|i: int| 0 <= i < s.len() ==> (#[trigger] s[i]).wf(),
    ensures
        tight(boxes_cover(s), s),
    decreases s.len(),
{
    let init = s.drop_last();
    assert(s =~= init + seq![s.last()]);
    assert(s.last().wf());
    lemma_tight_one(s.last());
    if init.len() == 0 {
        assert(boxes_cover(init) == empty_bbox());
        assert(tight(union(empty_bbox(), s.last()), seq![s.last()]));
        assert(seq![s.last()] =~= s);
    } else {
        assert forall|i: int| 0 <= i < init.len() implies (#[trigger] init[i]).wf() by {
            assert(init[i] == s[i]);
        }
        lemma_tight_cover(init);
        lemma_tight_union(boxes_cover(init), init, s.last(), seq![s.last()]);
    }
}

/// Tight covers of the same boxes, in any order, are equal as numbers.
pub proof fn lemma_tight_same_keys(c1: GeoBBox, s1: Seq<GeoBBox>, c2: GeoBBox, s2: Seq<GeoBBox>)
    requires
        tight(c1, s1),
        tight(c2, s2),
        forall|b: GeoBBox| s1.contains(b) <==> s2.contains(b),
    ensures
        same_keys(c1, c2),
{
    let a1 = choose|i: int| 0 <= i < s1.len() && coord_key(c1.x_min) == coord_key((#[trigger] s1[i]).x_min);
    let a2 = choose|i: int| 0 <= i < s2.len() && coord_key(c2.x_min) == coord_key((#[trigger] s2[i]).x_min);
    let b1 = choose|i: int| 0 <= i < s1.len() && coord_key(c1.x_max) == coord_key((#[trigger] s1[i]).x_max);
    let b2 = choose|i: int| 0 <= i < s2.len() && coord_key(c2.x_max) == coord_key((#[trigger] s2[i]).x_max);
    let d1 = choose|i: int| 0 <= i < s1.len() && coord_key(c1.y_min) == coord_key((#[trigger] s1[i]).y_min);
    let d2 = choose|i: int| 0 <= i < s2.len() && coord_key(c2.y_min) == coord_key((#[trigger] s2[i]).y_min);
    let f1 = choose|i: int| 0 <= i < s1.len() && coord_key(c1.y_max) == coord_key((#[trigger] s1[i]).y_max);
    let f2 = choose|i: int| 0 <= i < s2.len() && coord_key(c2.y_max) == coord_key((#[trigger] s2[i]).y_max);
    assert(s1.contains(s1[a1]) && s1.contains(s1[b1]) && s1.contains(s1[d1]) && s1.contains(s1[f1]));
    assert(s2.contains(s2[a2]) && s2.contains(s2[b2]) && s2.contains(s2[d2]) && s2.contains(s2[f2]));
    let i2a = choose|j: int| 0 <= j < s2.len() && s2[j] == s1[a1];
    let i2b = choose|j: int| 0 <= j < s2.len() && s2[j] == s1[b1];
    let i2d = choose|j: int| 0 <= j < s2.len() && s2[j] == s1[d1];
    let i2f = choose|j: int| 0 <= j < s2.len() && s2[j] == s1[f1];
    let i1a = choose|j: int| 0 <= j < s1.len() && s1[j] == s2[a2];
    let i1b = choose|j: int| 0 <= j < s1.len() && s1[j] == s2[b2];
    let i1d = choose|j: int| 0 <= j < s1.len() && s1[j] == s2[d2];
    let i1f = choose|j: int| 0 <= j < s1.len() && s1[j] == s2[f2];
    assert(contains(c2, s2[i2a]) && contains(c2, s2[i2b]) && contains(c2, s2[i2d]) && contains(c2, s2[i2f]));
    assert(contains(c1, s1[i1a]) && contains(c1, s1[i1b]) && contains(c1, s1[i1d]) && contains(c1, s1[i1f]));
}

} // verus!
