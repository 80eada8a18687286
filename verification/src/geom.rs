//! Planar geometry model.
//!
//! Coordinates are pairs of signed 64-bit integers holding longitude and
//! latitude in microdegrees (1e-6 degree). Polygons carry an exterior ring
//! and zero or more interior rings; no validity is enforced, so downstream
//! code must tolerate degenerate rings.

use vstd::prelude::*;

verus! {

/// A planar coordinate: `x` is longitude, `y` is latitude, in microdegrees.
#[derive(Clone, Copy, PartialEq, Eq, PartialOrd, Ord, Structural, Debug)]
pub struct Coord {
    pub x: i64,
    pub y: i64,
}

/// An axis-aligned bounding box. A box with `min_x > max_x` or
/// `min_y > max_y` is empty (the box of an empty ring).
#[derive(Clone, Copy, PartialEq, Eq, Structural, Debug)]
pub struct BBox {
    pub min_x: i64,
    pub min_y: i64,
    pub max_x: i64,
    pub max_y: i64,
}

impl BBox {
    /// The canonical empty box.
    pub open spec fn empty_spec() -> BBox {
        BBox { min_x: 0i64, min_y: 0i64, max_x: -1i64, max_y: -1i64 }
    }

    pub fn empty() -> (r: BBox)
        ensures
            r == BBox::empty_spec(),
    {
        BBox { min_x: 0, min_y: 0, max_x: -1, max_y: -1 }
    }

    pub open spec fn is_empty_spec(self) -> bool {
        self.min_x > self.max_x || self.min_y > self.max_y
    }

    pub fn is_empty(&self) -> (r: bool)
        ensures
            r == self.is_empty_spec(),
    {
        self.min_x > self.max_x || self.min_y > self.max_y
    }

    /// Two boxes overlap when both are non-empty and their projections
    /// overlap on both axes.
    pub open spec fn overlaps_spec(a: BBox, b: BBox) -> bool {
        &&& !a.is_empty_spec()
        &&& !b.is_empty_spec()
        &&& a.min_x <= b.max_x
        &&& b.min_x <= a.max_x
        &&& a.min_y <= b.max_y
        &&& b.min_y <= a.max_y
    }

    pub fn overlaps(&self, other: &BBox) -> (r: bool)
        ensures
            r == BBox::overlaps_spec(*self, *other),
    {
        !self.is_empty() && !other.is_empty() && self.min_x <= other.max_x
            && other.min_x <= self.max_x && self.min_y <= other.max_y
            && other.min_y <= self.max_y
    }

    /// The smallest box covering `self` and the point `c`.
    pub open spec fn extend_spec(self, c: Coord) -> BBox {
        if self.is_empty_spec() {
            BBox { min_x: c.x, min_y: c.y, max_x: c.x, max_y: c.y }
        } else {
            BBox {
                min_x: if c.x < self.min_x { c.x } else { self.min_x },
                min_y: if c.y < self.min_y { c.y } else { self.min_y },
                max_x: if c.x > self.max_x { c.x } else { self.max_x },
                max_y: if c.y > self.max_y { c.y } else { self.max_y },
            }
        }
    }

    pub fn extend(&self, c: Coord) -> (r: BBox)
        ensures
            r == self.extend_spec(c),
    {
        if self.is_empty() {
            BBox { min_x: c.x, min_y: c.y, max_x: c.x, max_y: c.y }
        } else {
            BBox {
                min_x: if c.x < self.min_x { c.x } else { self.min_x },
                min_y: if c.y < self.min_y { c.y } else { self.min_y },
                max_x: if c.x > self.max_x { c.x } else { self.max_x },
                max_y: if c.y > self.max_y { c.y } else { self.max_y },
            }
        }
    }
}

/// Whether a coordinate lies in the longitude and latitude range the
/// pipeline works in: |longitude| at most 180 degrees and |latitude| at
/// most 90 degrees, in microdegrees. Exact integer geometry on such
/// coordinates stays far inside the 64-bit range.
pub open spec fn coord_in_range(c: Coord) -> bool {
    -180_000_000 <= c.x <= 180_000_000 && -90_000_000 <= c.y <= 90_000_000
}

/// Whether every coordinate of the ring is in range.
pub open spec fn ring_in_range(s: Seq<Coord>) -> bool {
    forall|i: int| 0 <= i < s.len() ==> coord_in_range(#[trigger] s[i])
}

/// The bounding box of a sequence of coordinates.
pub open spec fn ring_bbox(s: Seq<Coord>) -> BBox
    decreases s.len(),
{
    if s.len() == 0 {
        BBox::empty_spec()
    } else {
        ring_bbox(s.drop_last()).extend_spec(s.last())
    }
}

/// Computes the bounding box of a coordinate sequence.
pub fn bbox_of_ring(ring: &Vec<Coord>) -> (r: BBox)
    ensures
        r == ring_bbox(ring@),
{
    let mut acc = BBox::empty();
    let mut i: usize = 0;
    while i < ring.len()
        invariant
            i <= ring@.len(),
            acc == ring_bbox(ring@.take(i as int)),
        decreases ring@.len() - i,
    {
        acc = acc.extend(ring[i]);
        proof {
            assert(ring@.take(i + 1).drop_last() =~= ring@.take(i as int));
            assert(ring@.take(i + 1).last() == ring@[i as int]);
        }
        i = i + 1;
    }
    proof {
        assert(ring@.take(ring@.len() as int) =~= ring@);
    }
    acc
}

/// A polygon: an exterior ring and zero or more interior rings.
#[derive(Clone, Debug)]
pub struct Polygon {
    pub exterior: Vec<Coord>,
    pub interiors: Vec<Vec<Coord>>,
}

/// The mathematical image of one ring: a sequence of integer pairs.
pub open spec fn ring_math(s: Seq<Coord>) -> Seq<(int, int)> {
    s.map(|i: int, c: Coord| (c.x as int, c.y as int))
}

impl Polygon {
    /// All rings of the polygon, exterior first, as integer pairs.
    pub open spec fn rings_math(self) -> Seq<Seq<(int, int)>> {
        seq![ring_math(self.exterior@)] + self.interiors@.map(|i: int, r: Vec<Coord>| ring_math(r@))
    }

    /// Whether every coordinate of every ring is in range.
    pub open spec fn coords_in_range(self) -> bool {
        &&& ring_in_range(self.exterior@)
        &&& forall|r: int|
            0 <= r < self.interiors@.len() ==> ring_in_range((#[trigger] self.interiors@[r])@)
    }

    /// The bounding box of the exterior ring.
    pub open spec fn bbox_spec(self) -> BBox {
        ring_bbox(self.exterior@)
    }

    pub fn bbox(&self) -> (r: BBox)
        ensures
            r == self.bbox_spec(),
    {
        bbox_of_ring(&self.exterior)
    }
}

/// A sequence of polygons standing for one logical feature.
#[derive(Clone, Debug)]
pub struct MultiPolygon {
    pub polygons: Vec<Polygon>,
}

/// A geometry as yielded by the feature store: only polygons take part in
/// the union and labeling pipelines.
#[derive(Clone, Debug)]
pub enum Geometry {
    Polygon(Polygon),
    LineString(Vec<Coord>),
    Point(Coord),
}

/// A viewport: south-west and north-east corners in microdegrees.
#[derive(Clone, Copy, PartialEq, Eq, Structural, Debug)]
pub struct Bounds {
    pub sw_lat: i64,
    pub sw_lon: i64,
    pub ne_lat: i64,
    pub ne_lon: i64,
}

impl Bounds {
    /// A well-formed viewport: corners ordered and inside the longitude and
    /// latitude range.
    pub open spec fn wf(self) -> bool {
        &&& -180_000_000 <= self.sw_lon <= self.ne_lon <= 180_000_000
        &&& -90_000_000 <= self.sw_lat <= self.ne_lat <= 90_000_000
    }

    /// Builds a viewport from two opposite rectangle corners; the corners
    /// are normalized so the south-west one holds the minima.
    pub fn from_rect(c1: Coord, c2: Coord) -> (r: Bounds)
        ensures
            r.sw_lon == if c1.x < c2.x { c1.x } else { c2.x },
            r.ne_lon == if c1.x < c2.x { c2.x } else { c1.x },
            r.sw_lat == if c1.y < c2.y { c1.y } else { c2.y },
            r.ne_lat == if c1.y < c2.y { c2.y } else { c1.y },
    {
        let (min_x, max_x) = if c1.x < c2.x { (c1.x, c2.x) } else { (c2.x, c1.x) };
        let (min_y, max_y) = if c1.y < c2.y { (c1.y, c2.y) } else { (c2.y, c1.y) };
        Bounds { sw_lat: min_y, sw_lon: min_x, ne_lat: max_y, ne_lon: max_x }
    }
}

} // verus!
