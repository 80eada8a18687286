//! The query surface's verified core: narrowing stored polygons to the
//! candidates that can touch a route, and deciding when a route needs no
//! clipping at all.
//!
//! Loading polygons from the store, calling the upstream router and the
//! floating-point clip of the route against the candidate region all live
//! outside the library; what is proved here is the bounding-box prefilter,
//! the grouping of the candidates, and that a route with no candidate
//! polygons is labeled with an empty green set.

use vstd::multiset::Multiset;
use vstd::prelude::*;

use crate::geom::{ring_bbox, BBox, Coord, Geometry, MultiPolygon, Polygon};
use crate::union::{geometry_in_range, groups_are_components, groups_mset, linked, union, UnionError};

verus! {

broadcast use vstd::seq_lib::group_to_multiset_ensures;

/// A route with the sub-segments of it that lie inside green space.
pub struct LabelledRoute {
    pub route: Vec<Coord>,
    pub green: Vec<Vec<Coord>>,
}

/// What it takes to label a route: either the answer is already complete
/// (no candidate polygon can touch the route), or the route must be
/// clipped against the candidate groups.
pub enum LabelPlan {
    Done(LabelledRoute),
    NeedsClip { route: Vec<Coord>, candidates: Vec<MultiPolygon> },
}

/// The polygons of a geometry sequence whose bounding box overlaps `b`, in
/// order.
pub open spec fn overlapping_polys(s: Seq<Geometry>, b: BBox) -> Seq<Polygon>
    decreases s.len(),
{
    if s.len() == 0 {
        Seq::empty()
    } else {
        let rest = overlapping_polys(s.drop_last(), b);
        match s.last() {
            Geometry::Polygon(p) => if BBox::overlaps_spec(p.bbox_spec(), b) {
                rest.push(p)
            } else {
                rest
            },
            _ => rest,
        }
    }
}

/// The region query surface.
pub struct Regions {}

impl Default for Regions {
    fn default() -> (r: Regions)
        ensures
            r == (Regions {  }),
    {
        Regions {  }
    }
}

impl Regions {
    /// Keeps the polygons whose bounding box overlaps the route's, grouped
    /// into their overlap components; refuses an input with no such
    /// polygon.
    pub fn find_possibly_overlapping_regions(
        regions: Vec<Geometry>,
        route_bbox: &BBox,
    ) -> (r: Result<Vec<MultiPolygon>, UnionError>)
        requires
            geometry_in_range(regions@),
        ensures
            r is Err <==> overlapping_polys(regions@, *route_bbox).len() == 0,
            r matches Ok(out) ==> {
                let cs = overlapping_polys(regions@, *route_bbox);
                &&& groups_mset(out@) == cs.to_multiset()
                &&& forall|g: int|
                    0 <= g < out@.len() ==> (#[trigger] out@[g].polygons@).len() >= 1
                &&& groups_are_components(cs, out@)
                &&& forall|g1: int, k1: int, g2: int, k2: int|
                    #![trigger out@[g1].polygons@[k1], out@[g2].polygons@[k2]]
                    0 <= g1 < out@.len() && 0 <= k1 < out@[g1].polygons@.len() && 0 <= g2
                        < out@.len() && 0 <= k2 < out@[g2].polygons@.len() && g1 != g2 ==> !linked(
                        out@[g1].polygons@[k1],
                        out@[g2].polygons@[k2],
                    )
            },
    {
        let ghost g0 = regions@;
        let mut regions = regions;
        let mut rev: Vec<Polygon> = Vec::new();
        while regions.len() > 0
            invariant
                geometry_in_range(regions@),
                forall|i: int| 0 <= i < rev@.len() ==> (#[trigger] rev@[i]).coords_in_range(),
                overlapping_polys(g0, *route_bbox) =~= overlapping_polys(regions@, *route_bbox)
                    + rev@.reverse(),
            decreases regions@.len(),
        {
            let ghost gpre = regions@;
            let ghost rpre = rev@;
            let g = regions.pop();
            proof {
                assert(gpre.drop_last() =~= regions@);
                assert(forall|i: int| 0 <= i < regions@.len() ==> regions@[i] == gpre[i]);
            }
            match g {
                Some(Geometry::Polygon(p)) => {
                    let keep = p.bbox().overlaps(route_bbox);
                    proof {
                        assert(gpre.last() == Geometry::Polygon(p));
                        assert(p.coords_in_range());
                    }
                    if keep {
                        rev.push(p);
                        proof {
                            assert(rev@ == rpre.push(p));
                            assert(rev@.reverse() =~= seq![p] + rpre.reverse());
                            assert(overlapping_polys(gpre, *route_bbox) =~= overlapping_polys(
                                regions@,
                                *route_bbox,
                            ).push(p));
                            assert(overlapping_polys(regions@, *route_bbox).push(p)
                                + rpre.reverse() =~= overlapping_polys(regions@, *route_bbox)
                                + rev@.reverse());
                        }
                    } else {
                        proof {
                            assert(overlapping_polys(gpre, *route_bbox) =~= overlapping_polys(
                                regions@,
                                *route_bbox,
                            ));
                        }
                    }
                },
                _ => {
                    proof {
                        assert(gpre.drop_last() =~= regions@);
                        assert(overlapping_polys(gpre, *route_bbox) =~= overlapping_polys(
                            regions@,
                            *route_bbox,
                        ));
                    }
                },
            }
        }
        let mut cands: Vec<Geometry> = Vec::new();
        while rev.len() > 0
            invariant
                forall|i: int| 0 <= i < rev@.len() ==> (#[trigger] rev@[i]).coords_in_range(),
                geometry_in_range(cands@),
                overlapping_polys(g0, *route_bbox) =~= crate::union::polys_of(cands@)
                    + rev@.reverse(),
            decreases rev@.len(),
        {
            let ghost rpre = rev@;
            let ghost cpre = cands@;
            let p = rev.pop();
            match p {
                Some(p) => {
                    proof {
                        assert(rpre.last() == p);
                        assert(p.coords_in_range());
                        assert(forall|i: int| 0 <= i < rev@.len() ==> rev@[i] == rpre[i]);
                    }
                    cands.push(Geometry::Polygon(p));
                    proof {
                        assert(rpre.reverse() =~= seq![rpre.last()] + rev@.reverse());
                        assert(cands@.drop_last() =~= cpre);
                        assert(crate::union::polys_of(cands@) =~= crate::union::polys_of(
                            cpre,
                        ).push(p));
                        assert(forall|k: int| 0 <= k < cpre.len() ==> cands@[k] == cpre[k]);
                        assert(cands@.last() == Geometry::Polygon(p));
                    }
                },
                None => {},
            }
        }
        proof {
            assert(crate::union::polys_of(cands@) =~= overlapping_polys(g0, *route_bbox));
        }
        union(cands)
    }

    /// Plans the labeling of a route. The plan is complete (`Done`) exactly
    /// when no stored polygon's bounding box overlaps the route's, and then
    /// it returns the route unchanged with an empty green set; otherwise the
    /// plan demands a clip of the unchanged route against the candidate
    /// groups, which hold exactly the box-overlapping polygons, grouped into
    /// their overlap components.
    pub fn label_route_plan(&self, regions: Vec<Geometry>, route: Vec<Coord>) -> (p: LabelPlan)
        requires
            route@.len() >= 1,
            geometry_in_range(regions@),
        ensures
            p is Done <==> overlapping_polys(regions@, ring_bbox(route@)).len() == 0,
            p matches LabelPlan::Done(lr) ==> lr.route@ == route@ && lr.green@.len() == 0,
            p matches LabelPlan::NeedsClip { route: r2, candidates } ==> {
                let cs = overlapping_polys(regions@, ring_bbox(route@));
                &&& r2@ == route@
                &&& groups_mset(candidates@) == cs.to_multiset()
                &&& forall|g: int|
                    0 <= g < candidates@.len() ==> (#[trigger] candidates@[g].polygons@).len() >= 1
                &&& groups_are_components(cs, candidates@)
            },
    {
        let bbox = crate::geom::bbox_of_ring(&route);
        let r = Regions::find_possibly_overlapping_regions(regions, &bbox);
        match r {
            Err(_) => LabelPlan::Done(LabelledRoute { route, green: Vec::new() }),
            Ok(candidates) => {
                proof {
                    let cs = overlapping_polys(regions@, ring_bbox(route@));
                    assert(cs.len() == groups_mset(candidates@).len()) by {
                        assert(groups_mset(candidates@) == cs.to_multiset());
                    }
                    assert(cs.to_multiset().len() == cs.len());
                    if candidates@.len() == 0 {
                        assert(groups_mset(candidates@) =~= Multiset::<Polygon>::empty());
                        assert(cs.len() == 0);
                        assert(false);
                    }
                }
                LabelPlan::NeedsClip { route, candidates }
            },
        }
    }
}

} // verus!
