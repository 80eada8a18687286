use geo::BooleanOps;
use spectrum::geom::{Coord, Geometry, MultiPolygon, Polygon};
use spectrum::regions::{LabelPlan, Regions};

fn c(x: i64, y: i64) -> Coord {
    Coord { x, y }
}

fn rect(x1: i64, y1: i64, x2: i64, y2: i64) -> Polygon {
    Polygon {
        exterior: vec![c(x1, y1), c(x2, y1), c(x2, y2), c(x1, y2), c(x1, y1)],
        interiors: Vec::new(),
    }
}

fn to_geo_polygon(p: &Polygon) -> geo::Polygon<f64> {
    let ext: Vec<(f64, f64)> = p
        .exterior
        .iter()
        .map(|c| (c.x as f64 / 1e6, c.y as f64 / 1e6))
        .collect();
    geo::Polygon::new(ext.into(), vec![])
}

fn dissolve_all(groups: &[MultiPolygon]) -> geo::MultiPolygon<f64> {
    let mut acc: Option<geo::MultiPolygon<f64>> = None;
    for g in groups {
        for p in &g.polygons {
            let mp = geo::MultiPolygon::new(vec![to_geo_polygon(p)]);
            acc = Some(match acc {
                None => mp,
                Some(a) => a.union(&mp),
            });
        }
    }
    acc.unwrap()
}

fn clip_route(groups: &[MultiPolygon], route: &[Coord]) -> geo::MultiLineString<f64> {
    let line: geo::LineString<f64> = route
        .iter()
        .map(|c| (c.x as f64 / 1e6, c.y as f64 / 1e6))
        .collect::<Vec<(f64, f64)>>()
        .into();
    dissolve_all(groups).clip(&geo::MultiLineString::new(vec![line]), false)
}

/// A route with no stored polygons at all is labeled green-free outright.
#[test]
fn empty_store_labels_nothing() {
    let regions = Regions::default();
    let plan = regions.label_route_plan(Vec::new(), vec![c(0, 0), c(1_000_000, 1_000_000)]);
    match plan {
        LabelPlan::Done(lr) => {
            assert_eq!(lr.route, vec![c(0, 0), c(1_000_000, 1_000_000)]);
            assert!(lr.green.is_empty());
        },
        LabelPlan::NeedsClip { .. } => panic!("nothing to clip"),
    }
}

/// A route entirely outside every stored polygon is labeled green-free.
#[test]
fn route_outside_all_polygons() {
    let store = vec![Geometry::Polygon(rect(
        10_000_000, 10_000_000, 11_000_000, 11_000_000,
    ))];
    let route = vec![c(0, 0), c(1_000_000, 1_000_000)];
    let regions = Regions::default();
    match regions.label_route_plan(store, route.clone()) {
        LabelPlan::Done(lr) => {
            assert_eq!(lr.route, route);
            assert!(lr.green.is_empty());
        },
        LabelPlan::NeedsClip { .. } => panic!("the boxes do not overlap"),
    }
}

/// A route crossing one polygon keeps exactly the crossing segment.
#[test]
fn route_crosses_a_polygon() {
    let store = vec![Geometry::Polygon(rect(1_000_000, 0, 3_000_000, 2_000_000))];
    let route = vec![c(0, 1_000_000), c(4_000_000, 1_000_000)];
    let regions = Regions::default();
    match regions.label_route_plan(store, route.clone()) {
        LabelPlan::Done(_) => panic!("the route crosses the polygon's box"),
        LabelPlan::NeedsClip { route: r, candidates } => {
            assert_eq!(r, route);
            let green = clip_route(&candidates, &r);
            assert_eq!(green.0.len(), 1);
            let seg: Vec<(f64, f64)> = green.0[0].coords().map(|c| c.x_y()).collect();
            assert_eq!(seg, vec![(1.0, 1.0), (3.0, 1.0)]);
        },
    }
}

/// A route whose box lies inside one green polygon is green end to end.
#[test]
fn route_inside_a_polygon_is_all_green() {
    let store = vec![Geometry::Polygon(rect(0, 0, 10_000_000, 10_000_000))];
    let route = vec![c(2_000_000, 2_000_000), c(3_000_000, 3_000_000)];
    let regions = Regions::default();
    match regions.label_route_plan(store, route.clone()) {
        LabelPlan::Done(_) => panic!("the route lies inside the polygon"),
        LabelPlan::NeedsClip { route: r, candidates } => {
            let green = clip_route(&candidates, &r);
            assert_eq!(green.0.len(), 1);
            let seg: Vec<(f64, f64)> = green.0[0].coords().map(|c| c.x_y()).collect();
            assert_eq!(seg, vec![(2.0, 2.0), (3.0, 3.0)]);
        },
    }
}

/// The candidate prefilter keeps exactly the box-overlapping polygons.
#[test]
fn candidates_are_the_overlapping_polygons() {
    let near = rect(0, 0, 2_000_000, 2_000_000);
    let far = rect(20_000_000, 20_000_000, 21_000_000, 21_000_000);
    let store = vec![
        Geometry::Polygon(near.clone()),
        Geometry::Polygon(far),
        Geometry::Point(c(1, 1)),
    ];
    let bbox = spectrum::geom::bbox_of_ring(&vec![c(1_000_000, 1_000_000), c(3_000_000, 1_000_000)]);
    let out = Regions::find_possibly_overlapping_regions(store, &bbox).unwrap();
    assert_eq!(out.len(), 1);
    assert_eq!(out[0].polygons.len(), 1);
    assert_eq!(out[0].polygons[0].exterior, near.exterior);
}

/// With nothing overlapping, the prefilter reports the empty-input error.
#[test]
fn no_overlapping_candidates_is_an_error() {
    let store = vec![Geometry::Polygon(rect(
        20_000_000, 20_000_000, 21_000_000, 21_000_000,
    ))];
    let bbox = spectrum::geom::bbox_of_ring(&vec![c(0, 0), c(1_000_000, 0)]);
    assert!(Regions::find_possibly_overlapping_regions(store, &bbox).is_err());
}
