//! The union engine against real boolean-op geometry: the library groups
//! the polygons, geo dissolves each group.

use std::collections::HashSet;

use geo::BooleanOps;
use spectrum::geom::{Coord, Geometry, MultiPolygon, Polygon};
use spectrum::union::union;

fn c(x: i64, y: i64) -> Coord {
    Coord { x, y }
}

/// A polygon from micro-degree corner coordinates.
fn square(pts: Vec<(i64, i64)>) -> Polygon {
    let exterior: Vec<Coord> = pts.into_iter().map(|(x, y)| c(x, y)).collect();
    Polygon { exterior, interiors: Vec::new() }
}

fn to_geo_polygon(p: &Polygon) -> geo::Polygon<f64> {
    let ext: Vec<(f64, f64)> = p
        .exterior
        .iter()
        .map(|c| (c.x as f64 / 1e6, c.y as f64 / 1e6))
        .collect();
    geo::Polygon::new(ext.into(), vec![])
}

/// Reduces one overlap group to its boolean union.
fn dissolve(group: &MultiPolygon) -> geo::MultiPolygon<f64> {
    let polys: Vec<geo::Polygon<f64>> = group.polygons.iter().map(to_geo_polygon).collect();
    let mut acc = geo::MultiPolygon::new(vec![polys[0].clone()]);
    for p in polys.iter().skip(1) {
        acc = acc.union(&geo::MultiPolygon::new(vec![p.clone()]));
    }
    acc
}

fn polygon(geometry: &geo::MultiPolygon<f64>) -> Option<&geo::Polygon<f64>> {
    if geometry.0.len() == 1 {
        Some(&geometry.0[0])
    } else {
        None
    }
}

#[derive(Debug, PartialEq, Eq, Hash)]
struct Edge {
    from: String,
    to: String,
}

fn as_edgeset(poly: &geo::Polygon<f64>) -> Vec<Edge> {
    let mut edges: HashSet<Edge> = HashSet::new();
    let coords: Vec<String> = poly
        .exterior()
        .coords()
        .map(|c| format!("{:?}", c.x_y()))
        .collect();
    for i in 0..coords.len() - 1 {
        edges.insert(Edge {
            from: coords[i].clone(),
            to: coords[(i + 1) % coords.len()].clone(),
        });
    }
    let mut sorted: Vec<Edge> = edges.into_iter().collect();
    sorted.sort_by(|a, b| a.from.cmp(&b.from).then(a.to.cmp(&b.to)));
    sorted
}

fn pretty_print_edgeset(edgeset: &Vec<Edge>) -> String {
    let edges: Vec<String> = edgeset
        .iter()
        .map(|e| format!("{}->{}", e.from, e.to))
        .collect();
    format!("[{}]", edges.join(","))
}

fn assert_equivalent_polygons(actual: &geo::Polygon<f64>, expected: &geo::Polygon<f64>) {
    let actual_edges = pretty_print_edgeset(&as_edgeset(actual));
    let expected_edges = pretty_print_edgeset(&as_edgeset(expected));
    assert_eq!(actual_edges, expected_edges);
}

fn unit_square_1() -> Polygon {
    square(vec![
        (1_000_000, 1_000_000),
        (2_000_000, 1_000_000),
        (2_000_000, 2_000_000),
        (1_000_000, 2_000_000),
        (1_000_000, 1_000_000),
    ])
}

fn unit_square_2() -> Polygon {
    square(vec![
        (1_500_000, 1_500_000),
        (2_500_000, 1_500_000),
        (2_500_000, 2_500_000),
        (1_500_000, 2_500_000),
        (1_500_000, 1_500_000),
    ])
}

fn outer_square() -> Polygon {
    square(vec![
        (500_000, 500_000),
        (3_000_000, 500_000),
        (3_000_000, 3_000_000),
        (500_000, 3_000_000),
        (500_000, 500_000),
    ])
}

#[test]
fn union_of_two_overlapping_polygons() {
    let p1 = Geometry::Polygon(unit_square_1());
    let p2 = Geometry::Polygon(unit_square_2());
    let expected_p = geo::Polygon::new(
        vec![
            (1.0, 1.0),
            (2.0, 1.0),
            (2.0, 1.5),
            (2.5, 1.5),
            (2.5, 2.5),
            (1.5, 2.5),
            (1.5, 2.0),
            (1.0, 2.0),
            (1.0, 1.0),
        ]
        .into(),
        vec![],
    );
    let actual = union(vec![p1, p2]).unwrap();
    assert_eq!(actual.len(), 1);
    let dissolved = dissolve(&actual[0]);
    assert_equivalent_polygons(polygon(&dissolved).unwrap(), &expected_p);
}

#[test]
fn union_where_one_polygon_contains_one_other() {
    let p1 = Geometry::Polygon(unit_square_1());
    let outer = Geometry::Polygon(outer_square());
    let expected_p = to_geo_polygon(&outer_square());
    let actual = union(vec![outer, p1]).unwrap();
    assert_eq!(actual.len(), 1);
    let dissolved = dissolve(&actual[0]);
    assert_equivalent_polygons(polygon(&dissolved).unwrap(), &expected_p);
}

#[test]
fn union_where_one_polygon_contains_multple_others() {
    let p1 = Geometry::Polygon(unit_square_1());
    let p2 = Geometry::Polygon(unit_square_2());
    let outer = Geometry::Polygon(outer_square());
    let expected_p = to_geo_polygon(&outer_square());
    let actual = union(vec![outer, p1, p2]).unwrap();
    for a in &actual {
        println!("{:?}", pretty_print_edgeset(&as_edgeset(polygon(&dissolve(a)).unwrap())));
    }
    assert_eq!(actual.len(), 1);
    let dissolved = dissolve(&actual[0]);
    assert_equivalent_polygons(polygon(&dissolved).unwrap(), &expected_p);
}

#[test]
fn test_as_edgeset() {
    let p = geo::Polygon::new(
        vec![(1.0, 1.0), (2.0, 1.0), (2.0, 2.0), (1.0, 2.0), (1.0, 1.0)].into(),
        vec![],
    );
    let actual_edgeset = as_edgeset(&p);
    let expected_edgeset = vec![
        Edge {
            from: "(1.0, 1.0)".to_string(),
            to: "(2.0, 1.0)".to_string(),
        },
        Edge {
            from: "(1.0, 2.0)".to_string(),
            to: "(1.0, 1.0)".to_string(),
        },
        Edge {
            from: "(2.0, 1.0)".to_string(),
            to: "(2.0, 2.0)".to_string(),
        },
        Edge {
            from: "(2.0, 2.0)".to_string(),
            to: "(1.0, 2.0)".to_string(),
        },
    ];
    assert_eq!(
        pretty_print_edgeset(&actual_edgeset),
        pretty_print_edgeset(&expected_edgeset)
    );
}

/// A single polygon comes back alone and unchanged.
#[test]
fn union_singleton_identity() {
    let p = unit_square_1();
    let actual = union(vec![Geometry::Polygon(unit_square_1())]).unwrap();
    assert_eq!(actual.len(), 1);
    assert_eq!(actual[0].polygons.len(), 1);
    assert_eq!(actual[0].polygons[0].exterior, p.exterior);
}

/// The output groups carry exactly the input polygons: nothing is lost,
/// nothing invented, whatever the grouping.
#[test]
fn union_covers_exactly_the_inputs() {
    let far = square(vec![
        (10_000_000, 10_000_000),
        (11_000_000, 10_000_000),
        (11_000_000, 11_000_000),
        (10_000_000, 11_000_000),
        (10_000_000, 10_000_000),
    ]);
    let inputs = vec![
        Geometry::Polygon(unit_square_1()),
        Geometry::Polygon(unit_square_2()),
        Geometry::Polygon(far.clone()),
        Geometry::Point(c(0, 0)),
    ];
    let actual = union(inputs).unwrap();
    let mut seen: Vec<Vec<Coord>> = Vec::new();
    for g in &actual {
        for p in &g.polygons {
            seen.push(p.exterior.clone());
        }
    }
    seen.sort();
    let mut expected = vec![
        unit_square_1().exterior,
        unit_square_2().exterior,
        far.exterior,
    ];
    expected.sort();
    assert_eq!(seen, expected);
    assert_eq!(actual.len(), 2);
}

/// Polygons whose boxes overlap without the geometry intersecting stay in
/// separate groups: the box join proposes the pair, the exact test rejects
/// it.
#[test]
fn union_keeps_non_intersecting_polygons_apart() {
    // A thin diagonal strip and a small square inside its bounding box but
    // away from the strip.
    let strip = square(vec![
        (0, 0),
        (100_000, 0),
        (3_000_000, 2_900_000),
        (2_900_000, 3_000_000),
        (0, 0),
    ]);
    let island = square(vec![
        (2_000_000, 200_000),
        (2_500_000, 200_000),
        (2_500_000, 700_000),
        (2_000_000, 700_000),
        (2_000_000, 200_000),
    ]);
    let actual = union(vec![
        Geometry::Polygon(strip),
        Geometry::Polygon(island),
    ])
    .unwrap();
    assert_eq!(actual.len(), 2);
    assert_eq!(actual[0].polygons.len(), 1);
    assert_eq!(actual[1].polygons.len(), 1);
}

/// An input without polygons is refused.
#[test]
fn union_empty_input_is_an_error() {
    let r = union(vec![Geometry::Point(c(1, 2))]);
    assert!(r.is_err());
    assert_eq!(r.unwrap_err().message(), "No polygons found");
}

#[test]
fn union_union_where_one_polygon_contains_multple_others() {
    union_where_one_polygon_contains_multple_others();
}

#[test]
fn union_test_as_edgeset() {
    test_as_edgeset();
}

/// When box overlap always coincides with geometric intersection, the
/// output groups are pairwise box-disjoint.
#[test]
fn union_groups_have_disjoint_boxes_when_overlap_is_conclusive() {
    let a = square(vec![
        (0, 0),
        (2_000_000, 0),
        (2_000_000, 2_000_000),
        (0, 2_000_000),
        (0, 0),
    ]);
    let b = square(vec![
        (1_000_000, 1_000_000),
        (3_000_000, 1_000_000),
        (3_000_000, 3_000_000),
        (1_000_000, 3_000_000),
        (1_000_000, 1_000_000),
    ]);
    let far = square(vec![
        (10_000_000, 0),
        (12_000_000, 0),
        (12_000_000, 2_000_000),
        (10_000_000, 2_000_000),
        (10_000_000, 0),
    ]);
    let out = union(vec![
        Geometry::Polygon(a),
        Geometry::Polygon(b),
        Geometry::Polygon(far),
    ])
    .unwrap();
    assert_eq!(out.len(), 2);
    let boxes: Vec<spectrum::geom::BBox> = out
        .iter()
        .map(|g| {
            let mut acc = spectrum::geom::BBox::empty();
            for p in &g.polygons {
                for c in &p.exterior {
                    acc = acc.extend(*c);
                }
            }
            acc
        })
        .collect();
    assert!(!boxes[0].overlaps(&boxes[1]));
}
