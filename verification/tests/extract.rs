use spectrum::extract::{extract_regions, Element, FilterStage, Member, MemberKind};
use spectrum::geom::{Coord, Geometry};
use spectrum::tags::Tag;

fn tag(k: &str, v: &str) -> Tag {
    Tag { key: k.to_string(), value: v.to_string() }
}

fn c(x: i64, y: i64) -> Coord {
    Coord { x, y }
}

fn node(id: i64, x: i64, y: i64) -> Element {
    Element::Node { id, coord: c(x, y) }
}

fn exterior_of(g: &Geometry) -> &Vec<Coord> {
    match g {
        Geometry::Polygon(p) => {
            assert!(p.interiors.is_empty());
            &p.exterior
        },
        _ => panic!("expected a polygon"),
    }
}

/// One park way referencing three nodes plus closure yields exactly one
/// polygon whose four vertices match the nodes.
#[test]
fn extraction_end_to_end() {
    let elements = vec![
        Element::Way {
            id: 1,
            tags: vec![tag("leisure", "park")],
            refs: vec![10, 11, 12, 10],
        },
        node(10, 0, 0),
        node(11, 1_000_000, 0),
        node(12, 0, 1_000_000),
    ];
    let out = extract_regions(&elements);
    assert_eq!(out.len(), 1);
    let ext = exterior_of(&out[0]);
    assert_eq!(ext.len(), 4);
    assert_eq!(
        ext,
        &vec![c(0, 0), c(1_000_000, 0), c(0, 1_000_000), c(0, 0)]
    );
}

/// Nodes may precede the way that references them.
#[test]
fn extraction_nodes_before_way() {
    let elements = vec![
        node(10, 5, 5),
        node(11, 6, 5),
        node(12, 6, 6),
        Element::Way {
            id: 7,
            tags: vec![tag("landuse", "meadow")],
            refs: vec![10, 11, 12, 10],
        },
    ];
    let out = extract_regions(&elements);
    assert_eq!(out.len(), 1);
    assert_eq!(exterior_of(&out[0]).len(), 4);
}

/// The exterior ring has exactly one vertex per node reference of the way.
#[test]
fn exterior_ring_length_matches_reference_count() {
    let refs = vec![20, 21, 22, 23, 20];
    let elements = vec![
        Element::Way {
            id: 2,
            tags: vec![tag("natural", "wood")],
            refs: refs.clone(),
        },
        node(20, 0, 0),
        node(21, 10, 0),
        node(22, 10, 10),
        node(23, 0, 10),
    ];
    let out = extract_regions(&elements);
    assert_eq!(out.len(), 1);
    assert_eq!(exterior_of(&out[0]).len(), refs.len());
}

/// A way with an unresolvable node reference is skipped entirely.
#[test]
fn way_with_missing_node_is_skipped() {
    let elements = vec![
        Element::Way {
            id: 3,
            tags: vec![tag("leisure", "park")],
            refs: vec![30, 31, 30],
        },
        node(30, 1, 1),
        // node 31 never appears
    ];
    let out = extract_regions(&elements);
    assert_eq!(out.len(), 0);
}

/// A way that fails the tag predicate is not extracted.
#[test]
fn non_green_way_is_dropped() {
    let elements = vec![
        Element::Way {
            id: 4,
            tags: vec![tag("highway", "primary")],
            refs: vec![40, 41, 40],
        },
        node(40, 0, 0),
        node(41, 1, 1),
    ];
    let out = extract_regions(&elements);
    assert_eq!(out.len(), 0);
}

/// A green multipolygon relation keeps its first outer way member.
#[test]
fn relation_keeps_first_outer_way() {
    let elements = vec![
        Element::Relation {
            tags: vec![tag("leisure", "park"), tag("type", "multipolygon")],
            members: vec![
                Member { kind: MemberKind::Node, role: "outer".to_string(), id: 99 },
                Member { kind: MemberKind::Way, role: "inner".to_string(), id: 98 },
                Member { kind: MemberKind::Way, role: "outer".to_string(), id: 5 },
                Member { kind: MemberKind::Way, role: "outer".to_string(), id: 97 },
            ],
        },
        Element::Way {
            id: 5,
            tags: vec![],
            refs: vec![50, 51, 52, 50],
        },
        node(50, 0, 0),
        node(51, 2, 0),
        node(52, 0, 2),
    ];
    let out = extract_regions(&elements);
    assert_eq!(out.len(), 1);
    assert_eq!(exterior_of(&out[0]).len(), 4);
}

/// A green relation that is not a multipolygon keeps nothing.
#[test]
fn non_multipolygon_relation_keeps_nothing() {
    let elements = vec![
        Element::Relation {
            tags: vec![tag("leisure", "park")],
            members: vec![Member {
                kind: MemberKind::Way,
                role: "outer".to_string(),
                id: 6,
            }],
        },
        Element::Way {
            id: 6,
            tags: vec![],
            refs: vec![60, 60],
        },
        node(60, 0, 0),
    ];
    let out = extract_regions(&elements);
    assert_eq!(out.len(), 0);
}

/// A later sighting of a node overwrites an earlier one.
#[test]
fn last_node_coordinate_wins() {
    let elements = vec![
        Element::Way {
            id: 8,
            tags: vec![tag("landuse", "grass")],
            refs: vec![80, 81, 80],
        },
        node(80, 1, 1),
        node(81, 2, 2),
        node(80, 3, 3),
    ];
    let out = extract_regions(&elements);
    assert_eq!(out.len(), 1);
    assert_eq!(exterior_of(&out[0]), &vec![c(3, 3), c(2, 2), c(3, 3)]);
}

/// The pass-one counters tally every recorded way, while the kept set
/// stays duplicate-free.
#[test]
fn filter_stage_counts_and_dedupes() {
    let mut fs = FilterStage::new();
    fs.append_way(1);
    fs.append_way(2);
    fs.append_way(1);
    assert_eq!(fs.direct_ways_count, 3);
    assert_eq!(fs.ways_via_relation_count, 0);
    assert_eq!(fs.ways, vec![1, 2]);
    fs.append_relation(
        &vec![
            spectrum::tags::Tag { key: "type".to_string(), value: "multipolygon".to_string() },
        ],
        &vec![Member { kind: MemberKind::Way, role: "outer".to_string(), id: 9 }],
    );
    assert_eq!(fs.ways_via_relation_count, 1);
    assert_eq!(fs.ways, vec![1, 2, 9]);
}
