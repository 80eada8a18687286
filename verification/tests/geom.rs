use spectrum::geom::{BBox, Bounds, Coord};

#[test]
fn test_bounds_from_rect() {
    let bounds = Bounds::from_rect(Coord { x: 5, y: 7 }, Coord { x: 15, y: 17 });
    assert_eq!(bounds.sw_lat, 7);
    assert_eq!(bounds.sw_lon, 5);
    assert_eq!(bounds.ne_lat, 17);
    assert_eq!(bounds.ne_lon, 15);
}

#[test]
fn bounds_from_rect_normalizes_corners() {
    let bounds = Bounds::from_rect(Coord { x: 15, y: 17 }, Coord { x: 5, y: 7 });
    assert_eq!(bounds.sw_lat, 7);
    assert_eq!(bounds.sw_lon, 5);
    assert_eq!(bounds.ne_lat, 17);
    assert_eq!(bounds.ne_lon, 15);
}

#[test]
fn bbox_of_ring_covers_all_points() {
    let ring = vec![
        Coord { x: 3, y: -2 },
        Coord { x: -7, y: 5 },
        Coord { x: 4, y: 1 },
    ];
    let b = spectrum::geom::bbox_of_ring(&ring);
    assert_eq!(b, BBox { min_x: -7, min_y: -2, max_x: 4, max_y: 5 });
}

#[test]
fn bbox_of_empty_ring_is_empty() {
    let b = spectrum::geom::bbox_of_ring(&Vec::new());
    assert!(b.is_empty());
    let unit = spectrum::geom::bbox_of_ring(&vec![Coord { x: 0, y: 0 }]);
    assert!(!b.overlaps(&unit));
}

#[test]
fn bbox_overlap_is_symmetric_and_exact() {
    let a = BBox { min_x: 0, min_y: 0, max_x: 10, max_y: 10 };
    let b = BBox { min_x: 10, min_y: 10, max_x: 20, max_y: 20 };
    let c = BBox { min_x: 11, min_y: 0, max_x: 20, max_y: 10 };
    assert!(a.overlaps(&b));
    assert!(b.overlaps(&a));
    assert!(!a.overlaps(&c));
}
