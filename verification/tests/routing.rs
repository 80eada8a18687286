use spectrum::geom::{Bounds, Coord};
use spectrum::routing::{decode_polyline, route_corners, PolylineError};

fn c(x: i64, y: i64) -> Coord {
    Coord { x, y }
}

fn decode(s: &str) -> Result<Vec<Coord>, PolylineError> {
    decode_polyline(&s.as_bytes().to_vec())
}

#[test]
fn corners_sit_inside_the_viewport() {
    let bounds = Bounds { sw_lat: 0, sw_lon: 0, ne_lat: 10_000_000, ne_lon: 10_000_000 };
    let (c1, c2) = route_corners(&bounds);
    // One fifth in from the west, slightly north of center.
    assert_eq!(c1, c(2_000_000, 5_100_000));
    // One fifth in from the east, slightly south of center.
    assert_eq!(c2, c(8_000_000, 4_900_000));
}

#[test]
fn corners_of_an_offset_viewport() {
    let bounds = Bounds {
        sw_lat: -3_000_000,
        sw_lon: 55_000_000,
        ne_lat: -1_000_000,
        ne_lon: 56_000_000,
    };
    let (c1, c2) = route_corners(&bounds);
    assert_eq!(c1, c(55_200_000, -1_980_000));
    assert_eq!(c2, c(55_800_000, -2_020_000));
}

#[test]
fn decode_single_point() {
    // 38.5 degrees north, 120.2 degrees west, at precision six.
    let r = decode("_izlhA~rlgdF").unwrap();
    assert_eq!(r, vec![c(-120_200_000, 38_500_000)]);
}

#[test]
fn decode_chained_deltas() {
    let r = decode("_izlhA~rlgdF_{geC~ywl@_kwzCn`{nI").unwrap();
    assert_eq!(
        r,
        vec![
            c(-120_200_000, 38_500_000),
            c(-120_950_000, 40_700_000),
            c(-126_453_000, 43_252_000),
        ]
    );
}

#[test]
fn decode_tiny_deltas() {
    let r = decode("??AA").unwrap();
    assert_eq!(r, vec![c(0, 0), c(1, 1)]);
}

#[test]
fn decode_empty_is_empty_route() {
    let r = decode("").unwrap();
    assert_eq!(r, Vec::new());
}

#[test]
fn decode_rejects_truncated_value() {
    // The continuation bit of the last byte promises another byte.
    assert_eq!(decode("_izlhA~rlgd").unwrap_err(), PolylineError::Corrupt);
}

#[test]
fn decode_rejects_odd_value_count() {
    // A latitude delta without its longitude.
    assert_eq!(decode("_izlhA").unwrap_err(), PolylineError::Corrupt);
}

#[test]
fn decode_rejects_bytes_outside_the_alphabet() {
    assert_eq!(decode("  ").unwrap_err(), PolylineError::Corrupt);
}

#[test]
fn decode_rejects_overlong_value() {
    // Thirteen continuation bytes never terminate a value.
    let s: String = std::iter::repeat('`').take(13).collect::<String>() + "?";
    assert_eq!(decode(&s).unwrap_err(), PolylineError::Corrupt);
}
