//! The route client's computational core.
//!
//! The HTTP exchange with the upstream router lives outside the library;
//! here are the two pieces worth proving: the placement of the two route
//! endpoints inside a viewport, and the decoder for the precision-6
//! polyline that the router answers with. At precision 6 a decoded unit is
//! exactly one microdegree, so the decoder lands directly in the library's
//! coordinate model.

use vstd::prelude::*;

use crate::geom::{Bounds, Coord};

verus! {

/// A malformed polyline: a byte outside the encoding alphabet, a truncated
/// value, a value of more than twelve chunks, or a coordinate sum outside
/// the 64-bit range.
#[derive(PartialEq, Eq, Structural, Debug, Clone, Copy)]
pub enum PolylineError {
    Corrupt,
}

/// Places the two route endpoints: one near the western edge slightly
/// north of center, one near the eastern edge slightly south of center.
pub fn route_corners(bounds: &Bounds) -> (r: (Coord, Coord))
    requires
        bounds.wf(),
    ensures
        r.0.x == bounds.sw_lon + (bounds.ne_lon - bounds.sw_lon) / 5,
        r.0.y == bounds.ne_lat - (bounds.ne_lat - bounds.sw_lat) / 2 + (bounds.ne_lat
            - bounds.sw_lat) / 100,
        r.1.x == bounds.ne_lon - (bounds.ne_lon - bounds.sw_lon) / 5,
        r.1.y == bounds.sw_lat + (bounds.ne_lat - bounds.sw_lat) / 2 - (bounds.ne_lat
            - bounds.sw_lat) / 100,
{
    let w = bounds.ne_lon - bounds.sw_lon;
    let h = bounds.ne_lat - bounds.sw_lat;
    let c1 = Coord { x: bounds.sw_lon + w / 5, y: bounds.ne_lat - h / 2 + h / 100 };
    let c2 = Coord { x: bounds.ne_lon - w / 5, y: bounds.sw_lat + h / 2 - h / 100 };
    (c1, c2)
}

/// Thirty-two to the power `k`.
pub open spec fn pow32(k: int) -> int
    decreases k,
{
    if k <= 0 {
        1
    } else {
        32 * pow32(k - 1)
    }
}

/// One encoded value read from position `i`: five data bits per byte, least
/// significant first, each byte offset by 63, bit six marking continuation.
/// Yields the accumulated non-negative value and the position after it.
pub open spec fn raw_value(s: Seq<u8>, i: int) -> Option<(int, int)>
    decreases s.len() - i,
{
    if i < 0 || i >= s.len() || s[i] < 63 || s[i] > 126 {
        None
    } else {
        let c = s[i] - 63;
        if c / 32 == 0 {
            Some((c as int, i + 1))
        } else {
            match raw_value(s, i + 1) {
                Some((v, j)) => Some(((c - 32) + 32 * v, j)),
                None => None,
            }
        }
    }
}

/// A value is well formed when it spans at most twelve bytes, which keeps
/// it far inside the 64-bit range.
pub open spec fn spec_value(s: Seq<u8>, i: int) -> Option<(int, int)> {
    match raw_value(s, i) {
        Some((v, j)) => if j - i <= 12 {
            Some((v, j))
        } else {
            None
        },
        None => None,
    }
}

/// Undoes the zigzag step: even values are non-negative deltas, odd values
/// negative ones.
pub open spec fn dezig(v: int) -> int {
    if v % 2 == 1 {
        -((v + 1) / 2)
    } else {
        v / 2
    }
}

/// The coordinates encoded from position `i` on, given the running sums so
/// far: pairs of zigzag deltas, latitude first, each pair extending the
/// sums; `None` on any malformation or 64-bit overflow.
pub open spec fn decode_pairs(s: Seq<u8>, i: int, x: int, y: int) -> Option<Seq<Coord>>
    decreases s.len() - i,
{
    if i == s.len() {
        Some(Seq::empty())
    } else {
        match spec_value(s, i) {
            None => None,
            Some((vlat, j)) => match spec_value(s, j) {
                None => None,
                Some((vlng, k)) => {
                    let ny = y + dezig(vlat);
                    let nx = x + dezig(vlng);
                    if i64::MIN <= nx <= i64::MAX && i64::MIN <= ny <= i64::MAX && i < k <= s.len() {
                        match decode_pairs(s, k, nx, ny) {
                            Some(rest) => Some(
                                seq![Coord { x: nx as i64, y: ny as i64 }] + rest,
                            ),
                            None => None,
                        }
                    } else {
                        None
                    }
                },
            },
        }
    }
}

/// The coordinate sequence of a precision-6 polyline, if it is well formed.
pub open spec fn polyline_coords(s: Seq<u8>) -> Option<Seq<Coord>> {
    decode_pairs(s, 0, 0, 0)
}

/// A raw value advances, stays in bounds, and is bounded by thirty-two to
/// the number of bytes it spans.
proof fn lemma_raw_value_bound(s: Seq<u8>, i: int)
    requires
        raw_value(s, i) is Some,
    ensures
        ({
            let (v, j) = raw_value(s, i)->Some_0;
            &&& i < j <= s.len()
            &&& 0 <= v < pow32(j - i)
        }),
    decreases s.len() - i,
{
    let c = s[i] - 63;
    assert(pow32(0) == 1);
    assert(pow32(1) == 32 * pow32(0));
    if c / 32 == 0 {
        assert(raw_value(s, i) == Some((c as int, i + 1)));
    } else {
        lemma_raw_value_bound(s, i + 1);
        let (v1, j) = raw_value(s, i + 1)->Some_0;
        let (v, _j) = raw_value(s, i)->Some_0;
        assert(v == (c - 32) + 32 * v1);
        assert(v1 < pow32(j - i - 1));
        assert(32 * v1 <= 32 * (pow32(j - i - 1) - 1)) by (nonlinear_arith)
            requires
                v1 < pow32(j - i - 1),
        ;
        assert(pow32(j - i) == 32 * pow32(j - i - 1));
    }
}

/// Thirty-two to a power is positive and monotone.
proof fn lemma_pow32_mono(a: int, b: int)
    requires
        0 <= a <= b,
    ensures
        1 <= pow32(a) <= pow32(b),
    decreases b,
{
    if b == 0 {
    } else if a == b {
        lemma_pow32_mono(0, a - 1);
    } else {
        lemma_pow32_mono(a, b - 1);
        assert(pow32(b) == 32 * pow32(b - 1));
    }
}

/// Reads one encoded value starting at `start`.
fn read_value(data: &Vec<u8>, start: usize) -> (r: Option<(u64, usize)>)
    requires
        start <= data@.len(),
    ensures
        match r {
            Some(p) => {
                &&& spec_value(data@, start as int) == Some((p.0 as int, p.1 as int))
                &&& start < p.1 <= data@.len()
                &&& p.0 < 0x1000_0000_0000_0000u64
            },
            None => spec_value(data@, start as int) is None,
        },
{
    let dlen = data.len();
    let mut acc: u64 = 0;
    let mut mult: u64 = 1;
    let mut k: usize = 0;
    loop
        invariant
            dlen == data@.len(),
            start + k <= dlen,
            k <= 12,
            mult == pow32(k as int),
            acc < mult,
            mult <= 0x1000_0000_0000_0000u64,
            raw_value(data@, start as int) == (match raw_value(data@, start + k) {
                Some((v, j)) => Some((acc + v * mult, j)),
                None => None::<(int, int)>,
            }),
        decreases 12 - k,
    {
        if k == 12 {
            proof {
                if raw_value(data@, start as int) is Some {
                    lemma_raw_value_bound(data@, start + k);
                    let (v2, j2) = raw_value(data@, start + k)->Some_0;
                    assert(j2 > start + k);
                    assert(raw_value(data@, start as int)->Some_0.1 == j2);
                }
            }
            return None;
        }
        if start + k >= dlen {
            return None;
        }
        let b = data[start + k];
        if b < 63 || b > 126 {
            return None;
        }
        let c = b - 63;
        let bits = (c % 32) as u64;
        proof {
            lemma_pow32_mono(k as int, 11);
            reveal_with_fuel(pow32, 14);
            assert(pow32(11) == 0x0080_0000_0000_0000);
            assert(mult <= 0x0080_0000_0000_0000u64);
            assert(bits * mult <= 31 * mult) by (nonlinear_arith)
                requires
                    bits <= 31,
                    mult >= 0,
            ;
            assert(acc + bits * mult < 32 * mult) by (nonlinear_arith)
                requires
                    acc < mult,
                    bits * mult <= 31 * mult,
            ;
        }
        let acc2 = acc + bits * mult;
        if c / 32 == 0 {
            proof {
                assert(raw_value(data@, start + k) == Some((bits as int, start + k + 1)));
                assert(raw_value(data@, start as int) == Some((
                    acc as int + (bits as int) * (mult as int),
                    start + k + 1,
                )));
                reveal_with_fuel(pow32, 14);
                assert(pow32(12) == 0x1000_0000_0000_0000);
                lemma_pow32_mono(k + 1, 12);
                assert(acc2 < 32 * mult);
                assert(32 * mult == pow32(k + 1));
            }
            return Some((acc2, start + k + 1));
        }
        proof {
            let kk = start + k;
            if raw_value(data@, kk + 1) is Some {
                let (v, j) = raw_value(data@, kk + 1)->Some_0;
                assert(raw_value(data@, kk as int) == Some(((c - 32) + 32 * v, j)));
                assert(acc as int + ((c - 32) + 32 * v) * (mult as int) == (acc2 as int) + v * ((
                mult as int) * 32)) by (nonlinear_arith)
                    requires
                        acc2 == acc + (c % 32) * mult,
                        c - 32 == c % 32,
                        0 <= c <= 63,
                ;
            } else {
                assert(raw_value(data@, kk as int) is None);
            }
            assert(pow32(k + 1) == 32 * pow32(k as int));
        }
        acc = acc2;
        mult = mult * 32;
        k = k + 1;
    }
}

/// Decodes a precision-6 polyline into microdegree coordinates.
///
/// The result is exactly the coordinate sequence the polyline encodes; a
/// malformed polyline is refused.
pub fn decode_polyline(data: &Vec<u8>) -> (r: Result<Vec<Coord>, PolylineError>)
    ensures
        match r {
            Ok(cs) => polyline_coords(data@) == Some(cs@),
            Err(e) => polyline_coords(data@) is None && e == PolylineError::Corrupt,
        },
{
    let mut out: Vec<Coord> = Vec::new();
    let mut pos: usize = 0;
    let mut x: i64 = 0;
    let mut y: i64 = 0;
    while pos < data.len()
        invariant
            pos <= data@.len(),
            polyline_coords(data@) == (match decode_pairs(data@, pos as int, x as int, y as int) {
                Some(rest) => Some(out@ + rest),
                None => None::<Seq<Coord>>,
            }),
        decreases data@.len() - pos,
    {
        let vlat = match read_value(data, pos) {
            Some(p) => p,
            None => {
                return Err(PolylineError::Corrupt);
            },
        };
        let vlng = match read_value(data, vlat.1) {
            Some(p) => p,
            None => {
                return Err(PolylineError::Corrupt);
            },
        };
        let dy = unzigzag(vlat.0);
        let dx = unzigzag(vlng.0);
        let ny = match y.checked_add(dy) {
            Some(v) => v,
            None => {
                return Err(PolylineError::Corrupt);
            },
        };
        let nx = match x.checked_add(dx) {
            Some(v) => v,
            None => {
                return Err(PolylineError::Corrupt);
            },
        };
        let ghost outpre = out@;
        out.push(Coord { x: nx, y: ny });
        proof {
            let k = vlng.1 as int;
            assert(decode_pairs(data@, pos as int, x as int, y as int) == (match decode_pairs(
                data@,
                k,
                nx as int,
                ny as int,
            ) {
                Some(rest) => Some(seq![Coord { x: nx, y: ny }] + rest),
                None => None::<Seq<Coord>>,
            }));
            assert forall|rest: Seq<Coord>|
                outpre + (seq![Coord { x: nx, y: ny }] + rest) =~= out@ + rest by {}
        }
        x = nx;
        y = ny;
        pos = vlng.1;
    }
    proof {
        assert(decode_pairs(data@, pos as int, x as int, y as int) == Some(Seq::<Coord>::empty()));
        assert(out@ + Seq::<Coord>::empty() =~= out@);
    }
    Ok(out)
}

/// Undoes the zigzag step on a bounded value.
fn unzigzag(v: u64) -> (r: i64)
    requires
        v < 0x1000_0000_0000_0000u64,
    ensures
        r as int == dezig(v as int),
{
    if v % 2 == 1 {
        let half = (v + 1) / 2;
        -(half as i64)
    } else {
        (v / 2) as i64
    }
}

} // verus!
