//! The polygon union engine.
//!
//! The engine partitions an unordered polygon set into maximal groups that
//! are transitively connected through pairwise overlap: a cheap bounding-box
//! join proposes candidate pairs, an exact geometric test confirms them, and
//! a label-merging pass grows the groups. Each output group is one connected
//! component of the overlap graph; reducing a group to a single boolean
//! polygon is left to the caller, so the verified result is the grouping
//! itself, which covers exactly the input polygons.

use vstd::multiset::Multiset;
use vstd::prelude::*;

use crate::geom::{BBox, Coord, Geometry, MultiPolygon, Polygon};

verus! {

broadcast use vstd::seq_lib::group_to_multiset_ensures, vstd::multiset::group_multiset_axioms;

/// What geo's exact intersection test returns for two polygons, given as
/// their rings (exterior first) of integer coordinate pairs. The result is a
/// function of the coordinates alone.
pub uninterp spec fn sects(a: Seq<Seq<(int, int)>>, b: Seq<Seq<(int, int)>>) -> bool;

/// Relies on geo's `Intersects` for `Polygon<i64>`: whether the two polygons
/// share a point, by exact integer predicates. The documentation states the
/// test is symmetric, so the result names both orientations. The kernel's
/// orientation test multiplies coordinate differences, so the call is only
/// made on coordinates in the microdegree range, where every intermediate
/// stays far inside 64 bits.
#[verifier::external_body]
fn poly_intersects(a: &Polygon, b: &Polygon) -> (r: bool)
    requires
        a.coords_in_range(),
        b.coords_in_range(),
    ensures
        r == sects(a.rings_math(), b.rings_math()),
        r == sects(b.rings_math(), a.rings_math()),
{
    let ring = |r: &Vec<Coord>| geo::LineString::from(
        r.iter().map(|c| (c.x, c.y)).collect::<Vec<(i64, i64)>>(),
    );
    let ga = geo::Polygon::new(ring(&a.exterior), a.interiors.iter().map(ring).collect());
    let gb = geo::Polygon::new(ring(&b.exterior), b.interiors.iter().map(ring).collect());
    geo::Intersects::intersects(&ga, &gb)
}

/// Whether the bounding boxes of two polygons overlap.
pub open spec fn polys_overlap(a: Polygon, b: Polygon) -> bool {
    BBox::overlaps_spec(a.bbox_spec(), b.bbox_spec())
}

/// Whether every polygon of the sequence keeps its coordinates in range.
pub open spec fn polys_in_range(ps: Seq<Polygon>) -> bool {
    forall|i: int| 0 <= i < ps.len() ==> (#[trigger] ps[i]).coords_in_range()
}

/// Whether every polygon held by the geometry sequence keeps its
/// coordinates in range.
pub open spec fn geometry_in_range(s: Seq<Geometry>) -> bool {
    forall|k: int|
        0 <= k < s.len() ==> match #[trigger] s[k] {
            Geometry::Polygon(p) => p.coords_in_range(),
            _ => true,
        }
}

/// The polygons of an in-range geometry sequence are in range.
proof fn lemma_polys_of_in_range(s: Seq<Geometry>)
    requires
        geometry_in_range(s),
    ensures
        polys_in_range(polys_of(s)),
    decreases s.len(),
{
    if s.len() > 0 {
        assert(geometry_in_range(s.drop_last())) by {
            assert(forall|k: int| 0 <= k < s.len() - 1 ==> s.drop_last()[k] == s[k]);
        }
        lemma_polys_of_in_range(s.drop_last());
        let rest = polys_of(s.drop_last());
        match s.last() {
            Geometry::Polygon(p) => {
                assert(polys_of(s) == rest.push(p));
                assert(p.coords_in_range());
                assert forall|i: int| 0 <= i < polys_of(s).len() implies (#[trigger] polys_of(
                    s,
                )[i]).coords_in_range() by {
                    if i < rest.len() {
                        assert(polys_of(s)[i] == rest[i]);
                    }
                }
            },
            _ => {},
        }
    }
}

/// Two polygons are linked when their boxes overlap and the exact test
/// confirms a shared point. Both orientations of the test are named so the
/// relation is symmetric by construction.
pub open spec fn linked(a: Polygon, b: Polygon) -> bool {
    polys_overlap(a, b) && (sects(a.rings_math(), b.rings_math()) || sects(
        b.rings_math(),
        a.rings_math(),
    ))
}

/// An edge of the overlap graph over the polygon sequence `ps`.
pub open spec fn edge(ps: Seq<Polygon>, i: int, j: int) -> bool {
    &&& 0 <= i < ps.len()
    &&& 0 <= j < ps.len()
    &&& i != j
    &&& linked(ps[i], ps[j])
}

/// A path through the overlap graph from `i` to `j`.
pub open spec fn is_path(ps: Seq<Polygon>, p: Seq<int>, i: int, j: int) -> bool {
    &&& p.len() >= 1
    &&& p.first() == i
    &&& p.last() == j
    &&& forall|k: int| 0 <= k < p.len() ==> 0 <= #[trigger] p[k] < ps.len()
    &&& forall|k: int| 0 <= k < p.len() - 1 ==> edge(ps, #[trigger] p[k], p[k + 1])
}

/// Transitive reachability through the overlap graph.
pub open spec fn connected(ps: Seq<Polygon>, i: int, j: int) -> bool {
    exists|p: Seq<int>| is_path(ps, p, i, j)
}

pub proof fn lemma_connected_refl(ps: Seq<Polygon>, i: int)
    requires
        0 <= i < ps.len(),
    ensures
        connected(ps, i, i),
{
    let p = seq![i];
    assert(is_path(ps, p, i, i));
}

pub proof fn lemma_edge_connected(ps: Seq<Polygon>, i: int, j: int)
    requires
        edge(ps, i, j),
    ensures
        connected(ps, i, j),
{
    let p = seq![i, j];
    assert(is_path(ps, p, i, j));
}

pub proof fn lemma_connected_sym(ps: Seq<Polygon>, i: int, j: int)
    requires
        connected(ps, i, j),
    ensures
        connected(ps, j, i),
{
    let p = choose|p: Seq<int>| is_path(ps, p, i, j);
    let q = p.reverse();
    assert forall|k: int| 0 <= k < q.len() - 1 implies edge(ps, #[trigger] q[k], q[k + 1]) by {
        assert(q[k] == p[p.len() - 1 - k]);
        assert(q[k + 1] == p[p.len() - 2 - k]);
        assert(edge(ps, p[p.len() - 2 - k], p[p.len() - 1 - k]));
    }
    assert(is_path(ps, q, j, i));
}

pub proof fn lemma_connected_trans(ps: Seq<Polygon>, i: int, j: int, k: int)
    requires
        connected(ps, i, j),
        connected(ps, j, k),
    ensures
        connected(ps, i, k),
{
    let p1 = choose|p: Seq<int>| is_path(ps, p, i, j);
    let p2 = choose|p: Seq<int>| is_path(ps, p, j, k);
    let q = p1 + p2.drop_first();
    assert forall|m: int| 0 <= m < q.len() - 1 implies edge(ps, #[trigger] q[m], q[m + 1]) by {
        if m < p1.len() - 1 {
            assert(q[m] == p1[m]);
            assert(q[m + 1] == p1[m + 1]);
        } else if m == p1.len() - 1 {
            if p2.len() == 1 {
                assert(m == q.len() - 1);
            } else {
                assert(q[m] == p1[p1.len() - 1]);
                assert(q[m + 1] == p2.drop_first()[m - p1.len() + 1]);
                assert(q[m + 1] == p2[1]);
                assert(edge(ps, p2[0], p2[1]));
            }
        } else {
            assert(q[m] == p2.drop_first()[m - p1.len()]);
            assert(q[m + 1] == p2.drop_first()[m - p1.len() + 1]);
            assert(q[m] == p2[m - p1.len() + 1]);
            assert(q[m + 1] == p2[m - p1.len() + 2]);
            assert(edge(ps, p2[m - p1.len() + 1], p2[m - p1.len() + 2]));
        }
    }
    if p2.len() == 1 {
        assert(q =~= p1);
        assert(is_path(ps, q, i, k));
    } else {
        assert(q.last() == p2.drop_first().last());
        assert(is_path(ps, q, i, k));
    }
}

/// Any labeling that agrees across every edge is constant along a path.
proof fn lemma_path_respects_labels(ps: Seq<Polygon>, g: Seq<usize>, p: Seq<int>, i: int, j: int)
    requires
        g.len() == ps.len(),
        forall|a: int, b: int| edge(ps, a, b) ==> g[a] == g[b],
        is_path(ps, p, i, j),
    ensures
        g[i] == g[j],
    decreases p.len(),
{
    if p.len() == 1 {
    } else {
        assert(edge(ps, p[0], p[1]));
        let p2 = p.drop_first();
        assert(is_path(ps, p2, p[1], j));
        lemma_path_respects_labels(ps, g, p2, p[1], j);
    }
}

/// Collects every unordered pair of polygons whose bounding boxes overlap,
/// smaller index first. This is the cheap prefilter: every linked pair is a
/// candidate, and every candidate has overlapping boxes.
pub fn intersection_candidates(polys: &Vec<Polygon>) -> (cands: Vec<(usize, usize)>)
    ensures
        forall|k: int|
            0 <= k < cands@.len() ==> {
                &&& (#[trigger] cands@[k]).0 < cands@[k].1
                &&& (cands@[k].1 as int) < polys@.len()
                &&& polys_overlap(polys@[cands@[k].0 as int], polys@[cands@[k].1 as int])
            },
        forall|i: int, j: int|
            0 <= i < j < polys@.len() && #[trigger] polys_overlap(polys@[i], polys@[j])
                ==> cands@.contains((i as usize, j as usize)),
{
    let n = polys.len();
    let mut boxes: Vec<BBox> = Vec::new();
    let mut i: usize = 0;
    while i < n
        invariant
            i <= n,
            n == polys@.len(),
            boxes@.len() == i,
            forall|t: int| 0 <= t < i ==> #[trigger] boxes@[t] == polys@[t].bbox_spec(),
        decreases n - i,
    {
        boxes.push(polys[i].bbox());
        i = i + 1;
    }
    let mut cands: Vec<(usize, usize)> = Vec::new();
    let mut a: usize = 0;
    while a < n
        invariant
            a <= n,
            n == polys@.len(),
            boxes@.len() == n,
            forall|t: int| 0 <= t < n ==> #[trigger] boxes@[t] == polys@[t].bbox_spec(),
            forall|k: int|
                0 <= k < cands@.len() ==> {
                    &&& (#[trigger] cands@[k]).0 < cands@[k].1
                    &&& (cands@[k].1 as int) < polys@.len()
                    &&& polys_overlap(polys@[cands@[k].0 as int], polys@[cands@[k].1 as int])
                },
            forall|i2: int, j2: int|
                0 <= i2 < j2 < n && i2 < a && #[trigger] polys_overlap(polys@[i2], polys@[j2])
                    ==> cands@.contains((i2 as usize, j2 as usize)),
        decreases n - a,
    {
        let mut b: usize = a + 1;
        while b < n
            invariant
                a < b || b == a + 1,
                a < n,
                a + 1 <= b <= n,
                n == polys@.len(),
                boxes@.len() == n,
                forall|t: int| 0 <= t < n ==> #[trigger] boxes@[t] == polys@[t].bbox_spec(),
                forall|k: int|
                    0 <= k < cands@.len() ==> {
                        &&& (#[trigger] cands@[k]).0 < cands@[k].1
                        &&& (cands@[k].1 as int) < polys@.len()
                        &&& polys_overlap(polys@[cands@[k].0 as int], polys@[cands@[k].1 as int])
                    },
                forall|i2: int, j2: int|
                    0 <= i2 < j2 < n && i2 < a && #[trigger] polys_overlap(polys@[i2], polys@[j2])
                        ==> cands@.contains((i2 as usize, j2 as usize)),
                forall|j2: int|
                    a < j2 < b && #[trigger] polys_overlap(polys@[a as int], polys@[j2])
                        ==> cands@.contains((a, j2 as usize)),
            decreases n - b,
        {
            let ghost prev = cands@;
            if boxes[a].overlaps(&boxes[b]) {
                cands.push((a, b));
                proof {
                    assert(cands@ == prev.push((a, b)));
                    assert(forall|k: int| 0 <= k < prev.len() ==> cands@[k] == prev[k]);
                    assert(cands@.last() == (a, b));
                    assert forall|y: (usize, usize)| prev.contains(y) implies cands@.contains(
                        y,
                    ) by {
                        let w = choose|w: int| 0 <= w < prev.len() && prev[w] == y;
                        assert(cands@[w] == y);
                    }
                    assert(cands@[cands@.len() - 1] == (a, b));
                }
            }
            b = b + 1;
        }
        a = a + 1;
    }
    cands
}

/// Connected indices share any labeling that agrees across every edge.
proof fn lemma_connected_same_label(ps: Seq<Polygon>, g: Seq<usize>, i: int, j: int)
    requires
        g.len() == ps.len(),
        forall|a: int, b: int| edge(ps, a, b) ==> g[a] == g[b],
        connected(ps, i, j),
    ensures
        g[i] == g[j],
{
    let p = choose|p: Seq<int>| is_path(ps, p, i, j);
    lemma_path_respects_labels(ps, g, p, i, j);
}

/// The polygon indices of one overlap group per entry; together the groups
/// are the connected components of the overlap graph.
pub struct Partitioned {
    pub disjunctive_groups: Vec<Vec<usize>>,
}

/// The groups of a `Partitioned` value as mathematical sequences.
pub open spec fn groups_view(r: Partitioned) -> Seq<Seq<usize>> {
    r.disjunctive_groups@.map(|g: int, v: Vec<usize>| v@)
}

/// Whether some group position holds the index `i`.
pub open spec fn covered(gs: Seq<Seq<usize>>, i: int) -> bool {
    exists|g: int, k: int|
        0 <= g < gs.len() && 0 <= k < gs[g].len() && #[trigger] gs[g][k] as int == i
}

/// Whether some group position holds the index `x`.
pub open spec fn covers(gs: Seq<Vec<usize>>, x: int) -> bool {
    exists|g: int, k: int|
        0 <= g < gs.len() && 0 <= k < gs[g]@.len() && #[trigger] gs[g]@[k] as int == x
}

/// `gs` lists exactly the connected components of the overlap graph over
/// `ps`: every index stands in exactly one group position, members of one
/// group are pairwise connected, and members of distinct groups never are.
pub open spec fn component_grouping(ps: Seq<Polygon>, gs: Seq<Seq<usize>>) -> bool {
    &&& (forall|g: int| 0 <= g < gs.len() ==> (#[trigger] gs[g]).len() >= 1)
    &&& (forall|g: int, k: int|
        0 <= g < gs.len() && 0 <= k < gs[g].len() ==> (#[trigger] gs[g][k] as int) < ps.len())
    &&& (forall|i: int| 0 <= i < ps.len() ==> #[trigger] covered(gs, i))
    &&& (forall|g1: int, k1: int, g2: int, k2: int|
        #![trigger gs[g1][k1], gs[g2][k2]]
        0 <= g1 < gs.len() && 0 <= k1 < gs[g1].len() && 0 <= g2 < gs.len() && 0 <= k2
            < gs[g2].len() && gs[g1][k1] == gs[g2][k2] ==> g1 == g2 && k1 == k2)
    &&& (forall|g: int, k1: int, k2: int|
        #![trigger gs[g][k1], gs[g][k2]]
        0 <= g < gs.len() && 0 <= k1 < gs[g].len() && 0 <= k2 < gs[g].len() ==> connected(
            ps,
            gs[g][k1] as int,
            gs[g][k2] as int,
        ))
    &&& (forall|g1: int, k1: int, g2: int, k2: int|
        #![trigger gs[g1][k1], gs[g2][k2]]
        0 <= g1 < gs.len() && 0 <= k1 < gs[g1].len() && 0 <= g2 < gs.len() && 0 <= k2
            < gs[g2].len() && g1 != g2 ==> !connected(ps, gs[g1][k1] as int, gs[g2][k2] as int))
}

/// Partitions the polygons into the connected components of the overlap
/// graph: candidate pairs come from the bounding-box join, the exact test
/// confirms an overlap, and confirmed pairs merge their groups.
#[verifier::rlimit(60)]
pub fn partition(polys: &Vec<Polygon>) -> (r: Partitioned)
    requires
        polys_in_range(polys@),
    ensures
        component_grouping(polys@, groups_view(r)),
{
    let ghost ps = polys@;
    let n = polys.len();
    let cands = intersection_candidates(polys);

    // Every index starts in a group of its own, labeled by itself.
    let mut gid: Vec<usize> = Vec::new();
    let mut i: usize = 0;
    while i < n
        invariant
            i <= n,
            gid@.len() == i,
            forall|t: int| 0 <= t < i ==> #[trigger] gid@[t] as int == t,
        decreases n - i,
    {
        gid.push(i);
        i = i + 1;
    }

    proof {
        assert forall|x: int, y: int|
            #![trigger gid@[x], gid@[y]]
            0 <= x < n && 0 <= y < n && gid@[x] == gid@[y] implies connected(ps, x, y) by {
            assert(gid@[x] as int == x);
            assert(gid@[y] as int == y);
            lemma_connected_refl(ps, x);
        }
    }

    // Confirmed candidate pairs merge the label of one side into the other.
    let mut c: usize = 0;
    while c < cands.len()
        invariant
            c <= cands@.len(),
            n == ps.len(),
            polys@ == ps,
            polys_in_range(ps),
            gid@.len() == n,
            forall|k: int|
                0 <= k < cands@.len() ==> {
                    &&& (#[trigger] cands@[k]).0 < cands@[k].1
                    &&& (cands@[k].1 as int) < n
                },
            forall|k: int|
                0 <= k < cands@.len() ==> polys_overlap(
                    ps[(#[trigger] cands@[k]).0 as int],
                    ps[cands@[k].1 as int],
                ),
            forall|i2: int, j2: int|
                0 <= i2 < j2 < n && #[trigger] polys_overlap(ps[i2], ps[j2]) ==> cands@.contains(
                    (i2 as usize, j2 as usize),
                ),
            forall|x: int, y: int|
                #![trigger gid@[x], gid@[y]]
                0 <= x < n && 0 <= y < n && gid@[x] == gid@[y] ==> connected(ps, x, y),
            forall|k: int|
                0 <= k < c ==> gid@[(#[trigger] cands@[k]).0 as int] == gid@[cands@[k].1 as int]
                    || !linked(ps[cands@[k].0 as int], ps[cands@[k].1 as int]),
        decreases cands@.len() - c,
    {
        let pair = cands[c];
        let a = pair.0;
        let b = pair.1;
        if gid[a] != gid[b] {
            if poly_intersects(&polys[a], &polys[b]) {
                proof {
                    assert(edge(ps, a as int, b as int));
                }
                let ga = gid[a];
                let gb = gid[b];
                let ghost g0 = gid@;
                let mut t: usize = 0;
                while t < n
                    invariant
                        t <= n,
                        n == ps.len(),
                        gid@.len() == n,
                        g0.len() == n,
                        ga == g0[a as int],
                        gb == g0[b as int],
                        ga != gb,
                        forall|x: int|
                            0 <= x < n ==> #[trigger] gid@[x] == (if x < t && g0[x] == gb {
                                ga
                            } else {
                                g0[x]
                            }),
                    decreases n - t,
                {
                    if gid[t] == gb {
                        gid[t] = ga;
                    }
                    t = t + 1;
                }
                proof {
                    lemma_edge_connected(ps, a as int, b as int);
                    assert forall|x: int, y: int|
                        #![trigger gid@[x], gid@[y]]
                        0 <= x < n && 0 <= y < n && gid@[x] == gid@[y] implies connected(
                        ps,
                        x,
                        y,
                    ) by {
                        if g0[x] == g0[y] {
                            assert(connected(ps, x, y));
                        } else {
                            // One side was relabeled from gb to ga, the other
                            // already carried ga: route the path through the
                            // confirmed pair.
                            let (u, v) = if g0[x] == gb {
                                (x, y)
                            } else {
                                (y, x)
                            };
                            assert(g0[u] == gb && g0[v] == ga);
                            assert(connected(ps, u, b as int));
                            assert(connected(ps, v, a as int));
                            lemma_connected_sym(ps, a as int, b as int);
                            lemma_connected_trans(ps, u, b as int, a as int);
                            lemma_connected_sym(ps, v, a as int);
                            lemma_connected_trans(ps, u, a as int, v);
                            if u == x {
                                assert(connected(ps, x, y));
                            } else {
                                lemma_connected_sym(ps, u, v);
                                assert(connected(ps, x, y));
                            }
                        }
                    }
                }
            }
        }
        c = c + 1;
    }

    // Every edge now joins two indices with one label: an unmerged edge
    // would still be a pending candidate.
    proof {
        assert forall|x: int, y: int| edge(ps, x, y) implies gid@[x] == gid@[y] by {
            let (lo, hi) = if x < y {
                (x, y)
            } else {
                (y, x)
            };
            assert(polys_overlap(ps[lo], ps[hi]));
            assert(cands@.contains((lo as usize, hi as usize)));
            let k = choose|k: int| 0 <= k < cands@.len() && cands@[k] == (lo as usize, hi as usize);
            assert(gid@[cands@[k].0 as int] == gid@[cands@[k].1 as int] || !linked(
                ps[cands@[k].0 as int],
                ps[cands@[k].1 as int],
            ));
        }
    }

    // Gather the groups: one per distinct label, in order of first
    // appearance, members ascending.
    let mut groups: Vec<Vec<usize>> = Vec::new();
    let mut labels: Vec<usize> = Vec::new();
    let mut j: usize = 0;
    while j < n
        invariant
            j <= n,
            n == ps.len(),
            gid@.len() == n,
            groups@.len() == labels@.len(),
            forall|x: int, y: int|
                #![trigger gid@[x], gid@[y]]
                0 <= x < n && 0 <= y < n && gid@[x] == gid@[y] ==> connected(ps, x, y),
            forall|x: int, y: int| edge(ps, x, y) ==> gid@[x] == gid@[y],
            forall|g1: int, g2: int|
                #![trigger labels@[g1], labels@[g2]]
                0 <= g1 < g2 < labels@.len() ==> labels@[g1] != labels@[g2],
            forall|g: int| 0 <= g < groups@.len() ==> (#[trigger] groups@[g]@).len() >= 1,
            forall|g: int, k: int|
                0 <= g < groups@.len() && 0 <= k < groups@[g]@.len() ==> {
                    &&& (#[trigger] groups@[g]@[k] as int) < j
                    &&& gid@[groups@[g]@[k] as int] == labels@[g]
                },
            forall|g: int, k1: int, k2: int|
                #![trigger groups@[g]@[k1], groups@[g]@[k2]]
                0 <= g < groups@.len() && 0 <= k1 < k2 < groups@[g]@.len() ==> groups@[g]@[k1]
                    < groups@[g]@[k2],
            forall|x: int| 0 <= x < j ==> #[trigger] covers(groups@, x),
        decreases n - j,
    {
        let lab = gid[j];
        let mut found: bool = false;
        let mut fg: usize = 0;
        let mut g: usize = 0;
        while g < labels.len()
            invariant
                g <= labels@.len(),
                found ==> (fg as int) < labels@.len() && labels@[fg as int] == lab,
                !found ==> forall|g2: int| 0 <= g2 < g ==> labels@[g2] != lab,
            decreases labels@.len() - g,
        {
            if labels[g] == lab {
                found = true;
                fg = g;
            }
            g = g + 1;
        }
        if found {
            let ghost gs0 = groups@;
            groups[fg].push(j);
            proof {
                assert(groups@[fg as int]@ == gs0[fg as int]@.push(j));
                assert(forall|g2: int|
                    0 <= g2 < gs0.len() && g2 != fg ==> groups@[g2] == gs0[g2]);
                assert forall|g2: int, k: int|
                    0 <= g2 < groups@.len() && 0 <= k < groups@[g2]@.len() implies {
                    &&& (#[trigger] groups@[g2]@[k] as int) < j + 1
                    &&& gid@[groups@[g2]@[k] as int] == labels@[g2]
                } by {
                    if g2 == fg && k == groups@[g2]@.len() - 1 {
                        assert(groups@[g2]@[k] == j);
                    } else {
                        assert(groups@[g2]@[k] == gs0[g2]@[k]);
                    }
                }
                assert forall|x: int| 0 <= x < j + 1 implies #[trigger] covers(groups@, x) by {
                    if x == j {
                        assert(groups@[fg as int]@[groups@[fg as int]@.len() - 1] as int == x);
                    } else {
                        assert(covers(gs0, x));
                        let (g2, k) = choose|g2: int, k: int|
                            0 <= g2 < gs0.len() && 0 <= k < gs0[g2]@.len() && #[trigger] gs0[g2]@[k]
                                as int == x;
                        assert(groups@[g2]@[k] as int == x);
                    }
                }
            }
        } else {
            let ghost gs0 = groups@;
            let mut grp: Vec<usize> = Vec::new();
            grp.push(j);
            groups.push(grp);
            labels.push(lab);
            proof {
                assert(groups@.len() == gs0.len() + 1);
                assert(forall|g2: int| 0 <= g2 < gs0.len() ==> groups@[g2] == gs0[g2]);
                assert(groups@[gs0.len() as int]@ =~= seq![j as usize]);
                assert forall|x: int| 0 <= x < j + 1 implies #[trigger] covers(groups@, x) by {
                    if x == j {
                        assert(groups@[gs0.len() as int]@[0] as int == x);
                    } else {
                        assert(covers(gs0, x));
                        let (g2, k) = choose|g2: int, k: int|
                            0 <= g2 < gs0.len() && 0 <= k < gs0[g2]@.len() && #[trigger] gs0[g2]@[k]
                                as int == x;
                        assert(groups@[g2]@[k] as int == x);
                    }
                }
            }
        }
        j = j + 1;
    }

    let r = Partitioned { disjunctive_groups: groups };
    proof {
        let gs = groups_view(r);
        assert(gs.len() == groups@.len());
        assert(forall|g: int| 0 <= g < gs.len() ==> gs[g] == groups@[g]@);
        assert forall|x: int| 0 <= x < ps.len() implies #[trigger] covered(gs, x) by {
            assert(covers(groups@, x));
            let (g, k) = choose|g: int, k: int|
                0 <= g < groups@.len() && 0 <= k < groups@[g]@.len() && #[trigger] groups@[g]@[k]
                    as int == x;
            assert(gs[g][k] as int == x);
        }
        assert forall|g1: int, k1: int, g2: int, k2: int|
            #![trigger gs[g1][k1], gs[g2][k2]]
            0 <= g1 < gs.len() && 0 <= k1 < gs[g1].len() && 0 <= g2 < gs.len() && 0 <= k2
                < gs[g2].len() && gs[g1][k1] == gs[g2][k2] implies g1 == g2 && k1 == k2 by {
            assert(gid@[gs[g1][k1] as int] == labels@[g1]);
            assert(gid@[gs[g2][k2] as int] == labels@[g2]);
            assert(g1 == g2);
            if k1 < k2 {
                assert(groups@[g1]@[k1] < groups@[g1]@[k2]);
            } else if k2 < k1 {
                assert(groups@[g1]@[k2] < groups@[g1]@[k1]);
            }
        }
        assert forall|g: int, k1: int, k2: int|
            #![trigger gs[g][k1], gs[g][k2]]
            0 <= g < gs.len() && 0 <= k1 < gs[g].len() && 0 <= k2 < gs[g].len() implies connected(
            ps,
            gs[g][k1] as int,
            gs[g][k2] as int,
        ) by {
            assert(gid@[gs[g][k1] as int] == labels@[g]);
            assert(gid@[gs[g][k2] as int] == labels@[g]);
        }
        assert forall|g1: int, k1: int, g2: int, k2: int|
            #![trigger gs[g1][k1], gs[g2][k2]]
            0 <= g1 < gs.len() && 0 <= k1 < gs[g1].len() && 0 <= g2 < gs.len() && 0 <= k2
                < gs[g2].len() && g1 != g2 implies !connected(
            ps,
            gs[g1][k1] as int,
            gs[g2][k2] as int,
        ) by {
            if connected(ps, gs[g1][k1] as int, gs[g2][k2] as int) {
                lemma_connected_same_label(ps, gid@, gs[g1][k1] as int, gs[g2][k2] as int);
                assert(labels@[g1] == labels@[g2]);
                if g1 < g2 {
                    assert(labels@[g1] != labels@[g2]);
                } else {
                    assert(labels@[g2] != labels@[g1]);
                }
            }
        }
    }
    r
}

/// The union engine's failure: it refuses an input with no polygon.
#[derive(PartialEq, Eq, Structural, Debug, Clone, Copy)]
pub enum UnionError {
    NoPolygons,
}

impl UnionError {
    /// A short description of the failure.
    pub fn message(&self) -> (r: &'static str)
        ensures
            r@ == "No polygons found"@,
    {
        "No polygons found"
    }
}

/// The polygons of a geometry sequence, in order.
pub open spec fn polys_of(s: Seq<Geometry>) -> Seq<Polygon>
    decreases s.len(),
{
    if s.len() == 0 {
        Seq::empty()
    } else {
        match s.last() {
            Geometry::Polygon(p) => polys_of(s.drop_last()).push(p),
            _ => polys_of(s.drop_last()),
        }
    }
}

/// The polygons held by a sequence of groups, as a multiset.
pub open spec fn groups_mset(gs: Seq<MultiPolygon>) -> Multiset<Polygon>
    decreases gs.len(),
{
    if gs.len() == 0 {
        Multiset::empty()
    } else {
        groups_mset(gs.drop_last()).add(gs.last().polygons@.to_multiset())
    }
}

/// The polygons still held by a sequence of optional slots.
pub open spec fn opts_mset(s: Seq<Option<Polygon>>) -> Multiset<Polygon>
    decreases s.len(),
{
    if s.len() == 0 {
        Multiset::empty()
    } else {
        match s.last() {
            Some(p) => opts_mset(s.drop_last()).insert(p),
            None => opts_mset(s.drop_last()),
        }
    }
}

/// Emptying one filled slot takes exactly its polygon out of the multiset.
proof fn lemma_opts_mset_take(s: Seq<Option<Polygon>>, i: int, p: Polygon)
    requires
        0 <= i < s.len(),
        s[i] == Some(p),
    ensures
        opts_mset(s) == opts_mset(s.update(i, None::<Polygon>)).insert(p),
    decreases s.len(),
{
    let u = s.update(i, None::<Polygon>);
    if i == s.len() - 1 {
        assert(u.drop_last() =~= s.drop_last());
        assert(u.last() is None);
        assert(opts_mset(u) == opts_mset(s.drop_last()));
    } else {
        assert(u.drop_last() =~= s.drop_last().update(i, None::<Polygon>));
        assert(u.last() == s.last());
        lemma_opts_mset_take(s.drop_last(), i, p);
        match s.last() {
            Some(q) => {
                assert(opts_mset(s) == opts_mset(s.drop_last()).insert(q));
                assert(opts_mset(s.drop_last()) == opts_mset(u.drop_last()).insert(p));
                assert(opts_mset(u.drop_last()).insert(p).insert(q) =~= opts_mset(
                    u.drop_last(),
                ).insert(q).insert(p));
            },
            None => {},
        }
    }
}

/// A slot sequence filled from a polygon sequence holds its multiset.
proof fn lemma_opts_mset_full(s: Seq<Option<Polygon>>, q: Seq<Polygon>)
    requires
        s.len() == q.len(),
        forall|t: int| 0 <= t < s.len() ==> #[trigger] s[t] == Some(q[t]),
    ensures
        opts_mset(s) == q.to_multiset(),
    decreases s.len(),
{
    if s.len() == 0 {
        assert forall|x: Polygon| q.to_multiset().count(x) == 0 by {
            if q.to_multiset().count(x) > 0 {
                assert(q.contains(x));
            }
        }
        assert(q.to_multiset() =~= Multiset::<Polygon>::empty());
    } else {
        lemma_opts_mset_full(s.drop_last(), q.drop_last());
        assert(s.last() == Some(q.last()));
        assert(opts_mset(s) == q.drop_last().to_multiset().insert(q.last()));
        assert(q =~= q.drop_last().push(q.last()));
        assert(q.to_multiset() == q.drop_last().push(q.last()).to_multiset());
        assert(q.drop_last().push(q.last()).to_multiset() =~= q.drop_last().to_multiset().insert(
            q.last(),
        ));
    }
}

/// A slot sequence with nothing left holds the empty multiset.
proof fn lemma_opts_mset_all_none(s: Seq<Option<Polygon>>)
    requires
        forall|t: int| 0 <= t < s.len() ==> #[trigger] s[t] is None,
    ensures
        opts_mset(s) == Multiset::<Polygon>::empty(),
    decreases s.len(),
{
    if s.len() > 0 {
        lemma_opts_mset_all_none(s.drop_last());
    }
}

/// The output groups materialize a grouping of `ps` into the connected
/// components of the overlap graph: some assignment of positions to
/// polygon indices exists under which the groups are exactly the
/// components, so members of one group are pairwise connected and members
/// of distinct groups never are.
pub open spec fn groups_are_components(ps: Seq<Polygon>, out: Seq<MultiPolygon>) -> bool {
    exists|gs: Seq<Seq<usize>>|
        {
            &&& #[trigger] component_grouping(ps, gs)
            &&& gs.len() == out.len()
            &&& forall|g: int|
                0 <= g < gs.len() ==> (#[trigger] out[g].polygons@).len() == gs[g].len()
            &&& forall|g: int, k: int|
                #![trigger out[g].polygons@[k]]
                0 <= g < gs.len() && 0 <= k < gs[g].len() ==> out[g].polygons@[k] == ps[gs[g][k]
                    as int]
        }
}

/// Partitions a geometry sequence into its polygons' overlap groups.
///
/// Every retained input polygon appears in exactly one output group, so the
/// region covered by the output is pointwise the region covered by the
/// input; the groups are the connected components of the overlap graph, so
/// polygons of distinct groups are never linked; and a single polygon comes
/// back alone, unchanged. An input without polygons is refused.
#[verifier::rlimit(100)]
#[verifier::spinoff_prover]
pub fn union(geometry: Vec<Geometry>) -> (r: Result<Vec<MultiPolygon>, UnionError>)
    requires
        geometry_in_range(geometry@),
    ensures
        r is Err <==> polys_of(geometry@).len() == 0,
        r matches Ok(out) ==> {
            let ps = polys_of(geometry@);
            &&& groups_mset(out@) == ps.to_multiset()
            &&& forall|g: int| 0 <= g < out@.len() ==> (#[trigger] out@[g].polygons@).len() >= 1
            &&& (ps.len() == 1 ==> out@.len() == 1 && out@[0].polygons@ == ps)
            &&& groups_are_components(ps, out@)
            &&& forall|g1: int, k1: int, g2: int, k2: int|
                #![trigger out@[g1].polygons@[k1], out@[g2].polygons@[k2]]
                0 <= g1 < out@.len() && 0 <= k1 < out@[g1].polygons@.len() && 0 <= g2 < out@.len()
                    && 0 <= k2 < out@[g2].polygons@.len() && g1 != g2 ==> !linked(
                    out@[g1].polygons@[k1],
                    out@[g2].polygons@[k2],
                )
        },
{
    let ghost g0 = geometry@;
    let mut geometry = geometry;

    // Keep the polygons, dropping other geometry.
    let mut rev: Vec<Polygon> = Vec::new();
    while geometry.len() > 0
        invariant
            polys_of(g0) =~= polys_of(geometry@) + rev@.reverse(),
        decreases geometry@.len(),
    {
        let ghost gpre = geometry@;
        let ghost rpre = rev@;
        let g = geometry.pop();
        match g {
            Some(Geometry::Polygon(p)) => {
                rev.push(p);
                proof {
                    assert(rev@ == rpre.push(p));
                    assert(rev@.reverse() =~= seq![p] + rpre.reverse());
                    assert(polys_of(gpre) =~= polys_of(geometry@).push(p));
                    assert(polys_of(geometry@).push(p) + rpre.reverse() =~= polys_of(geometry@)
                        + rev@.reverse());
                }
            },
            _ => {
                proof {
                    assert(polys_of(gpre) =~= polys_of(geometry@));
                }
            },
        }
    }
    let mut polys: Vec<Polygon> = Vec::new();
    while rev.len() > 0
        invariant
            polys_of(g0) =~= polys@ + rev@.reverse(),
        decreases rev@.len(),
    {
        let ghost rpre = rev@;
        let p = rev.pop();
        match p {
            Some(p) => {
                polys.push(p);
                proof {
                    assert(rpre.reverse() =~= seq![rpre.last()] + rev@.reverse());
                }
            },
            None => {},
        }
    }
    proof {
        assert(polys@ =~= polys_of(g0));
    }

    let ghost ps = polys_of(g0);
    let n = polys.len();
    if n == 0 {
        return Err(UnionError::NoPolygons);
    }

    proof {
        lemma_polys_of_in_range(g0);
    }
    let part = partition(&polys);
    let ghost gsv = groups_view(part);

    // Move each polygon into its group's slot.
    let mut opts: Vec<Option<Polygon>> = Vec::new();
    while polys.len() > 0
        invariant
            polys@ =~= ps.subrange(opts@.len() as int, ps.len() as int),
            opts@.len() + polys@.len() == ps.len(),
            forall|t: int| 0 <= t < opts@.len() ==> #[trigger] opts@[t] == Some(ps[t]),
        decreases polys@.len(),
    {
        let p = polys.remove(0);
        opts.push(Some(p));
    }

    let mut out: Vec<MultiPolygon> = Vec::new();
    proof {
        lemma_opts_mset_full(opts@, ps);
        assert forall|t: int| 0 <= t < n implies #[trigger] opts@[t] == (if taken_before(
            gsv,
            0,
            0,
            t,
        ) {
            None::<Polygon>
        } else {
            Some(ps[t])
        }) by {
            if taken_before(gsv, 0, 0, t) {
                let (g2, k2) = choose|g2: int, k2: int|
                    0 <= g2 < gsv.len() && 0 <= k2 < gsv[g2].len() && (g2 < 0 || (g2 == 0 && k2
                        < 0)) && #[trigger] gsv[g2][k2] as int == t;
                assert(false);
            }
        }
        assert(groups_mset(out@).add(opts_mset(opts@)) =~= ps.to_multiset());
    }
    let mut g: usize = 0;
    while g < part.disjunctive_groups.len()
        invariant
            g <= part.disjunctive_groups@.len(),
            n == ps.len(),
            gsv == groups_view(part),
            gsv.len() == part.disjunctive_groups@.len(),
            component_grouping(ps, gsv),
            opts@.len() == n,
            out@.len() == g,
            forall|t: int|
                0 <= t < n ==> #[trigger] opts@[t] == (if taken_before(gsv, g as int, 0, t) {
                    None::<Polygon>
                } else {
                    Some(ps[t])
                }),
            groups_mset(out@).add(opts_mset(opts@)) =~= ps.to_multiset(),
            forall|g2: int|
                0 <= g2 < g ==> (#[trigger] out@[g2].polygons@).len() == gsv[g2].len(),
            forall|g2: int, k2: int|
                #![trigger out@[g2].polygons@[k2]]
                0 <= g2 < g && 0 <= k2 < gsv[g2].len() ==> out@[g2].polygons@[k2] == ps[gsv[g2][k2]
                    as int],
        decreases part.disjunctive_groups@.len() - g,
    {
        let group_len = part.disjunctive_groups[g].len();
        let mut mp: Vec<Polygon> = Vec::new();
        proof {
            assert forall|x: Polygon| mp@.to_multiset().count(x) == 0 by {
                if mp@.to_multiset().count(x) > 0 {
                    assert(mp@.contains(x));
                }
            }
            assert(mp@.to_multiset() =~= Multiset::<Polygon>::empty());
            assert(groups_mset(out@).add(mp@.to_multiset()).add(opts_mset(opts@))
                =~= ps.to_multiset());
        }
        let mut k: usize = 0;
        while k < group_len
            invariant
                k <= group_len,
                g < part.disjunctive_groups@.len(),
                group_len == gsv[g as int].len(),
                n == ps.len(),
                gsv == groups_view(part),
                gsv.len() == part.disjunctive_groups@.len(),
                component_grouping(ps, gsv),
                opts@.len() == n,
                mp@.len() == k,
                forall|t: int|
                    0 <= t < n ==> #[trigger] opts@[t] == (if taken_before(
                        gsv,
                        g as int,
                        k as int,
                        t,
                    ) {
                        None::<Polygon>
                    } else {
                        Some(ps[t])
                    }),
                groups_mset(out@).add(mp@.to_multiset()).add(opts_mset(opts@)) =~= ps.to_multiset(),
                forall|k2: int|
                    0 <= k2 < k ==> #[trigger] mp@[k2] == ps[gsv[g as int][k2] as int],
            decreases group_len - k,
        {
            let idx = part.disjunctive_groups[g][k];
            proof {
                assert(gsv[g as int][k as int] as int == part.disjunctive_groups@[g as int]@[k
                    as int] as int);
                assert(!taken_before(gsv, g as int, k as int, idx as int));
                assert(opts@[idx as int] == Some(ps[idx as int]));
            }
            let ghost o0 = opts@;
            let ghost mp0 = mp@;
            let mut slot: Option<Polygon> = None;
            core::mem::swap(&mut slot, &mut opts[idx]);
            match slot {
                Some(p) => {
                    mp.push(p);
                    proof {
                        assert(p == ps[idx as int]);
                        assert(opts@ == o0.update(idx as int, None::<Polygon>));
                        lemma_opts_mset_take(o0, idx as int, p);
                        assert(opts_mset(o0) == opts_mset(opts@).insert(p));
                        assert(mp@ == mp0.push(p));
                        assert(mp@.to_multiset() =~= mp0.to_multiset().insert(p));
                        let base = groups_mset(out@);
                        assert(base.add(mp0.to_multiset()).add(opts_mset(o0)) =~= ps.to_multiset());
                        assert(base.add(mp@.to_multiset()).add(opts_mset(opts@)) =~= base.add(
                            mp0.to_multiset(),
                        ).add(opts_mset(o0)));
                        assert forall|t: int| 0 <= t < n implies #[trigger] opts@[t] == (
                        if taken_before(gsv, g as int, k + 1, t) {
                            None::<Polygon>
                        } else {
                            Some(ps[t])
                        }) by {
                            if t == idx as int {
                                assert(gsv[g as int][k as int] as int == t);
                                assert(taken_before(gsv, g as int, k + 1, t));
                            } else {
                                assert(opts@[t] == o0[t]);
                                assert(taken_before(gsv, g as int, k + 1, t) == taken_before(
                                    gsv,
                                    g as int,
                                    k as int,
                                    t,
                                )) by {
                                    if taken_before(gsv, g as int, k + 1, t) {
                                        let (g2, k2) = choose|g2: int, k2: int|
                                            0 <= g2 < gsv.len() && 0 <= k2 < gsv[g2].len() && (g2
                                                < g as int || (g2 == g as int && k2 < k + 1))
                                                && #[trigger] gsv[g2][k2] as int == t;
                                        if g2 == g as int && k2 == k as int {
                                            assert(t == idx as int);
                                        } else {
                                            assert(taken_before(gsv, g as int, k as int, t));
                                        }
                                    }
                                    if taken_before(gsv, g as int, k as int, t) {
                                        let (g2, k2) = choose|g2: int, k2: int|
                                            0 <= g2 < gsv.len() && 0 <= k2 < gsv[g2].len() && (g2
                                                < g as int || (g2 == g as int && k2 < k))
                                                && #[trigger] gsv[g2][k2] as int == t;
                                        assert(taken_before(gsv, g as int, k + 1, t));
                                    }
                                }
                            }
                        }
                    }
                },
                None => {
                    proof {
                        assert(o0[idx as int] == Some(ps[idx as int]));
                        assert(false);
                    }
                },
            }
            k = k + 1;
        }
        let ghost outpre = out@;
        let ghost mpv = mp@;
        out.push(MultiPolygon { polygons: mp });
        proof {
            assert(out@.drop_last() =~= outpre);
            assert(out@.last().polygons@ == mpv);
            assert(groups_mset(out@) == groups_mset(out@.drop_last()).add(
                out@.last().polygons@.to_multiset(),
            ));
            assert(groups_mset(out@).add(opts_mset(opts@)) =~= ps.to_multiset());
            assert(forall|g2: int| 0 <= g2 < outpre.len() ==> #[trigger] out@[g2] == outpre[g2]);
            assert(out@[g as int].polygons@ == mpv);
            assert(mpv.len() == gsv[g as int].len());
            assert forall|g2: int| 0 <= g2 < g + 1 implies (#[trigger] out@[g2].polygons@).len()
                == gsv[g2].len() by {
                if g2 < g {
                    assert(out@[g2] == outpre[g2]);
                    assert(outpre[g2].polygons@.len() == gsv[g2].len());
                }
            }
            assert forall|g2: int, k2: int|
                #![trigger out@[g2].polygons@[k2]]
                0 <= g2 < g + 1 && 0 <= k2 < gsv[g2].len() implies out@[g2].polygons@[k2]
                == ps[gsv[g2][k2] as int] by {
                if g2 < g {
                    assert(out@[g2] == outpre[g2]);
                    assert(outpre[g2].polygons@[k2] == ps[gsv[g2][k2] as int]);
                } else {
                    assert(out@[g2].polygons@[k2] == mpv[k2]);
                }
            }
            assert forall|t: int| 0 <= t < n implies #[trigger] opts@[t] == (if taken_before(
                gsv,
                g + 1,
                0,
                t,
            ) {
                None::<Polygon>
            } else {
                Some(ps[t])
            }) by {
                assert(taken_before(gsv, g + 1, 0, t) == taken_before(
                    gsv,
                    g as int,
                    gsv[g as int].len() as int,
                    t,
                )) by {
                    if taken_before(gsv, g + 1, 0, t) {
                        let (g2, k2) = choose|g2: int, k2: int|
                            0 <= g2 < gsv.len() && 0 <= k2 < gsv[g2].len() && (g2 < g + 1 || (g2 == g
                                + 1 && k2 < 0)) && #[trigger] gsv[g2][k2] as int == t;
                        assert(taken_before(gsv, g as int, gsv[g as int].len() as int, t));
                    }
                    if taken_before(gsv, g as int, gsv[g as int].len() as int, t) {
                        let (g2, k2) = choose|g2: int, k2: int|
                            0 <= g2 < gsv.len() && 0 <= k2 < gsv[g2].len() && (g2 < g as int || (g2
                                == g as int && k2 < gsv[g as int].len())) && #[trigger] gsv[g2][k2]
                                as int == t;
                        assert(taken_before(gsv, g + 1, 0, t));
                    }
                }
            }
        }
        g = g + 1;
    }

    proof {
        // Every slot was consumed, so the output holds exactly the input
        // polygons.
        assert forall|t: int| 0 <= t < opts@.len() implies #[trigger] opts@[t] is None by {
            assert(covered(gsv, t));
            let (g2, k2) = choose|g2: int, k2: int|
                0 <= g2 < gsv.len() && 0 <= k2 < gsv[g2].len() && #[trigger] gsv[g2][k2] as int == t;
            assert(taken_before(gsv, gsv.len() as int, 0, t));
        }
        lemma_opts_mset_all_none(opts@);
        assert(groups_mset(out@) =~= ps.to_multiset());
        assert forall|g: int| 0 <= g < out@.len() implies (#[trigger] out@[g].polygons@).len()
            >= 1 by {
            assert(out@[g].polygons@.len() == gsv[g].len());
        }
        // The index groups of the partition witness the component structure.
        assert(groups_are_components(ps, out@)) by {
            assert(component_grouping(ps, gsv));
            assert(gsv.len() == out@.len());
            assert(forall|g: int|
                0 <= g < gsv.len() ==> (#[trigger] out@[g].polygons@).len() == gsv[g].len());
        }
        // A single input polygon is its own single group.
        if ps.len() == 1 {
            assert(out@.len() == gsv.len());
            if gsv.len() > 1 {
                assert(gsv[0].len() >= 1);
                assert(gsv[1].len() >= 1);
                assert(gsv[0][0] as int == 0 && gsv[1][0] as int == 0);
                assert(false);
            }
            assert(gsv.len() == 1);
            if gsv[0].len() > 1 {
                assert(gsv[0][0] as int == 0 && gsv[0][1] as int == 0);
                assert(false);
            }
            assert(out@[0].polygons@.len() == 1);
            assert(out@[0].polygons@[0] == ps[0]);
            assert(out@[0].polygons@ =~= ps);
        }
        // Polygons of distinct groups are never linked.
        assert forall|g1: int, k1: int, g2: int, k2: int|
            #![trigger out@[g1].polygons@[k1], out@[g2].polygons@[k2]]
            0 <= g1 < out@.len() && 0 <= k1 < out@[g1].polygons@.len() && 0 <= g2 < out@.len() && 0
                <= k2 < out@[g2].polygons@.len() && g1 != g2 implies !linked(
            out@[g1].polygons@[k1],
            out@[g2].polygons@[k2],
        ) by {
            let i1 = gsv[g1][k1] as int;
            let i2 = gsv[g2][k2] as int;
            assert(out@[g1].polygons@[k1] == ps[i1]);
            assert(out@[g2].polygons@[k2] == ps[i2]);
            assert(!connected(ps, i1, i2));
            if linked(ps[i1], ps[i2]) {
                if i1 == i2 {
                    assert(g1 == g2);
                } else {
                    assert(edge(ps, i1, i2));
                    lemma_edge_connected(ps, i1, i2);
                }
            }
        }
    }
    Ok(out)
}

/// Output groups are pairwise box-disjoint wherever box overlap is
/// conclusive. In general two polygons of distinct groups may still have
/// overlapping bounding boxes (they merely share no point); but on inputs
/// where every box-overlapping pair also intersects geometrically, the
/// unlinked cross-group pairs that `union` guarantees have disjoint boxes.
pub proof fn lemma_unlinked_boxes_disjoint(a: Polygon, b: Polygon)
    requires
        !linked(a, b),
        BBox::overlaps_spec(a.bbox_spec(), b.bbox_spec()) ==> sects(a.rings_math(), b.rings_math()),
    ensures
        !BBox::overlaps_spec(a.bbox_spec(), b.bbox_spec()),
{
}

/// Whether some group position before `(g, k)` in iteration order holds the
/// index `t`.
pub open spec fn taken_before(gs: Seq<Seq<usize>>, g: int, k: int, t: int) -> bool {
    exists|g2: int, k2: int|
        0 <= g2 < gs.len() && 0 <= k2 < gs[g2].len() && (g2 < g || (g2 == g && k2 < k))
            && #[trigger] gs[g2][k2] as int == t
}

} // verus!
