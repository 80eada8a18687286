//! The three-pass extraction pipeline.
//!
//! The pipeline reconstructs planar polygons from a stream of
//! OpenStreetMap elements. Pass one selects the ways to keep (green ways,
//! plus the first outer way member of each green multipolygon relation);
//! pass two records the ordered node references of each kept way; pass
//! three resolves node references to coordinates and assembles a polygon
//! per way. A way with an unresolvable node reference is skipped entirely.
//!
//! The streaming itself (reading the file) lives outside the library: the
//! stages here consume plain values, and `extract_regions` runs the three
//! passes over an in-memory element sequence.

use vstd::prelude::*;

use crate::geom::{Coord, Geometry, Polygon};
use crate::tags::{green_tag_filter, has_tag, is_green, str_eq, tag_set, Tag};

verus! {

/// The kind of a relation member.
#[derive(Clone, Copy, PartialEq, Eq, Structural, Debug)]
pub enum MemberKind {
    Node,
    Way,
    Relation,
}

/// One member of a relation.
#[derive(Clone, Debug)]
pub struct Member {
    pub kind: MemberKind,
    pub role: String,
    pub id: i64,
}

/// One element of an OpenStreetMap stream.
#[derive(Clone, Debug)]
pub enum Element {
    Node { id: i64, coord: Coord },
    Way { id: i64, tags: Vec<Tag>, refs: Vec<i64> },
    Relation { tags: Vec<Tag>, members: Vec<Member> },
}

/// Whether a member is a way in the `outer` role.
pub open spec fn is_outer_way(m: Member) -> bool {
    m.kind == MemberKind::Way && m.role@ == "outer"@
}

/// The first member that is a way in the `outer` role, if any.
pub open spec fn first_outer(s: Seq<Member>) -> Option<Member>
    decreases s.len(),
{
    if s.len() == 0 {
        None
    } else if is_outer_way(s.first()) {
        Some(s.first())
    } else {
        first_outer(s.drop_first())
    }
}

/// Whether the element causes the way `w` to be kept: it is a green way
/// with that id, or a green multipolygon relation whose first outer way
/// member has that id.
pub open spec fn retains(e: Element, w: i64) -> bool {
    match e {
        Element::Way { id, tags, refs } => id == w && is_green(tag_set(tags@)),
        Element::Relation { tags, members } => {
            &&& is_green(tag_set(tags@))
            &&& tag_set(tags@).contains(("type"@, "multipolygon"@))
            &&& match first_outer(members@) {
                Some(m) => m.id == w,
                None => false,
            }
        },
        _ => false,
    }
}

/// The set of way ids kept by pass one.
pub open spec fn retained_set(elems: Seq<Element>) -> Set<i64> {
    Set::new(|w: i64| exists|i: int| 0 <= i < elems.len() && retains(#[trigger] elems[i], w))
}

/// The node references of the last way element with id `w`, if any.
pub open spec fn last_way_refs(elems: Seq<Element>, w: i64) -> Option<Seq<i64>>
    decreases elems.len(),
{
    if elems.len() == 0 {
        None
    } else {
        match elems.last() {
            Element::Way { id, tags, refs } => if id == w {
                Some(refs@)
            } else {
                last_way_refs(elems.drop_last(), w)
            },
            _ => last_way_refs(elems.drop_last(), w),
        }
    }
}

/// The coordinate of the last node element with id `r`, if any.
pub open spec fn last_node_coord(elems: Seq<Element>, r: i64) -> Option<Coord>
    decreases elems.len(),
{
    if elems.len() == 0 {
        None
    } else {
        match elems.last() {
            Element::Node { id, coord } => if id == r {
                Some(coord)
            } else {
                last_node_coord(elems.drop_last(), r)
            },
            _ => last_node_coord(elems.drop_last(), r),
        }
    }
}

/// Finds the position of a key in a key column.
fn find_key(keys: &Vec<i64>, key: i64) -> (r: Option<usize>)
    ensures
        match r {
            Some(i) => (i as int) < keys@.len() && keys@[i as int] == key,
            None => !keys@.contains(key),
        },
{
    let mut i: usize = 0;
    while i < keys.len()
        invariant
            i <= keys@.len(),
            forall|t: int| 0 <= t < i ==> keys@[t] != key,
        decreases keys@.len() - i,
    {
        if keys[i] == key {
            return Some(i);
        }
        i = i + 1;
    }
    proof {
        if keys@.contains(key) {
            let t = choose|t: int| 0 <= t < keys@.len() && keys@[t] == key;
        }
    }
    None
}

/// An insertion-ordered table from way or node ids to id lists, with
/// distinct keys.
pub struct IdTable {
    pub keys: Vec<i64>,
    pub vals: Vec<Vec<i64>>,
}

impl IdTable {
    /// Distinct keys, one value per key.
    pub open spec fn wf(self) -> bool {
        &&& self.keys@.len() == self.vals@.len()
        &&& forall|i: int, j: int|
            #![trigger self.keys@[i], self.keys@[j]]
            0 <= i < j < self.keys@.len() ==> self.keys@[i] != self.keys@[j]
    }

    pub fn new() -> (r: IdTable)
        ensures
            r.wf(),
            r.keys@.len() == 0,
    {
        IdTable { keys: Vec::new(), vals: Vec::new() }
    }

    /// The position of a key, if present.
    pub fn index_of(&self, key: i64) -> (r: Option<usize>)
        ensures
            match r {
                Some(i) => (i as int) < self.keys@.len() && self.keys@[i as int] == key,
                None => !self.keys@.contains(key),
            },
    {
        find_key(&self.keys, key)
    }
}

/// Pass one: the set of ways to keep, with counters for how they were
/// found.
pub struct FilterStage {
    pub ways: Vec<i64>,
    pub direct_ways_count: usize,
    pub ways_via_relation_count: usize,
}

impl FilterStage {
    /// Distinct way ids.
    pub open spec fn wf(self) -> bool {
        forall|i: int, j: int|
            #![trigger self.ways@[i], self.ways@[j]]
            0 <= i < j < self.ways@.len() ==> self.ways@[i] != self.ways@[j]
    }

    pub fn new() -> (r: FilterStage)
        ensures
            r.wf(),
            r.ways@.len() == 0,
            r.direct_ways_count == 0,
            r.ways_via_relation_count == 0,
    {
        FilterStage { ways: Vec::new(), direct_ways_count: 0, ways_via_relation_count: 0 }
    }

    /// Records a way that passed the tag predicate.
    pub fn append_way(&mut self, way_id: i64)
        requires
            old(self).wf(),
            old(self).direct_ways_count < usize::MAX,
        ensures
            final(self).wf(),
            final(self).ways@ == (if old(self).ways@.contains(way_id) {
                old(self).ways@
            } else {
                old(self).ways@.push(way_id)
            }),
            final(self).direct_ways_count == old(self).direct_ways_count + 1,
            final(self).ways_via_relation_count == old(self).ways_via_relation_count,
    {
        let present = find_key(&self.ways, way_id);
        match present {
            Some(_) => {},
            None => {
                self.ways.push(way_id);
            },
        }
        self.direct_ways_count = self.direct_ways_count + 1;
    }

    /// Records the first outer way member of a relation that passed the tag
    /// predicate, when the relation is a multipolygon and has one.
    pub fn append_relation(&mut self, tags: &Vec<Tag>, members: &Vec<Member>)
        requires
            old(self).wf(),
            old(self).ways_via_relation_count < usize::MAX,
        ensures
            final(self).wf(),
            final(self).direct_ways_count == old(self).direct_ways_count,
            if tag_set(tags@).contains(("type"@, "multipolygon"@)) && first_outer(members@) is Some {
                &&& final(self).ways@ == (if old(self).ways@.contains(
                    first_outer(members@)->Some_0.id,
                ) {
                    old(self).ways@
                } else {
                    old(self).ways@.push(first_outer(members@)->Some_0.id)
                })
                &&& final(self).ways_via_relation_count == old(self).ways_via_relation_count + 1
            } else {
                *final(self) == *old(self)
            },
    {
        if has_tag(tags, "type", "multipolygon") {
            let outer = find_first_outer(members);
            match outer {
                Some(outer_id) => {
                    let present = find_key(&self.ways, outer_id);
                    match present {
                        Some(_) => {},
                        None => {
                            self.ways.push(outer_id);
                        },
                    }
                    self.ways_via_relation_count = self.ways_via_relation_count + 1;
                },
                None => {},
            }
        }
    }

    /// Seeds pass two with the kept ways.
    pub fn to_pending_stage(self) -> (r: PendingStage)
        ensures
            r.allowed_ways@ == self.ways@,
            r.refs_for_ways.keys@.len() == 0,
            r.wf(),
    {
        PendingStage::new(self.ways)
    }
}

/// Finds the id of the first member that is a way in the `outer` role.
fn find_first_outer(members: &Vec<Member>) -> (r: Option<i64>)
    ensures
        match r {
            Some(id) => first_outer(members@) matches Some(m) && m.id == id,
            None => first_outer(members@) is None,
        },
{
    proof {
        assert(members@.skip(0) =~= members@);
    }
    let mut i: usize = 0;
    while i < members.len()
        invariant
            i <= members@.len(),
            first_outer(members@) == first_outer(members@.skip(i as int)),
        decreases members@.len() - i,
    {
        let m = &members[i];
        let is_way = match m.kind {
            MemberKind::Way => true,
            _ => false,
        };
        proof {
            assert(members@.skip(i as int).first() == members@[i as int]);
        }
        if is_way && str_eq(m.role.as_str(), "outer") {
            proof {
                assert(is_outer_way(members@[i as int]));
                assert(first_outer(members@.skip(i as int)) == Some(members@[i as int]));
            }
            return Some(m.id);
        }
        proof {
            assert(!is_outer_way(members@[i as int]));
            assert(members@.skip(i as int).drop_first() =~= members@.skip(i + 1));
        }
        i = i + 1;
    }
    proof {
        assert(members@.skip(members@.len() as int) =~= Seq::<Member>::empty());
    }
    None
}

/// Pass two: the ordered node references of each kept way.
pub struct PendingStage {
    pub allowed_ways: Vec<i64>,
    pub refs_for_ways: IdTable,
}

impl PendingStage {
    pub open spec fn wf(self) -> bool {
        self.refs_for_ways.wf()
    }

    pub fn new(allowed_ways: Vec<i64>) -> (r: PendingStage)
        ensures
            r.allowed_ways@ == allowed_ways@,
            r.refs_for_ways.keys@.len() == 0,
            r.wf(),
    {
        PendingStage { allowed_ways, refs_for_ways: IdTable::new() }
    }

    /// Records the ordered node references of a way, if the way was kept by
    /// pass one. A way seen again replaces its earlier references.
    pub fn append_way(&mut self, way_id: i64, refs: Vec<i64>)
        requires
            old(self).wf(),
        ensures
            final(self).wf(),
            final(self).allowed_ways@ == old(self).allowed_ways@,
            !old(self).allowed_ways@.contains(way_id) ==> final(self).refs_for_ways
                == old(self).refs_for_ways,
            old(self).allowed_ways@.contains(way_id) ==> {
                &&& final(self).refs_for_ways.keys@ == (if old(self).refs_for_ways.keys@.contains(
                    way_id,
                ) {
                    old(self).refs_for_ways.keys@
                } else {
                    old(self).refs_for_ways.keys@.push(way_id)
                })
                &&& forall|wi: int|
                    0 <= wi < old(self).refs_for_ways.keys@.len()
                        ==> #[trigger] final(self).refs_for_ways.vals@[wi]@ == (if old(self).refs_for_ways.keys@[wi] == way_id {
                        refs@
                    } else {
                        old(self).refs_for_ways.vals@[wi]@
                    })
                &&& !old(self).refs_for_ways.keys@.contains(way_id) ==> final(self).refs_for_ways.vals@[old(self).refs_for_ways.keys@.len() as int]@ == refs@
            },
    {
        let allowed = find_key(&self.allowed_ways, way_id);
        match allowed {
            None => {},
            Some(_) => {
                let present = self.refs_for_ways.index_of(way_id);
                match present {
                    Some(wi) => {
                        self.refs_for_ways.vals[wi] = refs;
                    },
                    None => {
                        self.refs_for_ways.keys.push(way_id);
                        self.refs_for_ways.vals.push(refs);
                    },
                }
            },
        }
    }

    /// Seeds pass three: one unresolved coordinate slot per node reference.
    pub fn to_assignment(self) -> (r: AssignStage)
        requires
            self.wf(),
        ensures
            r.wf(),
            r.refs_for_ways == self.refs_for_ways,
            r.coords_for_way@.len() == self.refs_for_ways.vals@.len(),
            forall|wi: int, p: int|
                #![trigger r.coords_for_way@[wi]@[p]]
                0 <= wi < r.coords_for_way@.len() && 0 <= p < r.coords_for_way@[wi]@.len()
                    ==> r.coords_for_way@[wi]@[p] is None,
    {
        let mut coords: Vec<Vec<Option<Coord>>> = Vec::new();
        let mut wi: usize = 0;
        while wi < self.refs_for_ways.vals.len()
            invariant
                wi <= self.refs_for_ways.vals@.len(),
                coords@.len() == wi,
                forall|w2: int|
                    0 <= w2 < wi ==> (#[trigger] coords@[w2]@).len()
                        == self.refs_for_ways.vals@[w2]@.len(),
                forall|w2: int, p: int|
                    #![trigger coords@[w2]@[p]]
                    0 <= w2 < wi && 0 <= p < coords@[w2]@.len() ==> coords@[w2]@[p] is None,
            decreases self.refs_for_ways.vals@.len() - wi,
        {
            let len = self.refs_for_ways.vals[wi].len();
            let mut slots: Vec<Option<Coord>> = Vec::new();
            let mut p: usize = 0;
            while p < len
                invariant
                    p <= len,
                    slots@.len() == p,
                    forall|t: int| 0 <= t < p ==> #[trigger] slots@[t] is None,
                decreases len - p,
            {
                slots.push(None);
                p = p + 1;
            }
            coords.push(slots);
            wi = wi + 1;
        }
        AssignStage { refs_for_ways: self.refs_for_ways, coords_for_way: coords }
    }
}

/// Pass three: a coordinate slot per node reference of each kept way.
pub struct AssignStage {
    pub refs_for_ways: IdTable,
    pub coords_for_way: Vec<Vec<Option<Coord>>>,
}

impl AssignStage {
    /// The slot table is parallel to the reference table.
    pub open spec fn wf(self) -> bool {
        &&& self.refs_for_ways.wf()
        &&& self.coords_for_way@.len() == self.refs_for_ways.vals@.len()
        &&& forall|wi: int|
            0 <= wi < self.coords_for_way@.len() ==> (#[trigger] self.coords_for_way@[wi]@).len()
                == self.refs_for_ways.vals@[wi]@.len()
    }

    /// Resolves one node: every slot whose reference is this node takes the
    /// coordinate; a later sighting of the node overwrites an earlier one.
    pub fn insert_coord_into_way(&mut self, ref_id: i64, coord: Coord)
        requires
            old(self).wf(),
        ensures
            final(self).wf(),
            final(self).refs_for_ways == old(self).refs_for_ways,
            final(self).coords_for_way@.len() == old(self).coords_for_way@.len(),
            forall|wi: int, p: int|
                #![trigger final(self).coords_for_way@[wi]@[p]]
                0 <= wi < old(self).coords_for_way@.len() && 0 <= p < old(self).coords_for_way@[wi]@.len() ==> final(self).coords_for_way@[wi]@[p] == (if old(self).refs_for_ways.vals@[wi]@[p] == ref_id {
                    Some(coord)
                } else {
                    old(self).coords_for_way@[wi]@[p]
                }),
    {
        let ghost c0 = self.coords_for_way@;
        let mut wi: usize = 0;
        while wi < self.coords_for_way.len()
            invariant
                wi <= self.coords_for_way@.len(),
                old(self).wf(),
                self.refs_for_ways == old(self).refs_for_ways,
                c0 == old(self).coords_for_way@,
                self.coords_for_way@.len() == c0.len(),
                forall|w2: int|
                    0 <= w2 < c0.len() ==> (#[trigger] self.coords_for_way@[w2]@).len()
                        == c0[w2]@.len(),
                forall|w2: int, p: int|
                    #![trigger self.coords_for_way@[w2]@[p]]
                    0 <= w2 < c0.len() && 0 <= p < c0[w2]@.len()
                        ==> self.coords_for_way@[w2]@[p] == (if w2 < wi
                        && old(self).refs_for_ways.vals@[w2]@[p] == ref_id {
                        Some(coord)
                    } else {
                        c0[w2]@[p]
                    }),
            decreases self.coords_for_way@.len() - wi,
        {
            let len = self.refs_for_ways.vals[wi].len();
            let mut p: usize = 0;
            while p < len
                invariant
                    p <= len,
                    wi < self.coords_for_way@.len(),
                    old(self).wf(),
                    self.refs_for_ways == old(self).refs_for_ways,
                    c0 == old(self).coords_for_way@,
                    len == old(self).refs_for_ways.vals@[wi as int]@.len(),
                    self.coords_for_way@.len() == c0.len(),
                    forall|w2: int|
                        0 <= w2 < c0.len() ==> (#[trigger] self.coords_for_way@[w2]@).len()
                            == c0[w2]@.len(),
                    forall|w2: int, p2: int|
                        #![trigger self.coords_for_way@[w2]@[p2]]
                        0 <= w2 < c0.len() && 0 <= p2 < c0[w2]@.len()
                            ==> self.coords_for_way@[w2]@[p2] == (if (w2 < wi || (w2 == wi && p2
                            < p)) && old(self).refs_for_ways.vals@[w2]@[p2] == ref_id {
                            Some(coord)
                        } else {
                            c0[w2]@[p2]
                        }),
                decreases len - p,
            {
                if self.refs_for_ways.vals[wi][p] == ref_id {
                    self.coords_for_way[wi][p] = Some(coord);
                }
                p = p + 1;
            }
            wi = wi + 1;
        }
    }
}

/// Whether every slot of a way is resolved.
pub open spec fn resolved(c: Seq<Option<Coord>>) -> bool {
    forall|p: int| 0 <= p < c.len() ==> (#[trigger] c[p]) is Some
}

/// The coordinates of a fully resolved way.
pub open spec fn unwrapped(c: Seq<Option<Coord>>) -> Seq<Coord> {
    c.map(|i: int, o: Option<Coord>| o->Some_0)
}

/// Whether one output geometry is a polygon assembled from some fully
/// resolved way of the stage.
pub open spec fn assembled_from(stage: AssignStage, ge: Geometry) -> bool {
    exists|wi: int|
        {
            &&& 0 <= wi < stage.coords_for_way@.len()
            &&& resolved(#[trigger] stage.coords_for_way@[wi]@)
            &&& ge matches Geometry::Polygon(p)
            &&& p.exterior@ == unwrapped(stage.coords_for_way@[wi]@)
            &&& p.interiors@.len() == 0
            &&& p.exterior@.len() == stage.refs_for_ways.vals@[wi]@.len()
            &&& p.exterior@.len() == stage.coords_for_way@[wi]@.len()
        }
}

/// Whether the geometry list holds a polygon with this exterior ring.
pub open spec fn holds_ring(g: Seq<Geometry>, ring: Seq<Coord>) -> bool {
    exists|o: int|
        0 <= o < g.len() && ((#[trigger] g[o]) matches Geometry::Polygon(p) && p.exterior@ == ring)
}

/// Whether `idx` indexes the outputs `r` back into the stage: one strictly
/// increasing slot per output, each output assembled from its slot's fully
/// resolved way, and every fully resolved way indexed. Such an index pins
/// the output count: one polygon per fully resolved way.
pub open spec fn assembled_index(stage: AssignStage, r: Seq<Geometry>, idx: Seq<int>) -> bool {
    &&& idx.len() == r.len()
    &&& forall|o: int|
        #![trigger idx[o]]
        0 <= o < idx.len() ==> {
            &&& 0 <= idx[o] < stage.coords_for_way@.len()
            &&& resolved(stage.coords_for_way@[idx[o]]@)
            &&& r[o] matches Geometry::Polygon(p)
            &&& p.exterior@ == unwrapped(stage.coords_for_way@[idx[o]]@)
            &&& p.interiors@.len() == 0
            &&& p.exterior@.len() == stage.refs_for_ways.vals@[idx[o]]@.len()
            &&& p.exterior@.len() == stage.coords_for_way@[idx[o]]@.len()
        }
    &&& forall|o1: int, o2: int|
        #![trigger idx[o1], idx[o2]]
        0 <= o1 < o2 < idx.len() ==> idx[o1] < idx[o2]
    &&& forall|wi: int|
        0 <= wi < stage.coords_for_way@.len() && resolved(#[trigger] stage.coords_for_way@[wi]@)
            ==> idx.contains(wi)
}

impl AssignStage {
    /// Assembles one polygon per fully resolved way, in table order: its
    /// exterior ring is the way's coordinates in reference order, with no
    /// interior rings. A way with an unresolved node reference is skipped
    /// entirely.
    pub fn to_geometry(self) -> (r: Vec<Geometry>)
        requires
            self.wf(),
        ensures
            exists|idx: Seq<int>| assembled_index(self, r@, idx),
            forall|o: int| 0 <= o < r@.len() ==> assembled_from(self, #[trigger] r@[o]),
            forall|wi: int|
                0 <= wi < self.coords_for_way@.len() && resolved(
                    #[trigger] self.coords_for_way@[wi]@,
                ) ==> holds_ring(r@, unwrapped(self.coords_for_way@[wi]@)),
    {
        let mut geometry: Vec<Geometry> = Vec::new();
        let ghost mut idxs: Seq<int> = Seq::empty();
        let mut wi: usize = 0;
        while wi < self.coords_for_way.len()
            invariant
                wi <= self.coords_for_way@.len(),
                self.wf(),
                idxs.len() == geometry@.len(),
                forall|o: int|
                    #![trigger idxs[o]]
                    0 <= o < idxs.len() ==> {
                        &&& 0 <= idxs[o] < wi
                        &&& resolved(self.coords_for_way@[idxs[o]]@)
                        &&& geometry@[o] matches Geometry::Polygon(p)
                        &&& p.exterior@ == unwrapped(self.coords_for_way@[idxs[o]]@)
                        &&& p.interiors@.len() == 0
                        &&& p.exterior@.len() == self.refs_for_ways.vals@[idxs[o]]@.len()
                        &&& p.exterior@.len() == self.coords_for_way@[idxs[o]]@.len()
                    },
                forall|o1: int, o2: int|
                    #![trigger idxs[o1], idxs[o2]]
                    0 <= o1 < o2 < idxs.len() ==> idxs[o1] < idxs[o2],
                forall|w2: int|
                    0 <= w2 < wi && resolved(#[trigger] self.coords_for_way@[w2]@)
                        ==> idxs.contains(w2),
            decreases self.coords_for_way@.len() - wi,
        {
            let len = self.coords_for_way[wi].len();
            let mut ext: Vec<Coord> = Vec::new();
            let mut ok: bool = true;
            let mut p: usize = 0;
            while p < len
                invariant
                    p <= len,
                    wi < self.coords_for_way@.len(),
                    len == self.coords_for_way@[wi as int]@.len(),
                    ok ==> ext@.len() == p,
                    ok ==> forall|t: int|
                        0 <= t < p ==> (#[trigger] self.coords_for_way@[wi as int]@[t]) is Some
                            && ext@[t] == self.coords_for_way@[wi as int]@[t]->Some_0,
                    !ok ==> exists|t: int|
                        0 <= t < len && (#[trigger] self.coords_for_way@[wi as int]@[t]) is None,
                decreases len - p,
            {
                match self.coords_for_way[wi][p] {
                    Some(c) => {
                        if ok {
                            ext.push(c);
                        }
                    },
                    None => {
                        ok = false;
                    },
                }
                p = p + 1;
            }
            let ghost gpre = geometry@;
            let ghost ipre = idxs;
            if ok {
                geometry.push(
                    Geometry::Polygon(Polygon { exterior: ext, interiors: Vec::new() }),
                );
                proof {
                    idxs = idxs.push(wi as int);
                    let cw = self.coords_for_way@[wi as int]@;
                    assert(resolved(cw));
                    assert(geometry@.last() matches Geometry::Polygon(p) && p.exterior@
                        =~= unwrapped(cw));
                    assert(forall|o: int| 0 <= o < gpre.len() ==> geometry@[o] == gpre[o]);
                    assert(forall|o: int| 0 <= o < ipre.len() ==> idxs[o] == ipre[o]);
                    assert(idxs.last() == wi as int);
                    assert forall|w2: int|
                        0 <= w2 < wi + 1 && resolved(#[trigger] self.coords_for_way@[w2]@)
                            implies idxs.contains(w2) by {
                        if w2 == wi {
                            assert(idxs[idxs.len() - 1] == w2);
                        } else {
                            let o = choose|o: int| 0 <= o < ipre.len() && ipre[o] == w2;
                            assert(idxs[o] == w2);
                        }
                    }
                }
            } else {
                proof {
                    assert(!resolved(self.coords_for_way@[wi as int]@));
                }
            }
            wi = wi + 1;
        }
        proof {
            assert(assembled_index(self, geometry@, idxs));
            assert forall|o: int| 0 <= o < geometry@.len() implies assembled_from(
                self,
                #[trigger] geometry@[o],
            ) by {
                let t = idxs[o];
                assert(resolved(self.coords_for_way@[t]@));
            }
            assert forall|w2: int|
                0 <= w2 < self.coords_for_way@.len() && resolved(
                    #[trigger] self.coords_for_way@[w2]@,
                ) implies holds_ring(geometry@, unwrapped(self.coords_for_way@[w2]@)) by {
                assert(idxs.contains(w2));
                let o = choose|o: int| 0 <= o < idxs.len() && idxs[o] == w2;
                assert(geometry@[o] matches Geometry::Polygon(p) && p.exterior@ == unwrapped(
                    self.coords_for_way@[w2]@,
                ));
            }
        }
        geometry
    }
}

/// Copies a list of ids.
fn copy_ids(v: &Vec<i64>) -> (r: Vec<i64>)
    ensures
        r@ == v@,
{
    let mut r: Vec<i64> = Vec::new();
    let mut i: usize = 0;
    while i < v.len()
        invariant
            i <= v@.len(),
            r@ =~= v@.take(i as int),
        decreases v@.len() - i,
    {
        r.push(v[i]);
        proof {
            assert(r@ =~= v@.take(i + 1));
        }
        i = i + 1;
    }
    proof {
        assert(v@.take(v@.len() as int) =~= v@);
    }
    r
}

/// Extending the stream by one element keeps a way exactly when the old
/// stream kept it or the new element retains it.
proof fn lemma_retained_push(s: Seq<Element>, e: Element)
    ensures
        forall|w: i64|
            retained_set(s.push(e)).contains(w) <==> (retained_set(s).contains(w) || retains(
                e,
                w,
            )),
{
    assert forall|w: i64|
        retained_set(s.push(e)).contains(w) <==> (retained_set(s).contains(w) || retains(
            e,
            w,
        )) by {
        if retained_set(s.push(e)).contains(w) {
            let i = choose|i: int| 0 <= i < s.push(e).len() && retains(#[trigger] s.push(e)[i], w);
            if i < s.len() {
                assert(s[i] == s.push(e)[i]);
                assert(retained_set(s).contains(w));
            } else {
                assert(s.push(e)[i] == e);
            }
        }
        if retained_set(s).contains(w) {
            let i = choose|i: int| 0 <= i < s.len() && retains(#[trigger] s[i], w);
            assert(s.push(e)[i] == s[i]);
            assert(retained_set(s.push(e)).contains(w));
        }
        if retains(e, w) {
            assert(s.push(e)[s.len() as int] == e);
            assert(retained_set(s.push(e)).contains(w));
        }
    }
}

/// How the last-way-references lookup changes when the stream grows.
proof fn lemma_last_way_refs_push(s: Seq<Element>, e: Element)
    ensures
        forall|w: i64|
            #![trigger last_way_refs(s.push(e), w)]
            last_way_refs(s.push(e), w) == (match e {
                Element::Way { id, tags, refs } => if id == w {
                    Some(refs@)
                } else {
                    last_way_refs(s, w)
                },
                _ => last_way_refs(s, w),
            }),
{
    assert(s.push(e).drop_last() =~= s);
    assert(s.push(e).last() == e);
}

/// How the last-node-coordinate lookup changes when the stream grows.
proof fn lemma_last_node_coord_push(s: Seq<Element>, e: Element)
    ensures
        forall|r: i64|
            #![trigger last_node_coord(s.push(e), r)]
            last_node_coord(s.push(e), r) == (match e {
                Element::Node { id, coord } => if id == r {
                    Some(coord)
                } else {
                    last_node_coord(s, r)
                },
                _ => last_node_coord(s, r),
            }),
{
    assert(s.push(e).drop_last() =~= s);
    assert(s.push(e).last() == e);
}

/// Whether every node reference of the list resolves somewhere in the
/// stream.
pub open spec fn all_nodes_known(elems: Seq<Element>, rs: Seq<i64>) -> bool {
    forall|t: int| 0 <= t < rs.len() ==> last_node_coord(elems, #[trigger] rs[t]) is Some
}

/// The ring a fully resolvable reference list yields.
pub open spec fn ring_of(elems: Seq<Element>, rs: Seq<i64>) -> Seq<Coord> {
    Seq::new(rs.len(), |t: int| last_node_coord(elems, rs[t])->Some_0)
}

/// Whether the geometry is the polygon of the kept way `w`: the way is
/// retained, all its node references resolve, and the exterior ring has one
/// coordinate per node reference, each resolved by the last sighting of its
/// node.
pub open spec fn reconstructs(elems: Seq<Element>, ge: Geometry, w: i64) -> bool {
    &&& retained_set(elems).contains(w)
    &&& last_way_refs(elems, w) is Some
    &&& ge matches Geometry::Polygon(p)
    &&& p.interiors@.len() == 0
    &&& p.exterior@.len() == last_way_refs(elems, w)->Some_0.len()
    &&& p.exterior@ == ring_of(elems, last_way_refs(elems, w)->Some_0)
    &&& all_nodes_known(elems, last_way_refs(elems, w)->Some_0)
}

/// Whether one output geometry is a polygon reconstructed from a way that
/// the stream keeps.
pub open spec fn extracted_polygon(elems: Seq<Element>, ge: Geometry) -> bool {
    exists|w: i64| #[trigger] reconstructs(elems, ge, w)
}

/// Runs the three passes over an in-memory element stream: select the ways
/// to keep, record their node references, resolve coordinates, and emit one
/// polygon per fully resolved kept way.
///
/// The outputs are in bijection with the fully resolvable kept ways: some
/// duplicate-free way list pairs each output with the way it reconstructs,
/// and lists every kept way whose references all resolve. In particular no
/// way yields two polygons, every output polygon's exterior ring is exactly
/// its way's node references resolved in order, and every fully resolvable
/// kept way appears.
#[verifier::rlimit(60)]
pub fn extract_regions(elements: &Vec<Element>) -> (r: Vec<Geometry>)
    ensures
        forall|o: int| 0 <= o < r@.len() ==> extracted_polygon(elements@, #[trigger] r@[o]),
        forall|w: i64|
            #![trigger last_way_refs(elements@, w)]
            retained_set(elements@).contains(w) && last_way_refs(elements@, w) is Some
                && all_nodes_known(elements@, last_way_refs(elements@, w)->Some_0) ==> holds_ring(
                r@,
                ring_of(elements@, last_way_refs(elements@, w)->Some_0),
            ),
        exists|ws: Seq<i64>|
            {
                &&& #[trigger] ws.no_duplicates()
                &&& ws.len() == r@.len()
                &&& forall|o: int|
                    0 <= o < ws.len() ==> reconstructs(elements@, #[trigger] r@[o], ws[o])
                &&& forall|w: i64|
                    #![trigger last_way_refs(elements@, w)]
                    retained_set(elements@).contains(w) && last_way_refs(elements@, w) is Some
                        && all_nodes_known(elements@, last_way_refs(elements@, w)->Some_0)
                        ==> ws.contains(w)
            },
{
    let n = elements.len();

    // Pass one: which ways to keep.
    let mut fs = FilterStage::new();
    let mut i: usize = 0;
    while i < n
        invariant
            i <= n,
            n == elements@.len(),
            fs.wf(),
            fs.direct_ways_count <= i,
            fs.ways_via_relation_count <= i,
            forall|w: i64|
                #[trigger] fs.ways@.contains(w) <==> retained_set(
                    elements@.take(i as int),
                ).contains(w),
        decreases n - i,
    {
        let ghost pre = fs.ways@;
        let e = &elements[i];
        match e {
            Element::Way { id, tags, refs } => {
                if green_tag_filter(tags) {
                    fs.append_way(*id);
                }
            },
            Element::Relation { tags, members } => {
                if green_tag_filter(tags) {
                    fs.append_relation(tags, members);
                }
            },
            _ => {},
        }
        proof {
            let ev = elements@[i as int];
            assert(elements@.take(i + 1) =~= elements@.take(i as int).push(ev));
            lemma_retained_push(elements@.take(i as int), ev);
            assert forall|w: i64|
                #[trigger] fs.ways@.contains(w) <==> retained_set(
                    elements@.take(i + 1),
                ).contains(w) by {
                match ev {
                    Element::Way { id, tags, refs } => {
                        if is_green(tag_set(tags@)) {
                            assert(fs.ways@ == (if pre.contains(id) {
                                pre
                            } else {
                                pre.push(id)
                            }));
                            if fs.ways@.contains(w) {
                                if pre.contains(w) {
                                } else {
                                    assert(w == id);
                                    assert(retains(ev, w));
                                }
                            }
                            if retains(ev, w) {
                                assert(w == id);
                                if !pre.contains(id) {
                                    assert(fs.ways@[fs.ways@.len() - 1] == id);
                                }
                            }
                            if pre.contains(w) {
                                let t = choose|t: int| 0 <= t < pre.len() && pre[t] == w;
                                assert(fs.ways@[t] == w);
                            }
                        } else {
                            assert(!retains(ev, w));
                        }
                    },
                    Element::Relation { tags, members } => {
                        if is_green(tag_set(tags@)) {
                            if tag_set(tags@).contains(("type"@, "multipolygon"@)) && first_outer(
                                members@,
                            ) is Some {
                                let oid = first_outer(members@)->Some_0.id;
                                assert(fs.ways@ == (if pre.contains(oid) {
                                    pre
                                } else {
                                    pre.push(oid)
                                }));
                                if fs.ways@.contains(w) {
                                    if pre.contains(w) {
                                    } else {
                                        assert(w == oid);
                                        assert(retains(ev, w));
                                    }
                                }
                                if retains(ev, w) {
                                    assert(w == oid);
                                    if !pre.contains(oid) {
                                        assert(fs.ways@[fs.ways@.len() - 1] == oid);
                                    }
                                }
                                if pre.contains(w) {
                                    let t = choose|t: int| 0 <= t < pre.len() && pre[t] == w;
                                    assert(fs.ways@[t] == w);
                                }
                            } else {
                                assert(!retains(ev, w));
                            }
                        } else {
                            assert(!retains(ev, w));
                        }
                    },
                    _ => {
                        assert(!retains(ev, w));
                    },
                }
            }
        }
        i = i + 1;
    }
    proof {
        assert(elements@.take(n as int) =~= elements@);
    }
    let ghost allowed = fs.ways@;

    // Pass two: the node references of each kept way.
    let mut ps = fs.to_pending_stage();
    let mut i2: usize = 0;
    while i2 < n
        invariant
            i2 <= n,
            n == elements@.len(),
            ps.wf(),
            ps.allowed_ways@ == allowed,
            forall|w: i64| #[trigger] allowed.contains(w) <==> retained_set(elements@).contains(w),
            forall|w: i64|
                #[trigger] ps.refs_for_ways.keys@.contains(w) <==> (allowed.contains(w)
                    && last_way_refs(elements@.take(i2 as int), w) is Some),
            forall|wi: int|
                0 <= wi < ps.refs_for_ways.keys@.len()
                    ==> #[trigger] ps.refs_for_ways.vals@[wi]@ == last_way_refs(
                    elements@.take(i2 as int),
                    ps.refs_for_ways.keys@[wi],
                )->Some_0,
        decreases n - i2,
    {
        let ghost kpre = ps.refs_for_ways.keys@;
        let ghost vpre = ps.refs_for_ways.vals@;
        let e = &elements[i2];
        match e {
            Element::Way { id, tags, refs } => {
                let rs = copy_ids(refs);
                ps.append_way(*id, rs);
            },
            _ => {},
        }
        proof {
            let ev = elements@[i2 as int];
            assert(elements@.take(i2 + 1) =~= elements@.take(i2 as int).push(ev));
            lemma_last_way_refs_push(elements@.take(i2 as int), ev);
            match ev {
                Element::Way { id, tags, refs } => {
                    if allowed.contains(id) {
                        if kpre.contains(id) {
                            assert(ps.refs_for_ways.keys@ == kpre);
                        } else {
                            assert(ps.refs_for_ways.keys@ == kpre.push(id));
                        }
                        assert forall|w: i64|
                            #[trigger] ps.refs_for_ways.keys@.contains(w) <==> (allowed.contains(w)
                                && last_way_refs(elements@.take(i2 + 1), w) is Some) by {
                            if w == id {
                                if kpre.contains(id) {
                                } else {
                                    assert(ps.refs_for_ways.keys@[ps.refs_for_ways.keys@.len() - 1]
                                        == id);
                                }
                            } else {
                                if kpre.contains(w) {
                                    let t = choose|t: int| 0 <= t < kpre.len() && kpre[t] == w;
                                    assert(ps.refs_for_ways.keys@[t] == w);
                                }
                                if ps.refs_for_ways.keys@.contains(w) {
                                    let t = choose|t: int|
                                        0 <= t < ps.refs_for_ways.keys@.len()
                                            && ps.refs_for_ways.keys@[t] == w;
                                    assert(t < kpre.len());
                                    assert(kpre[t] == w);
                                }
                            }
                        }
                        assert forall|wi: int| 0 <= wi < ps.refs_for_ways.keys@.len()
                            implies #[trigger] ps.refs_for_ways.vals@[wi]@ == last_way_refs(
                            elements@.take(i2 + 1),
                            ps.refs_for_ways.keys@[wi],
                        )->Some_0 by {
                            if wi < kpre.len() {
                                assert(ps.refs_for_ways.keys@[wi] == kpre[wi]);
                                assert(ps.refs_for_ways.vals@[wi]@ == (if kpre[wi] == id {
                                    refs@
                                } else {
                                    vpre[wi]@
                                }));
                                if kpre[wi] == id {
                                    assert(last_way_refs(elements@.take(i2 + 1), kpre[wi])
                                        == Some(refs@));
                                } else {
                                    assert(last_way_refs(elements@.take(i2 + 1), kpre[wi])
                                        == last_way_refs(elements@.take(i2 as int), kpre[wi]));
                                }
                            } else {
                                assert(ps.refs_for_ways.keys@[wi] == id);
                                assert(ps.refs_for_ways.vals@[wi]@ == refs@);
                                assert(last_way_refs(elements@.take(i2 + 1), id) == Some(refs@));
                            }
                        }
                    } else {
                        assert forall|w: i64|
                            #[trigger] ps.refs_for_ways.keys@.contains(w) <==> (allowed.contains(w)
                                && last_way_refs(elements@.take(i2 + 1), w) is Some) by {
                            if w == id {
                                assert(!allowed.contains(w));
                            }
                        }
                        assert forall|wi: int| 0 <= wi < ps.refs_for_ways.keys@.len()
                            implies #[trigger] ps.refs_for_ways.vals@[wi]@ == last_way_refs(
                            elements@.take(i2 + 1),
                            ps.refs_for_ways.keys@[wi],
                        )->Some_0 by {
                            assert(ps.refs_for_ways.keys@.contains(ps.refs_for_ways.keys@[wi]));
                            assert(allowed.contains(ps.refs_for_ways.keys@[wi]));
                            assert(ps.refs_for_ways.keys@[wi] != id);
                            assert(last_way_refs(elements@.take(i2 + 1), ps.refs_for_ways.keys@[wi])
                                == last_way_refs(
                                elements@.take(i2 as int),
                                ps.refs_for_ways.keys@[wi],
                            ));
                        }
                    }
                },
                _ => {},
            }
        }
        i2 = i2 + 1;
    }
    proof {
        assert(elements@.take(n as int) =~= elements@);
    }
    let ghost table_keys = ps.refs_for_ways.keys@;
    let ghost table_vals = ps.refs_for_ways.vals@;

    // Pass three: resolve coordinates.
    let mut asg = ps.to_assignment();
    let mut i3: usize = 0;
    while i3 < n
        invariant
            i3 <= n,
            n == elements@.len(),
            asg.wf(),
            asg.refs_for_ways.keys@ == table_keys,
            asg.refs_for_ways.vals@ == table_vals,
            forall|w: i64| #[trigger] allowed.contains(w) <==> retained_set(elements@).contains(w),
            forall|w: i64|
                #[trigger] table_keys.contains(w) <==> (allowed.contains(w) && last_way_refs(
                    elements@,
                    w,
                ) is Some),
            forall|wi: int|
                0 <= wi < table_keys.len() ==> #[trigger] table_vals[wi]@ == last_way_refs(
                    elements@,
                    table_keys[wi],
                )->Some_0,
            asg.coords_for_way@.len() == table_vals.len(),
            forall|wi: int, p: int|
                #![trigger asg.coords_for_way@[wi]@[p]]
                0 <= wi < asg.coords_for_way@.len() && 0 <= p < asg.coords_for_way@[wi]@.len()
                    ==> asg.coords_for_way@[wi]@[p] == last_node_coord(
                    elements@.take(i3 as int),
                    asg.refs_for_ways.vals@[wi]@[p],
                ),
        decreases n - i3,
    {
        let e = &elements[i3];
        match e {
            Element::Node { id, coord } => {
                asg.insert_coord_into_way(*id, *coord);
            },
            _ => {},
        }
        proof {
            let ev = elements@[i3 as int];
            assert(elements@.take(i3 + 1) =~= elements@.take(i3 as int).push(ev));
            lemma_last_node_coord_push(elements@.take(i3 as int), ev);
        }
        i3 = i3 + 1;
    }
    proof {
        assert(elements@.take(n as int) =~= elements@);
    }

    let ghost stage = asg;
    let r = asg.to_geometry();
    proof {
        let idx = choose|idx: Seq<int>| assembled_index(stage, r@, idx);
        let ws = Seq::new(idx.len(), |o: int| table_keys[idx[o]]);
        // Each output is the polygon of the way at its table slot.
        assert forall|o: int| 0 <= o < ws.len() implies reconstructs(
            elements@,
            #[trigger] r@[o],
            ws[o],
        ) by {
            let t = idx[o];
            assert(resolved(stage.coords_for_way@[t]@));
            let w = table_keys[t];
            assert(table_keys.contains(w));
            let rs = last_way_refs(elements@, w)->Some_0;
            assert(table_vals[t]@ == rs);
            assert forall|u: int| 0 <= u < rs.len() implies last_node_coord(
                elements@,
                #[trigger] rs[u],
            ) is Some by {
                assert(stage.coords_for_way@[t]@[u] == last_node_coord(elements@, rs[u]));
            }
            assert(r@[o] matches Geometry::Polygon(p) && p.exterior@ =~= ring_of(elements@, rs));
            assert(retained_set(elements@).contains(w));
        }
        assert forall|o: int| 0 <= o < r@.len() implies extracted_polygon(
            elements@,
            #[trigger] r@[o],
        ) by {
            assert(reconstructs(elements@, r@[o], ws[o]));
        }
        // The way list is duplicate-free: slots are strictly increasing and
        // table keys are distinct.
        assert forall|o1: int, o2: int|
            0 <= o1 < ws.len() && 0 <= o2 < ws.len() && o1 != o2 implies #[trigger] ws[o1]
            != #[trigger] ws[o2] by {
            assert(idx[o1] != idx[o2]) by {
                if o1 < o2 {
                    assert(idx[o1] < idx[o2]);
                } else {
                    assert(idx[o2] < idx[o1]);
                }
            }
            assert(table_keys[idx[o1]] != table_keys[idx[o2]]);
        }
        assert(ws.no_duplicates());
        // Every fully resolvable kept way has a slot, hence an output.
        assert forall|w: i64|
            retained_set(elements@).contains(w) && #[trigger] last_way_refs(elements@, w) is Some
                && all_nodes_known(elements@, last_way_refs(elements@, w)->Some_0)
            implies ws.contains(w) by {
            assert(allowed.contains(w));
            assert(table_keys.contains(w));
            let wi = choose|wi: int| 0 <= wi < table_keys.len() && table_keys[wi] == w;
            let rs = last_way_refs(elements@, w)->Some_0;
            assert(table_vals[wi]@ == rs);
            assert forall|u: int| 0 <= u < stage.coords_for_way@[wi]@.len()
                implies (#[trigger] stage.coords_for_way@[wi]@[u]) is Some by {
                assert(stage.coords_for_way@[wi]@[u] == last_node_coord(elements@, rs[u]));
            }
            assert(resolved(stage.coords_for_way@[wi]@));
            assert(idx.contains(wi));
            let o = choose|o: int| 0 <= o < idx.len() && idx[o] == wi;
            assert(ws[o] == w);
        }
        assert forall|w: i64|
            retained_set(elements@).contains(w) && #[trigger] last_way_refs(elements@, w) is Some
                && all_nodes_known(elements@, last_way_refs(elements@, w)->Some_0)
            implies holds_ring(r@, ring_of(elements@, last_way_refs(elements@, w)->Some_0)) by {
            assert(ws.contains(w));
            let o = choose|o: int| 0 <= o < ws.len() && ws[o] == w;
            assert(reconstructs(elements@, r@[o], w));
            assert(r@[o] matches Geometry::Polygon(p) && p.exterior@ == ring_of(
                elements@,
                last_way_refs(elements@, w)->Some_0,
            ));
        }
    }
    r
}

} // verus!