//! The tag predicate: classifies an OpenStreetMap tag bag as green space.
//!
//! A feature tagged `leisure=garden` is green only when it also carries
//! `access=yes` or `garden:type=community`; any other feature is green when
//! one of its tags is on a fixed whitelist over the `leisure`, `natural`,
//! `amenity` and `landuse` namespaces.

use vstd::prelude::*;

verus! {

/// One key/value tag of an OpenStreetMap element.
#[derive(Clone, Debug)]
pub struct Tag {
    pub key: String,
    pub value: String,
}

/// The mathematical image of one tag.
pub open spec fn tag_pair(t: Tag) -> (Seq<char>, Seq<char>) {
    (t.key@, t.value@)
}

/// The unordered set of tags carried by a tag sequence.
pub open spec fn tag_set(tags: Seq<Tag>) -> Set<(Seq<char>, Seq<char>)> {
    Set::new(|p: (Seq<char>, Seq<char>)| exists|i: int| 0 <= i < tags.len() && tag_pair(tags[i]) == p)
}

/// Whether one tag is on the unconditional whitelist.
pub open spec fn generic_green(p: (Seq<char>, Seq<char>)) -> bool {
    ||| p == ("leisure"@, "common"@)
    ||| p == ("leisure"@, "dog_park"@)
    ||| p == ("leisure"@, "golf_course"@)
    ||| p == ("leisure"@, "horse_riding"@)
    ||| p == ("leisure"@, "nature_reserve"@)
    ||| p == ("leisure"@, "park"@)
    ||| p == ("leisure"@, "pitch"@)
    ||| p == ("leisure"@, "wildlife_hide"@)
    ||| p == ("natural"@, "fell"@)
    ||| p == ("natural"@, "grassland"@)
    ||| p == ("natural"@, "heath"@)
    ||| p == ("natural"@, "moor"@)
    ||| p == ("natural"@, "scrub"@)
    ||| p == ("natural"@, "shrubbery"@)
    ||| p == ("natural"@, "tree"@)
    ||| p == ("natural"@, "tree_row"@)
    ||| p == ("natural"@, "tree_stump"@)
    ||| p == ("natural"@, "tundra"@)
    ||| p == ("natural"@, "wood"@)
    ||| p == ("amenity"@, "grave_yard"@)
    ||| p == ("landuse"@, "farmland"@)
    ||| p == ("landuse"@, "farmyard"@)
    ||| p == ("landuse"@, "forest"@)
    ||| p == ("landuse"@, "meadow"@)
    ||| p == ("landuse"@, "orchard"@)
    ||| p == ("landuse"@, "vineyard"@)
    ||| p == ("landuse"@, "cemetery"@)
    ||| p == ("landuse"@, "grass"@)
    ||| p == ("landuse"@, "recreation_ground"@)
    ||| p == ("landuse"@, "village_green"@)
}

/// The green-space predicate over a tag set.
pub open spec fn is_green(s: Set<(Seq<char>, Seq<char>)>) -> bool {
    if s.contains(("leisure"@, "garden"@)) {
        s.contains(("access"@, "yes"@)) || s.contains(("garden:type"@, "community"@))
    } else {
        exists|p: (Seq<char>, Seq<char>)| s.contains(p) && generic_green(p)
    }
}

/// Compares two string slices by their characters.
pub fn str_eq(a: &str, b: &str) -> (r: bool)
    ensures
        r == (a@ == b@),
{
    a.to_owned() == b.to_owned()
}

/// Whether the tag sequence carries the tag `(k, v)`.
pub fn has_tag(tags: &Vec<Tag>, k: &str, v: &str) -> (r: bool)
    ensures
        r == tag_set(tags@).contains((k@, v@)),
{
    let mut i: usize = 0;
    while i < tags.len()
        invariant
            i <= tags@.len(),
            forall|j: int| 0 <= j < i ==> tag_pair(tags@[j]) != (k@, v@),
        decreases tags@.len() - i,
    {
        if str_eq(tags[i].key.as_str(), k) && str_eq(tags[i].value.as_str(), v) {
            return true;
        }
        i = i + 1;
    }
    false
}

/// Whether one tag is on the unconditional whitelist.
fn tag_is_generic_green(t: &Tag) -> (r: bool)
    ensures
        r == generic_green(tag_pair(*t)),
{
    let k = t.key.as_str();
    let v = t.value.as_str();
    (str_eq(k, "leisure") && (str_eq(v, "common") || str_eq(v, "dog_park") || str_eq(
        v,
        "golf_course",
    ) || str_eq(v, "horse_riding") || str_eq(v, "nature_reserve") || str_eq(v, "park") || str_eq(
        v,
        "pitch",
    ) || str_eq(v, "wildlife_hide"))) || (str_eq(k, "natural") && (str_eq(v, "fell") || str_eq(
        v,
        "grassland",
    ) || str_eq(v, "heath") || str_eq(v, "moor") || str_eq(v, "scrub") || str_eq(v, "shrubbery")
        || str_eq(v, "tree") || str_eq(v, "tree_row") || str_eq(v, "tree_stump") || str_eq(
        v,
        "tundra",
    ) || str_eq(v, "wood"))) || (str_eq(k, "amenity") && str_eq(v, "grave_yard")) || (str_eq(
        k,
        "landuse",
    ) && (str_eq(v, "farmland") || str_eq(v, "farmyard") || str_eq(v, "forest") || str_eq(
        v,
        "meadow",
    ) || str_eq(v, "orchard") || str_eq(v, "vineyard") || str_eq(v, "cemetery") || str_eq(
        v,
        "grass",
    ) || str_eq(v, "recreation_ground") || str_eq(v, "village_green")))
}

/// Whether any tag of the sequence is on the unconditional whitelist.
fn any_generic_green(tags: &Vec<Tag>) -> (r: bool)
    ensures
        r == exists|p: (Seq<char>, Seq<char>)| tag_set(tags@).contains(p) && generic_green(p),
{
    let mut i: usize = 0;
    while i < tags.len()
        invariant
            i <= tags@.len(),
            forall|j: int| 0 <= j < i ==> !generic_green(tag_pair(tags@[j])),
        decreases tags@.len() - i,
    {
        if tag_is_generic_green(&tags[i]) {
            proof {
                assert(tag_set(tags@).contains(tag_pair(tags@[i as int])));
            }
            return true;
        }
        i = i + 1;
    }
    proof {
        assert forall|p: (Seq<char>, Seq<char>)| tag_set(tags@).contains(p) implies !generic_green(
            p,
        ) by {
            let j = choose|j: int| 0 <= j < tags@.len() && tag_pair(tags@[j]) == p;
        }
    }
    false
}

/// The green-space predicate over a tag bag.
pub fn green_tag_filter(tags: &Vec<Tag>) -> (r: bool)
    ensures
        r == is_green(tag_set(tags@)),
{
    if has_tag(tags, "leisure", "garden") {
        has_tag(tags, "access", "yes") || has_tag(tags, "garden:type", "community")
    } else {
        any_generic_green(tags)
    }
}

/// The tag predicate as a reusable value.
pub struct GreenTags {}

impl Default for GreenTags {
    fn default() -> (r: GreenTags)
        ensures
            r == (GreenTags {  }),
    {
        GreenTags {  }
    }
}

impl GreenTags {
    /// The green-space predicate over a tag bag.
    pub fn filter(&self, tags: &Vec<Tag>) -> (r: bool)
        ensures
            r == is_green(tag_set(tags@)),
    {
        green_tag_filter(tags)
    }
}

/// The predicate reads its input as a set: two tag sequences carrying the
/// same tags in any order and multiplicity classify alike.
pub proof fn lemma_is_green_order_independent(a: Seq<Tag>, b: Seq<Tag>)
    requires
        tag_set(a) == tag_set(b),
    ensures
        is_green(tag_set(a)) == is_green(tag_set(b)),
{
}

/// A permutation of a tag sequence carries the same tag set.
pub proof fn lemma_permutation_same_tag_set(a: Seq<Tag>, b: Seq<Tag>)
    requires
        a.to_multiset() == b.to_multiset(),
    ensures
        tag_set(a) == tag_set(b),
{
    broadcast use vstd::seq_lib::group_to_multiset_ensures;

    assert forall|p: (Seq<char>, Seq<char>)| tag_set(a).contains(p) implies tag_set(b).contains(
        p,
    ) by {
        let i = choose|i: int| 0 <= i < a.len() && tag_pair(a[i]) == p;
        assert(a.to_multiset().contains(a[i]));
        assert(b.contains(a[i]));
        let j = choose|j: int| 0 <= j < b.len() && b[j] == a[i];
        assert(tag_pair(b[j]) == p);
    }
    assert forall|p: (Seq<char>, Seq<char>)| tag_set(b).contains(p) implies tag_set(a).contains(
        p,
    ) by {
        let i = choose|i: int| 0 <= i < b.len() && tag_pair(b[i]) == p;
        assert(b.to_multiset().contains(b[i]));
        assert(a.contains(b[i]));
        let j = choose|j: int| 0 <= j < a.len() && a[j] == b[i];
        assert(tag_pair(a[j]) == p);
    }
    assert(tag_set(a) =~= tag_set(b));
}

} // verus!
