use spectrum::tags::{green_tag_filter, GreenTags, Tag};

fn tag(k: &str, v: &str) -> Tag {
    Tag { key: k.to_string(), value: v.to_string() }
}

#[test]
fn garden_alone_is_not_green() {
    assert!(!green_tag_filter(&vec![tag("leisure", "garden")]));
}

#[test]
fn garden_with_public_access_is_green() {
    assert!(green_tag_filter(&vec![tag("leisure", "garden"), tag("access", "yes")]));
}

#[test]
fn community_garden_is_green() {
    assert!(green_tag_filter(&vec![
        tag("leisure", "garden"),
        tag("garden:type", "community"),
    ]));
}

#[test]
fn park_is_green() {
    assert!(green_tag_filter(&vec![tag("leisure", "park")]));
}

#[test]
fn highway_is_not_green() {
    assert!(!green_tag_filter(&vec![tag("highway", "primary")]));
}

#[test]
fn garden_rule_wins_over_whitelist() {
    // Once the garden tag is present, only access=yes or
    // garden:type=community make the feature green; another whitelisted
    // tag on the same feature does not rescue it.
    assert!(!green_tag_filter(&vec![
        tag("leisure", "garden"),
        tag("landuse", "grass"),
    ]));
}

#[test]
fn filter_is_order_independent() {
    let a = vec![tag("leisure", "garden"), tag("access", "yes"), tag("name", "x")];
    let b = vec![tag("name", "x"), tag("access", "yes"), tag("leisure", "garden")];
    assert_eq!(green_tag_filter(&a), green_tag_filter(&b));
    let c = vec![tag("landuse", "meadow"), tag("highway", "primary")];
    let d = vec![tag("highway", "primary"), tag("landuse", "meadow")];
    assert_eq!(green_tag_filter(&c), green_tag_filter(&d));
    assert!(green_tag_filter(&c));
}

#[test]
fn whitelist_namespaces() {
    assert!(green_tag_filter(&vec![tag("natural", "wood")]));
    assert!(green_tag_filter(&vec![tag("amenity", "grave_yard")]));
    assert!(green_tag_filter(&vec![tag("landuse", "village_green")]));
    assert!(!green_tag_filter(&vec![tag("natural", "water")]));
    assert!(!green_tag_filter(&vec![tag("amenity", "parking")]));
}

#[test]
fn green_tags_value_agrees_with_free_function() {
    let tags = vec![tag("leisure", "pitch")];
    let g = GreenTags::default();
    assert_eq!(g.filter(&tags), green_tag_filter(&tags));
    assert!(g.filter(&tags));
}
