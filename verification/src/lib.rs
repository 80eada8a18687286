//! Verified core of a green-space map pipeline.
//!
//! The library models coordinates as integer microdegrees and verifies the
//! pieces of the pipeline that are pure computation: the tag predicate that
//! classifies OpenStreetMap features, the three-pass polygon extraction,
//! the overlap partitioning behind the polygon union, the route corner
//! placement and polyline decoding of the routing client, and the
//! route-labeling plan.

pub mod counter;
pub mod extract;
pub mod geom;
pub mod regions;
pub mod routing;
pub mod tags;
pub mod union;

