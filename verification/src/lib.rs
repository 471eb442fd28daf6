//! Marker packs: reading pack definition documents into categories, points of
//! interest and trails, and ordering what a frame draws.
pub mod space;
