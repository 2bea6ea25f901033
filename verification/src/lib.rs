//! Frame analysis and control decisions for a screen-watching boot catcher:
//! regions of interest, pixel colour classification, cart detection,
//! motion blob extraction and the key-holding state machine.

pub mod geometry;
pub mod color;
pub mod keys;
pub mod png;
pub mod cart;
pub mod blobs;
