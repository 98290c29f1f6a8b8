//! Mesh topology checks and repairs for fabrication preflight.
pub mod edges;
pub mod winding;
pub mod orientation;
pub mod weld;
pub mod buffers;
pub mod report;
pub mod keys;
