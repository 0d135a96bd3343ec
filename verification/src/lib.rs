//! A verified patcher core for a small binary patch-container format.
//!
//! A patch container holds an ordered list of records, each a destination
//! offset and a payload. The library parses containers into a [`record::PatchSet`],
//! resolves an image variant to its fixed base address, and applies a patch
//! set to an in-memory image, writing each payload at `offset + base`.

pub mod apply;
pub mod container;
pub mod record;
pub mod variant;
