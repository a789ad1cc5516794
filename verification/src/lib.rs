//! Flat VMDK disk images: their text descriptor, the extents that back the virtual disk, and the
//! worker that maps guest requests to them.

pub mod descriptor;
pub mod disk;
pub mod error;
pub mod extent;
pub mod flat;
pub mod image;
pub mod lines;
pub mod path;
pub mod text;
pub mod transfer;
pub mod trusted_root;
pub mod worker;
