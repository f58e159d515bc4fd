//! A verified archive container for typed game assets: classification of
//! file names, deterministic texture-first ordering, the binary layout of
//! the archive, and the symmetric pack / unpack / list transforms, with
//! deflate compression behind a small trusted boundary.

pub mod archive;
pub mod asset;
pub mod codec;
pub mod shim;
pub mod walk;
