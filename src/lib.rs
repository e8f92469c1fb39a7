//! Repository-hygiene checks over a committed tree snapshot: case-insensitive
//! path collisions, Unity-style `.meta` sidecar pairing under `Assets/`, and
//! large blobs that are marked for LFS but committed inline.

pub mod tree;
pub mod case_check;
pub mod meta_check;
pub mod lfs_check;
pub mod summary;
