//! Streaming residency of world chunks around a moving viewpoint: chunk addressing, and the
//! per-frame decisions of what to evict, what to generate next and what to make resident.

pub mod coords;
pub mod manager;
