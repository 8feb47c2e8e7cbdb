//! Glyph-atlas packing with recency-based eviction, together with the small
//! allocation primitives it is built beside: a bump arena and a slot map.

pub mod arena;
pub mod atlas;
pub mod input;
pub mod pixels;
pub mod slab;
