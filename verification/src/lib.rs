//! A storage layer for a flat, key-addressed cell store: lazily cached
//! containers (cells, arrays, index maps and a growable vector) that read and
//! write host cells only on demand and on flush, together with the layout
//! protocol that assigns each value a contiguous range of cells.

pub mod cache;
pub mod compound;
pub mod entry;
pub mod hashing;
pub mod key;
pub mod layout;
pub mod lazy_array;
pub mod lazy_cell;
pub mod lazy_map;
pub mod prims;
pub mod store;
pub mod vec;
