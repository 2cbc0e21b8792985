//! Containers.
pub mod only_read_grow_array;
