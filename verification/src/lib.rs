//! A key/value store built on an insertion-ordered hash map that uses open
//! addressing with linear probing and Robin Hood displacement.

pub mod hashers;
pub mod keys;
pub mod slots;
pub mod hashmap;
pub mod database;
pub mod command;
pub mod laws;
