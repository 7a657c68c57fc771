//! A multi-generational LRU cache, in two forms: one with a capacity fixed by
//! its type and a hash table of its own, one with a capacity chosen at run
//! time and a standard hash map.
pub mod model;
pub mod laws;
pub mod probe;
pub mod no_std_impl;
pub mod std_impl;
