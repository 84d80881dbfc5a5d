//! The algorithms of the library.

pub mod ford_fulkerson;
