//! Ready-made rings for trying the library out.

pub mod testing;
