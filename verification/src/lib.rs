//! Builds a nested module hierarchy out of flat, dot-separated protocol
//! package names, placing an inclusion marker at each requested package.
pub mod paths;
pub mod tree;
pub mod emit;
