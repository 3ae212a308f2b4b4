//! A compiler core for a small hardware intermediate language: the surface
//! syntax tree, an arena-based intermediate representation with a guard
//! algebra, and the static-timing pass that lowers statically timed control
//! into counter-driven groups.

pub mod ast;
pub mod ir;
pub mod static_timing;
