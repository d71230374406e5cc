//! Random test generation: accounting and the values generated so far.

pub mod budget;
pub mod context;
pub mod spec;
pub mod rng;
pub mod strategy;
pub mod relation;
pub mod gen;
pub mod shape;
pub mod pick;
pub mod emitter;
pub mod render;
pub mod cases;
pub mod runner;
pub mod proc;
pub mod cargo_reg;
pub mod manifest;
