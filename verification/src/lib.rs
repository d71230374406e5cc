use vstd::prelude::*;

pub mod text;
pub mod regex_ops;
pub mod maps;
pub mod parse;
pub mod commands;
pub mod interrupt;
pub mod random_test;
pub mod template;
pub mod project;
pub mod testing;

verus! {
} // verus!
