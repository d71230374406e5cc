//! Parsing of task statements into the persisted `random_test:` section.

pub mod normalize;
pub mod bounds;
pub mod constraint_parse;
pub mod types;
pub mod analysis;
pub mod format_lowering;
pub mod format_parse;
pub mod task;
pub mod ordering;
pub mod range_bounds;
pub mod enrich;
pub mod yml_text;
pub mod html;
pub mod annotate;
pub mod constraint_laws;
