//! Flag metadata index for a Bazel-style command line: resolving a literal
//! token to the flag it names, and reattaching values that were written as a
//! separate token after a flag that requires one.

pub mod flag_info;
pub mod slot_map;
pub mod index;
pub mod merge;
pub mod docs;
pub mod payload;
