//! Opt-in matcher experiments. An experiment may change how a scan selects
//! its starts; it never changes which matches the patterns describe.
pub mod assertion_prefix_v1;
