//! An in-memory model of Windows-style registry hives in the Wine textual
//! format ("WINE REGISTRY Version 2"): a parser and a byte-exact writer for
//! the format, a case-insensitive registry tree, a structural comparator
//! that lists the differences between two trees, and a patcher that applies
//! such a change list in dependency order, together with the round-trippable
//! textual diff form of a change list.

pub mod text;
pub mod architecture;
pub mod registry_value;
pub mod registry_key;
pub mod registry_utils;
pub mod registry_parser;
pub mod registry_writer;
pub mod registry_comparator;
pub mod registry_patcher;
pub mod registry_text_diff;
pub mod registry_dsl;
pub mod registry_editor;
pub mod laws;
