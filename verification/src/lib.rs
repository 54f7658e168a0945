//! Comparison of the exported-symbol type surface of two builds of a C code base,
//! as captured in symtypes declaration files.
//!
//! A [`corpus::SymCorpus`] holds the declarations of one build: a table of the
//! distinct token sequences seen for every type name, for every loaded file the
//! variant that it uses of each name that it declares, and an index of the
//! exported symbols. [`corpus::SymCorpus::load_file`] reads the text of one
//! declaration file into it.
//!
//! [`corpus::SymCorpus::compare_with`] walks the type graphs of two corpora
//! side by side, from every export that both have, and records every type whose
//! two declarations differ; [`compare::Comparison::render`] shows each change
//! as a diff of the two pretty-printed declarations.
//! [`corpus::SymCorpus::print_type`] lists a type with all types that it refers
//! to.
//!
//! Every function states what it computes over the mathematical models of
//! [`model`], [`graph`] and the modules of the single steps, and the laws that
//! relate these models are proved beside them.

pub mod changes;
pub mod compare;
pub mod corpus;
pub mod diff;
pub mod graph;
pub mod listing;
pub mod listing_laws;
pub mod model;
mod name_map;
pub mod parse;
pub mod pretty;
pub mod render;
pub mod token;
