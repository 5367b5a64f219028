//! Evidence-first Markdown knowledge-base logic: reading, searching,
//! chunking, linking, graph traversal, retrieval budgets and the
//! spec-driven change lifecycle.

pub mod ask;
pub mod chunk_graph;
pub mod config;
pub mod digest;
pub mod embedding;
pub mod fmt;
pub mod graph;
pub mod harness;
pub mod index;
pub mod init;
pub mod markdown;
pub mod neighborhood;
pub mod pattern;
pub mod rag;
pub mod relations;
pub mod read;
pub mod sdd_archive;
pub mod sdd_change;
pub mod scopes;
pub mod search;
pub mod sdd_check;
pub mod sdd_parse;
pub mod sdd_render;
pub mod sdd_structure;
pub mod sdd_template;
pub mod sdd_tasks;
pub mod sdd_verify;
pub mod shared;
pub mod text;
pub mod unicode;
