//! Verified core of a local asset library: format recognition, path rules, the asset
//! query language, the catalog and its index, scanning and file-system change folding,
//! library roots, support reports, batch preflight, and the format-worker protocol.
pub mod text;
pub mod asset_core;
pub mod isobmff;
pub mod formats;
pub mod query_model;
pub mod query_lex;
pub mod query_values;
pub mod query_filters;
pub mod query_parse;
pub mod query_nodes;
pub mod query_rewrite;
pub mod platform;
pub mod events;
pub mod diagnostics;
pub mod protocol;
pub mod index;
pub mod heif_backend;
pub mod worker_client;
pub mod bundle;
pub mod library;
pub mod support;
pub mod batch;
pub mod scanner;
pub mod catalog;
pub mod records;
pub mod reconciliation;
pub mod ignore;
pub mod coordination;
