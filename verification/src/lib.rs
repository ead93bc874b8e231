//! Test-impact analysis: which tests can observe a change.
pub mod bare;
pub mod cache;
pub mod calc;
pub mod classify;
pub mod config;
pub mod console;
pub mod diffdef;
pub mod discover;
pub mod draft;
pub mod fingerprint;
pub mod gitio;
pub mod graph;
pub mod indexer;
pub mod java_index;
pub mod lang_go;
pub mod lang_java;
pub mod lang_rust;
pub mod lang_ts;
pub mod language;
pub mod names;
pub mod paths;
pub mod plugins;
pub mod probes;
pub mod reach;
pub mod reformat;
pub mod reformat_go;
pub mod reformat_java;
pub mod reformat_rust;
pub mod reformat_ts;
pub mod render;
pub mod report;
pub mod rerun;
pub mod resolving;
pub mod runner;
pub mod soundness;
pub mod syntax;
pub mod text;
pub mod trace;
pub mod trace_go;
pub mod trace_java;
pub mod trace_rust;
pub mod trace_ts;
pub mod walk;
