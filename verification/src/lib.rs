//! Apex: a local architecture workbench. This crate holds the verified core:
//! the property graph, rule checking, metrics, layout, diagram rendering and the
//! lightweight language recognizers that turn source text into a graph.
pub mod text;
pub mod keymap;
pub mod model;
pub mod graph;
pub mod rules;
pub mod render;
pub mod layout;
pub mod plugin;
pub mod languages;
pub mod metrics;
pub mod metrics_json;
pub mod diagram;
pub mod svg;
pub mod strs;
pub mod ops;
pub mod recognize;
pub mod spans;
pub mod imports;
pub mod parsers;
pub mod line_parsers;
pub mod manifest;
pub mod scan;
pub mod rules_file;
pub mod web;
pub mod api;
pub mod server;
pub mod cli;
pub mod http;
pub mod report;
pub mod laws;
pub mod metrics_text;
pub mod output_laws;
