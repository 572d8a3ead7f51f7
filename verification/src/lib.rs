//! A code walker: call graphs, the questions asked of them, and the views that
//! answer those questions.

pub mod adapter;
pub mod adjacency;
pub mod analysis;
pub mod arena;
pub mod bodies;
pub mod cache;
pub mod callees;
pub mod calltree;
pub mod card;
pub mod cards;
pub mod commands;
pub mod config;
pub mod diagnostic;
pub mod discover;
pub mod drawings;
pub mod engine;
pub mod entries;
pub mod explorer;
pub mod export;
pub mod ext;
pub mod findings;
pub mod flow;
pub mod found;
pub mod fragment;
pub mod go;
pub mod graph;
pub mod hierarchy;
pub mod ids;
pub mod incremental;
pub mod lang;
pub mod lenses;
pub mod link;
pub mod linking;
pub mod metric;
pub mod metrics;
pub mod modules;
pub mod naming;
pub mod nav;
pub mod order;
pub mod outline;
pub mod panes;
pub mod path;
pub mod pointer;
pub mod python;
pub mod reach;
pub mod report;
pub mod reports;
pub mod resolve;
pub mod rows;
pub mod rust;
pub mod semantic;
pub mod seqs;
pub mod session;
pub mod source;
pub mod suggestion;
pub mod syntax;
pub mod text;
pub mod trace;
pub mod typescript;
pub mod vertical;
pub mod walk;
