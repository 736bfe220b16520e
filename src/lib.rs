//! Constraint-generation core of a circuit compiler: signal-slice bookkeeping,
//! component readiness tracking, deduplicating instance registry, dependency
//! graph statistics, and the textual export formats.

pub mod ast;
pub mod component;
pub mod component_preprocess;
pub mod config;
pub mod dag;
pub mod desugar;
pub mod export;
pub mod file_stack;
pub mod fresh_names;
pub mod functions;
pub mod knowledge;
pub mod registry;
pub mod simplify;
pub mod slice;
pub mod syntax;
pub mod version;
