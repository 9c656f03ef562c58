//! Build-time analysis for a dependency-injection code generator: the
//! metadata model of scanned components, the dependency graph with its
//! validation, cycle detection and topological order, name derivation, and
//! the plans from which the container, graph and router code is rendered.

pub mod models;
pub mod graph;
pub mod resolve;
pub mod validate;
pub mod messages;
pub mod utils;
pub mod scanner;
pub mod syntax;
pub mod codegen;
pub mod pipeline;
pub mod services;
pub mod markers;
