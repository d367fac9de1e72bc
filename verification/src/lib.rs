//! A small order and task application with explicit architectural layers,
//! and a verified engine for layer contracts: the module reference graph of
//! a crate, its interchange text, and the policies that say which layer owns
//! each module and which layers may reference which.

pub mod text;
pub mod graph;
pub mod wire;
pub mod cycle;
pub mod collect;
pub mod policy;
pub mod pup;
pub mod domain;
pub mod application;
pub mod infrastructure;
pub mod presentation;

pub use graph::{Edge, EdgeSet, Graph, ModuleSet};
pub use policy::{Finding, Layer, Policy};
