//! Rule dependency resolution for a dotfiles installation manager.
//!
//! Rules name the rules that have to be performed before them and after them.
//! The library turns such declarations into a dependency graph and the graph
//! into one linear execution order, or into a cycle that shows why there is
//! none.
//!
//! - [`graph`] is the mathematical model: graphs, walks, cycles, orders, and
//!   what holds among them.
//! - [`declare`] says which graph declarations stand for.
//! - [`traverse`] walks through a graph of numbered nodes; [`naming`] carries
//!   what it finds over to named nodes.
//! - [`deps_graph`] and [`deps_resolver`] are the graph of named nodes and its
//!   resolution; [`path`] holds the paths and cycles that they report.
//! - [`node`], [`identifier`], [`items`], [`list`], [`table`] and [`text`] are
//!   the values that these work on.
//! - [`config`], [`rule_actions`], [`cli`] and [`os`] are the configuration of
//!   rules and what the command line asks of it.

pub mod cli;
pub mod config;
pub mod declare;
pub mod deps_graph;
pub mod deps_resolver;
pub mod graph;
pub mod identifier;
pub mod items;
pub mod list;
pub mod naming;
pub mod node;
pub mod os;
pub mod path;
pub mod rule_actions;
pub mod table;
pub mod text;
pub mod traverse;
