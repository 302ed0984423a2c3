//! Supply-chain audit resolution.
//!
//! Given the packages of a build, a store of audits, exemptions and policy,
//! and the audits imported from peers, the library decides whether every
//! package from the registry is covered by audits that meet the criteria
//! required of it, and suggests what to audit where it is not.
//!
//! The functions carry contracts over mathematical models of their data:
//! sets of criteria are sets of indices, graphs are sequences of nodes, and
//! the resolver's report is the one that [`resolver::Report::describes`]
//! determines.

// Foundations: bits, strings, tables, graphs on indices.
pub mod bits;
pub mod reach;
pub mod table;
pub mod text;
pub mod topo;

// The data model.
pub mod criteria;
pub mod criteria_set;
pub mod format;
pub mod storage;
pub mod version;

// The dependency graph and its filters.
pub mod filter;
pub mod filter_laws;
pub mod graph;
pub mod graph_filter;

// Resolution, suggestions and the regeneration of exemptions.
pub mod agree_laws;
pub mod apart_laws;
pub mod claims;
pub mod coverage;
pub mod minimal_laws;
pub mod minimize;
pub mod minimize_laws;
pub mod needed_laws;
pub mod requirement_laws;
pub mod resolver;
pub mod resolver_laws;
pub mod suggest;

// The commands and what they read and write.
pub mod certify;
pub mod cli;
pub mod commands;
pub mod diffstat;
pub mod help_md;
pub mod validity_laws;
