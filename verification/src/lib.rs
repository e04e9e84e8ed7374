//! Why is a package in a lockfile? Every path from the roots of the
//! dependency graph down to the package, merged into one tree.
//!
//! The answer is made in steps, each in a module of its own:
//!
//! - `lockfile` reads the entries of a lockfile, `filter` holds the versions
//!   of the queried package against a requirement, `normalize` corrects the
//!   entries, and `query` finds the descriptors that a query stands for;
//! - `graph` records for every descriptor the descriptors that depend on it;
//! - `walk` and `why` find the paths from the roots down to the queried
//!   descriptors, and `order` sorts and cuts them;
//! - `forest` merges the paths, `dedup` and `unfold` turn the forest into
//!   trees, `render` writes the trees as text or as JSON, and `json` reads
//!   the JSON back;
//! - `explain` puts the steps together, and `laws` states what holds of them.

pub mod dedup;
pub mod explain;
pub mod filter;
pub mod forest;
pub mod graph;
pub mod index;
pub mod json;
pub mod laws;
pub mod lockfile;
pub mod model;
pub mod normalize;
pub mod order;
pub mod prune;
pub mod query;
pub mod records;
pub mod render;
pub mod text;
pub mod tree;
pub mod unfold;
pub mod walk;
pub mod why;
