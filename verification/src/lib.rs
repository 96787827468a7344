//! A commit index: a table of commits with their parents, kept in memory and
//! in a stack of content-addressed files, with fast lookups and graph walks.

pub mod ancestry;
pub mod byte_order;
pub mod composite;
pub mod descendants;
pub mod descendants_index;
pub mod entry;
pub mod file_laws;
pub mod format;
pub mod generation_walk;
pub mod graph_laws;
pub mod heap;
pub mod hex_digits;
pub mod ids;
pub mod index;
pub mod laws;
pub mod loading;
pub mod merging;
pub mod model;
pub mod mutable;
pub mod paths;
pub mod positions;
pub mod queries;
pub mod query_laws;
pub mod queue;
pub mod queue_laws;
pub mod readonly;
pub mod rev_walk;
pub mod save;
pub mod segment;
pub mod sort;
pub mod stats;
pub mod stats_laws;
pub mod validity;
pub mod walk;
pub mod walk_laws;
