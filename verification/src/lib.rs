//! Lezeh: engineering day-to-day tooling (database cherry picking, feature
//! branch merging, url shortening), with its logic verified by Verus.

pub mod bill;
pub mod cherry_pick;
pub mod command;
pub mod config;
pub mod db_metadata;
pub mod deployment;
pub mod graph;
pub mod relation_fetcher;
pub mod relation_insert;
pub mod renderer;
pub mod dto;
pub mod rose_tree;
pub mod table_metadata;
pub mod text;
pub mod url;
