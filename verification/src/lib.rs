//! Disk usage of directory trees: which entries of a walk are counted, how
//! their sizes are added up, and which of them are shown.
//!
//! The program around this library reads directories and prints; it hands the
//! library plain values and acts on what the library decides.

pub mod accounting;
pub mod cli;
pub mod clock;
pub mod config;
pub mod determinism;
pub mod dir_walker;
pub mod display;
pub mod display_node;
pub mod entries;
pub mod exclusion;
pub mod filter;
pub mod filtered;
pub mod heap;
pub mod history;
pub mod identity;
pub mod inode_set;
mod lists;
pub mod measures;
pub mod name_key;
pub mod node;
pub mod normal_form;
pub mod order;
pub mod path;
pub mod path_join;
pub mod pattern;
pub mod pieces;
pub mod places;
pub mod platform;
pub mod progress;
pub mod schedule;
pub mod selection;
pub mod settings;
pub mod shape;
pub mod size_text;
pub mod sorting;
pub mod spelling;
pub mod startup;
pub mod sums;
pub mod telling;
pub mod text;
pub mod totals;
pub mod utils;
pub mod walk;
