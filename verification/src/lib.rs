//! Turns a textual directory-tree listing into a creation plan.
//!
//! The [`parser`] module classifies one line of text at a time into an
//! optional record of nesting depth, entry name and kind, understanding both
//! indentation-based listings (tabs, runs of four spaces) and listings drawn
//! with box-drawing connectors.  The [`builder`] module folds the ordered
//! record sequence into a flat list of paths to create, tracking the open
//! ancestor directories through a depth-indexed prefix.  Carrying the plan
//! out on a real filesystem is left to the caller.

pub mod builder;
pub mod parser;
