//! A process-tree viewer: builds the parent/child forest of the running
//! processes, selects the branches that match the user's filters and draws
//! them as an indented tree.

pub mod args;
pub mod bounded;
pub mod filter;
pub mod process;
pub mod render;
pub mod term;
pub mod text;
