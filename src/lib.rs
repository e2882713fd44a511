//! Token-budgeted context postprocessing: scores the lines of candidate files from
//! retrieval hints and symbol structure, selects lines under a token budget, and writes
//! condensed excerpts with `...` elisions.

pub mod budget;
pub mod text;
pub mod model;
pub mod colorize;
pub mod pipeline;
pub mod select;
pub mod emit;
pub mod postprocess;
pub mod tokens;
pub mod loader;
pub mod laws;
pub mod git;
pub mod chat;
pub mod links;
pub mod integrations;
