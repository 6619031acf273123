//! Synthesis of short string programs from examples of inputs and outputs.
//!
//! The programs are written in a small language of string, location and truth
//! operators (`fun`, `ast`, `eval`). Sets of programs are held as version spaces
//! (`vsa`) that can be united, intersected, flattened, sorted by value and
//! searched for a best program. A bank of programs is enumerated by size
//! (`enumerate`, `bottom_up`), goals are worked out from the top (`learn`), and
//! the driver brings the two together (`driver`). The modules whose names end in
//! `laws` hold what is proved of these operations.

pub mod lit;
pub mod text;
pub mod pattern;
pub mod fun;
pub mod ast;
pub mod eval;
pub mod render;
pub mod vsa;
pub mod best;
pub mod flatten;
pub mod cluster;
pub mod bank;
pub mod cache;
pub mod enumerate;
pub mod bottom_up;
pub mod learn;
pub mod seed;
pub mod driver;
pub mod laws;
pub mod best_laws;
pub mod flat_laws;
pub mod wf_laws;
pub mod learn_laws;
pub mod bottom_up_laws;
pub mod size_laws;
