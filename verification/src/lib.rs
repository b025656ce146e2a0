//! An optimiser for shape-based input methods: it puts groups of character roots on keys so that few
//! characters share a code, and gives out short codes along the way. Whatever a search does to an
//! assignment, the state that it keeps is that of the assignment it has reached.

mod dice;
mod fx;
pub mod agreement;
pub mod annealing;
pub mod backend_log;
pub mod bucket_store;
pub mod builder;
pub mod call_laws;
pub mod candidates;
pub mod checkpoint;
pub mod climb;
pub mod climb_laws;
pub mod codes;
pub mod collisions;
pub mod commit_laws;
pub mod config;
pub mod config_laws;
pub mod conflicts;
pub mod context;
pub mod descent;
pub mod evaluator;
pub mod fixed;
pub mod fsutil;
pub mod full_codes;
pub mod full_laws;
pub mod incremental;
pub mod key_usage;
pub mod laws;
pub mod listing;
pub mod lists;
pub mod moves;
pub mod multistart;
pub mod neighbours;
pub mod operators;
pub mod order;
pub mod protection;
pub mod rebuild;
pub mod room_laws;
pub mod run_laws;
pub mod scheme;
pub mod scheme_laws;
pub mod search_laws;
pub mod selection;
pub mod simple_collisions;
pub mod simple_evaluator;
pub mod simple_laws;
pub mod simple_level;
pub mod simple_select;
pub mod space_codes;
pub mod starts;
pub mod sums;
pub mod text;
pub mod tie_laws;
pub mod totals;
pub mod types;
pub mod undo;
pub mod visits;
