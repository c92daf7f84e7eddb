//! Randomized command-trace generator for a prefix-keyed string store.
//!
//! The library keeps a shadow model of the store under test and, for each
//! synthesized command (`Add`, `Get`, `Remove`, `Reverse`), computes the
//! expected result against that model, so that the emitted trace can be
//! diffed against the real system's output.

pub mod commands;
pub mod order;
pub mod random;
pub mod store;
pub mod strings;
pub mod symbols;

pub use commands::Command;
pub use commands::add_command;
pub use commands::gen_addition;
pub use commands::gen_get;
pub use commands::gen_removed;
pub use commands::gen_reverse;
pub use commands::get_command;
pub use commands::remove_command;
pub use commands::reverse_command;
pub use commands::run_iteration;
pub use order::StringWrapper;
pub use random::random_sequence;
pub use store::ShadowStore;
pub use symbols::MAX_SIZE;
pub use symbols::MIN_SIZE;
