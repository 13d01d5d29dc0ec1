//! Compiles a compact text format of keyboard-shortcut bindings into a sorted,
//! prefix-free table of hotkeys and the action text each one runs.
pub mod assemble;
pub mod body;
pub mod calculator;
pub mod error;
pub mod fsm;
pub mod generator;
pub mod head;
pub mod keys;
pub mod order;
pub mod sizing;
pub mod text;
pub mod walker;

pub use assemble::Shortcut;
pub use error::ParseError;
pub use fsm::validate_and_calculate_allocations;
pub use generator::{parse_into_shortcut_list, PermutationsGenerator};
pub use keys::Chord;
pub use sizing::EntryBlobMetadata;
pub use walker::CharsWithIndex;
