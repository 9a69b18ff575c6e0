//! A text-driven input-automation macro player: a scripting language for
//! trigger conditions and replayable action sequences (mouse presses, moves,
//! waits), and an execution engine that, given one incoming input event and
//! the current pointer position, produces the exact sequence of events to
//! inject and pauses to take.
pub mod parse;
pub mod script;

pub use parse::parse_file;
pub use script::Macro;
