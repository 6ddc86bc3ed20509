//! A verified interpreter core for the eight-instruction tape language.
//!
//! The crate is split into three stages, each with a mathematical model and
//! an executable function proved against it:
//!
//! * [`token`]: the lexer, a total filter-map from characters to [`Token`]s;
//! * [`command`]: the bracket-matching parser, from tokens to a tree of
//!   [`Command`]s;
//! * [`machine`]: the tape machine that walks the tree one step at a time.

pub mod command;
pub mod machine;
pub mod parse_laws;
pub mod semantics;
pub mod token;

pub use command::{Command, Instruction, ParseError};
pub use machine::{Machine, Outcome, Report, DEFAULT_TAPE_LEN};
pub use semantics::{Direction, RuntimeError, State, Status, Step};
pub use token::Token;
