//! Construction of the pilot automaton of an extended LR(1) grammar given as
//! a network of finite-state machines, with the diagnosis of its conflicts.
pub mod bounds;
pub mod candidate;
pub mod charset;
pub mod closure;
pub mod conflicts;
pub mod dot;
pub mod followers;
pub mod fsm;
pub mod lexer;
pub mod net;
pub mod parser;
pub mod pilot;
pub mod shift;
pub mod unique;
pub mod validate;

pub use crate::candidate::Candidate;
pub use crate::closure::closure;
pub use crate::conflicts::{Conflict, ConvergenceConflict, ReduceReduceConflict, ShiftReduceConflict};
pub use crate::fsm::{Machine, State, Transition};
pub use crate::lexer::{LexDiagnostic, LexError, Lexer, SourceLocation, Token, TokenValue};
pub use crate::parser::{ParseError, Parser, SyntaxError};
pub use crate::net::{MachineNet, NetError};
pub use crate::pilot::{create_pilot, Pilot, PilotState, PilotTransition};
