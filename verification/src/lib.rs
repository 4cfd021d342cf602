//! A solver for the classic codebreaking game: a hidden code of four pegs,
//! each one of six kinds, is deduced from hints that say how many pegs of a
//! guess match in both kind and position and how many match in kind only.

mod code;
mod hint;
mod peg;
mod solver;

pub use self::code::{all_possible_codes, Code, CodeParsingError};
pub use self::hint::Hint;
pub use self::peg::Peg;
pub use self::solver::Solver;
