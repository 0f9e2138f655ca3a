//! Rebuilds a directory tree from a recorded terminal session and answers
//! size queries over it.
//!
//! The session is a text of `cd` and `ls` commands with the listings they
//! produced. [`parse_instructions`] reads it into an [`Arena`], in which every
//! directory and file is a node with a stable index. [`bounded_size_sum`] and
//! [`min_to_free`] then ask for the sum of the small directories and for the
//! smallest directory whose removal frees enough room; [`part_one`] and
//! [`part_two`] do both steps at once.
//!
//! Every function is verified against a mathematical model: the tree as a
//! sequence of nodes ([`tree`]), its sizes ([`totals`]), the grammar of the
//! session ([`text`], [`trace`]) and the queries ([`query`]).

pub mod arena;
pub mod query;
pub mod text;
pub mod totals;
pub mod trace;
pub mod tree;

pub use crate::arena::{Arena, NodeId, Obj};
pub use crate::query::{bounded_size_sum, min_to_free, part_one, part_two, QueryError};
pub use crate::trace::{parse_instructions, parse_line, Interpreter, Line, TraceError};
