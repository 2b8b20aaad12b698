//! Resolves addresses of a program to procedures, source files and lines,
//! with the calls that were inlined at the address, from the debug
//! information of the program.
//!
//! The library holds the logic and no decoder: a [`Context`] is made from the
//! procedure records of the program, and a lookup that needs a piece of debug
//! information that the context does not hold yet asks for it with a
//! [`Request`].

use vstd::prelude::*;

pub mod address_set;
pub mod context;
pub mod frames;
pub mod inline_ranges;
pub mod inline_sites;
pub mod intervals;
pub mod keyed;
pub mod lines;
pub mod procedures;
pub mod reading;
pub mod theorems;

pub use context::{Context, ContextView, Lookup, ProcedureIter, Request};
pub use frames::{Frame, FrameStack, Procedure, ProcedureFrames};
pub use inline_ranges::{InlineRange, InlineRangeTable};
pub use inline_sites::{compute_procedure_inline_ranges, InlineeLine, SymbolData, SymbolRecord};
pub use lines::{CachedLine, LineTable};
pub use procedures::{build_index, BasicProcedure, ProcedureIndex, ProcedureSymbol};
pub use reading::extend_limit;

verus! {

} // verus!
