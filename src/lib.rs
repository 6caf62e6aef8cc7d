//! Execution core of a Pike VM regular-expression matcher, and the symbol
//! tables of the rule compiler.
//!
//! - [`instr`]: the VM's instructions and their decoder.
//! - [`code_loc`]: locations in the VM code, with the scan direction.
//! - [`closure`]: the epsilon closure of a location.
//! - [`pikevm`]: the lock-step simulation of all threads over the input.
//! - [`symbols`]: symbol tables, plain and stacked.
pub mod closure;
pub mod code_loc;
pub mod instr;
pub mod pikevm;
pub mod symbols;

pub use closure::{epsilon_closure, EpsilonClosureState};
pub use code_loc::CodeLoc;
pub use instr::{decode_instr, Instr};
pub use pikevm::{Action, MatchCollector, MatchSink, PikeVM, DEFAULT_SCAN_LIMIT};
pub use symbols::{
    lookup_field, Location, StackedSymbolTable, Symbol, SymbolIndex, SymbolLookup, SymbolTable, Type,
    Value,
};
