//! Declarative framework for reachability-based algorithms driven by rule tables.
//!
//! A rule table declares edge types, colors, sets, start states, output states
//! and transition rules.  Once compiled, it drives a generic breadth-first
//! search over a product automaton of (vertex, edge-type, color) states.

pub mod array_nd;
pub mod expression;
pub mod instance;
pub mod reach;
pub mod ruletable;
pub mod strutil;

pub use instance::{Graph, ParseGraphError, ParseSetsError, Sets};
pub use reach::Settings;
pub use ruletable::{ParseRuletableError, ReadRuletableError, Ruletable};
