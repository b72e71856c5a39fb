//! An event-sourced state machine runtime.
//!
//! A state machine is described by the [`fsm::Fsm`] trait: commands may
//! produce events, events are the only way state changes, and changes are
//! classified so that effect handlers can react.  The [`machine`] module
//! drives one machine from a sequence of inputs, logging events and
//! collecting outputs; the [`kv`] module multiplexes many machines behind
//! hierarchical [`path::Path`] keys.

pub mod adapter;
pub mod counter;
pub mod fsm;
pub mod kv;
pub mod machine;
pub mod path;
pub mod persist;
pub mod start_stop;
pub mod text;

pub use vstd::prelude::View;

pub use fsm::Change;
pub use fsm::Fsm;
pub use fsm::Input;
pub use kv::Extant;
pub use kv::Keyed;
pub use kv::KvStore;
pub use kv::Query;
pub use machine::Machine;
pub use path::root;
pub use path::Path;
pub use path::PathItem;
pub use text::ParseError;
