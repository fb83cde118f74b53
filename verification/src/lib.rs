//! A small line-oriented text-search library: a streaming scanner that
//! classifies lines with a match predicate, keeps a bounded look-behind
//! buffer of before-context, counts down after-context, and emits each
//! qualifying line exactly once in stream order, together with the
//! formatting rules for line numbers, stream labels and match highlighting.

pub mod config;
pub mod engine;
pub mod format;
pub mod pattern;
pub mod scanner;

pub use config::ContextConfig;
pub use format::{Segment, Span};
pub use pattern::{Pattern, PatternError};
pub use scanner::{Emitted, Scanner};
