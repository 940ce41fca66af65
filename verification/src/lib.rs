//! A rule-driven recursive parsing engine that turns flat text into a tree of
//! typed nodes, together with a chat-flavoured markdown dialect built on it.
//!
//! Nodes live in an arena and are addressed by their index in it; a parent
//! stores the indices of its children. All offsets are byte offsets into the
//! source text.
//!
//! * [`node`]: the nodes of a tree and their markdown text.
//! * [`parse_spec`]: the descriptor that a rule builds for a match, which is
//!   also the engine's unit of pending work.
//! * [`regex`]: compiled patterns and the capture groups of a match.
//! * [`rule`]: what a rule has to offer the engine.
//! * [`parser`]: the engine, and the function of rules and text that it
//!   computes.
//! * [`spans`]: how the spans of the nodes of a forest lie to each other.
//! * [`markdown_rules`]: the rules of the dialect.

pub mod markdown_rules;
pub mod node;
pub mod parse_spec;
pub mod parser;
pub mod regex;
pub mod rule;
pub mod spans;

pub use node::{MarkdownNode, Node, NodeView};
pub use parse_spec::ParseSpec;
pub use parser::{Forest, Parser, Progress, Styled};
pub use regex::{Captures, CapturesView, Pattern, PatternError};
pub use rule::{Descriptor, Rule};
