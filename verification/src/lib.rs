//! A small natural-language processing toolkit: a Thompson-style regular
//! expression virtual machine used as a longest-match tokenizer, and an
//! annotated document that stores the resulting token spans.

pub mod sparse;
pub mod text;
pub mod match_record;
pub mod program;
pub mod semantics;
pub mod reinterp;
pub mod node_label;
pub mod tree_sequence;
pub mod document;
pub mod regex;
pub mod compile;
pub mod language;
pub mod soundness;
pub mod patterns;
pub mod tokenizer;
pub mod app_config;

pub use document::AnnotatedDocument;
pub use node_label::NodeLabel;
pub use tree_sequence::{TreeCursor, TreeSequence};
