//! Grammar-aware model of HTTP messages for differential desynchronization
//! testing: a typed parse-tree data model with cached positional aggregates,
//! grammar-constrained mutation operators, and a differential oracle over
//! per-target parameter records.

pub mod message;
pub mod mode;
pub mod mutators;
pub mod node;
pub mod oracle;
pub mod param;

pub use message::GrammarViolation;
pub use message::HttpInput;
pub use message::HttpSequenceInput;
pub use message::IsHttpInput;
pub use message::IsHttpSequenceInput;
pub use mode::Mode;
pub use node::Node;
pub use node::NodeLabel;
pub use node::NodeBaseIterator;
pub use node::NodeIterator;
pub use node::NodeMutIterator;
pub use node::NodeType;
pub use node::NodeValueIterator;
pub use oracle::is_interesting;
pub use param::HttpParam;
