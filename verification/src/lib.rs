//! An in-place XML/XHTML parser that builds a compact, index-addressed tree.

pub mod attribute;
pub mod chartype;
pub mod defs;
pub mod document;
pub mod entities;
pub mod grammar;
pub mod machine;
pub mod node;
pub mod node_info;
pub mod node_type;
pub mod order;
pub mod parser;
pub mod plain;
pub mod progress;
pub mod report;
pub mod roundtrip;
pub mod scan;
pub mod text;
pub mod tree;

pub use attribute::Attribute;
pub use attribute::AttributeInfo;
pub use document::Document;
pub use machine::ParseOptions;
pub use node::Node;
pub use node::NodeChildren;
pub use node_type::NodeType;
