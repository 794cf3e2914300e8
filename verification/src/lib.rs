//! Immutable red/green syntax trees with user-defined payloads.
//!
//! This is tree infrastructure around a parser, not a parser. Green trees
//! store immutable syntax structure and text widths; red trees add parent
//! links, child indexes and offsets for navigation. The `Language` trait
//! defines the syntax kind and payload types, and how a node's payload is
//! composed from its kind and its children.
//!
//! - `text`: text sizes and ranges.
//! - `lang`: the `Language` trait.
//! - `green`: green elements, their construction and child edits.
//! - `builder`: event-style construction of green trees.
//! - `red`: positioned red nodes, navigation, offset queries, covering nodes,
//!   walks and edits that rebuild the root.
pub mod builder;
pub mod green;
pub mod lang;
pub mod red;
pub mod text;
