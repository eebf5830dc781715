//! A declarative-markup UI runtime: an element tree with attribute storage,
//! unique node identities and parent/child ownership, assembled from parser
//! events, rendered through a two-phase visitor protocol, and wired back to
//! application logic by name-based event bubbling.

pub mod assembly;
pub mod attributes;
pub mod events;
pub mod strnum;
pub mod tree_builder;
pub mod ui_elements;
pub mod visitor;
pub mod xaml_reader;
