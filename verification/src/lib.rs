//! A registry of reusable, categorized text fragments and a resolver that
//! computes a relationship graph among them.
//!
//! Fragments are small named blocks of text, each in one of five fixed
//! categories, carrying metadata (tags, a group, a level, group
//! affinities). The registry merges fragments from three origins under
//! override priority and serves lookup and listing queries; the resolver
//! selects a node subset for a query and synthesizes edges from shared
//! tags and groups.

pub mod builtin;
pub mod compose;
pub mod fragment;
pub mod lint;
pub mod query;
pub mod registry;
pub mod resolve;
pub mod strutil;
pub mod version;
pub mod yaml;
