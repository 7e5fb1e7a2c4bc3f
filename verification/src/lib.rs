//! Parsers for hierarchical, slash-delimited control addresses and for
//! glob-style address patterns over the same path shape.
//!
//! An address names one concrete destination: an ordered container path and
//! a final method name. A pattern selects a set of destinations through
//! wildcards, character classes and two-way alternation. Both parsers are
//! all-or-nothing: a string either denotes a structured value or denotes
//! nothing, and the contracts below pin down exactly which.

pub mod address;
pub mod pattern;
pub mod segment;
