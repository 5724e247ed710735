//! A small markup parser: an optional `<?xml ...?>` declaration, then one root element with
//! attributes, text and nested child elements.
//!
//! `scan` holds the grammar's character classes and scanners, `xml` the element tree and the
//! recursive descent parser, `xml_root` the document with its declaration, and `laws` what is
//! proved of writing a tree out and reading it back.

pub mod laws;
pub mod scan;
pub mod xml;
pub mod xml_attr;
pub mod xml_root;
