//! Multi-locus sequence typing of a sample against a database of known profiles.
//!
//! A profile is a sequence type (ST) with one allele number per locus of a fixed schema.
//! The library loads the profile table ([`profiles`]), calls one allele per locus from
//! the hit records of a sample ([`alleles`]), compiles the profiles into a trie keyed by
//! allele number ([`trie`], [`typing::compile`]) and walks it along the calls
//! ([`typing::classify`]). What the trie is and what the walk reports is defined in
//! [`model`]; [`laws`] holds what is proved of loading, calling, compiling and walking.
//!
//! Both tables come as tab-separated text, which [`table`] hands to the `csv` crate;
//! [`text`] reads the fields. [`startup`] holds what a run decides before it types.

pub mod alleles;
pub mod error;
pub mod laws;
pub mod model;
pub mod profiles;
pub mod startup;
pub mod table;
pub mod text;
pub mod trie;
pub mod typing;
