//! Core logic of a wikilink note collection: a scanner that extracts
//! `[[Target]]` link occurrences from byte content, a resolver that matches
//! case-insensitive node names to backing files, and the forward-link /
//! back-link graph queries built on both.

use vstd::prelude::*;

pub mod bytes;
pub mod graph;
pub mod laws;
pub mod paths;
pub mod resolve;
pub mod scan;
pub mod stream;

verus! {

} // verus!
