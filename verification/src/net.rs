//! A parsed resource address, kept as plain parts.  Nothing here performs
//! any network work; the type only names where a document came from.

use vstd::prelude::*;

verus! {

/// The parts of a resource address.
#[derive(Debug, Clone, PartialEq)]
pub struct URL {
    pub scheme: String,
    pub host: String,
    pub port: u16,
    pub path: String,
    pub query: String,
    pub fragment: String,
}

} // verus!
