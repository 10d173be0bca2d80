//! A simple HTTP server's request logic: percent-decoding of request paths,
//! directory listings in a deterministic order with a link to the parent,
//! and the dispatch of a request to an asset, a file or a listing.

use vstd::prelude::*;

pub mod cli;
pub mod decode;
pub mod listing;
pub mod order;
pub mod paths;
pub mod routes;

verus! {

} // verus!
