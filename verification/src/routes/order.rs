//! Requests about the order of a directory.
use vstd::prelude::*;
use crate::routes::AuthorRequest;

verus! {

/// The body of a write of an order.
#[derive(Debug, Clone)]
pub struct WriteOrderRequest {
    pub author: AuthorRequest,
    /// The names of the directory's entries, in the order to show them in.
    pub order: Vec<String>,
    pub message: Option<String>,
}

/// The body of a removal of an order.
#[derive(Debug, Clone)]
pub struct DeleteOrderRequest {
    pub author: AuthorRequest,
    pub message: Option<String>,
}

} // verus!
