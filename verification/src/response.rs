//! The response envelope and page container that every endpoint hands
//! back; the transport layer serializes them.

use vstd::prelude::*;

verus! {

/// The uniform response envelope.
#[derive(Debug)]
pub struct ApiResponse<T> {
    pub code: String,
    pub data: T,
    pub msg: String,
    pub success: bool,
    pub timestamp: String,
}

/// A page of results with the total row count.
#[derive(Debug)]
pub struct PageResult<T> {
    pub list: Vec<T>,
    pub total: i64,
}

} // verus!
