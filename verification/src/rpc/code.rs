//! The JSON-RPC codes this server returns. A tool that fails does not appear
//! here: that comes back as a result with `isError`, because the caller can act
//! on it and cannot act on a protocol failure.

use vstd::prelude::*;

verus! {

pub const PARSE_ERROR: i32 = -32700;

pub const INVALID_REQUEST: i32 = -32600;

pub const METHOD_NOT_FOUND: i32 = -32601;

pub const INVALID_PARAMS: i32 = -32602;

} // verus!
