//! The client side of the protocol.
//!
//! A connected client encodes one request with
//! [`crate::common::encode_request`], writes it, reads back one
//! response, and turns it into a local result with the functions here:
//! a server-produced error message becomes a local `StringError`.  The
//! socket handling around these calls only shuttles bytes.

use crate::common::{GetResponse, RemoveResponse, SetResponse};
use crate::error::KvsError;
use vstd::prelude::*;

verus! {

/// The local outcome of a `set` request.
pub fn set_result(resp: SetResponse) -> (r: Result<(), KvsError>)
    ensures
        r is Ok <==> resp is Okay,
        resp matches SetResponse::Error(m) ==> (r matches Err(e) && e == KvsError::StringError(
            m,
        )),
{
    match resp {
        SetResponse::Okay => Ok(()),
        SetResponse::Error(m) => Err(KvsError::StringError(m)),
    }
}

/// The local outcome of a `get` request: the value, or `None` when the
/// key was not present.
pub fn get_result(resp: GetResponse) -> (r: Result<Option<String>, KvsError>)
    ensures
        r is Ok <==> resp is Okay,
        resp matches GetResponse::Okay(v) ==> (r matches Ok(w) && w == v),
        resp matches GetResponse::Error(m) ==> (r matches Err(e) && e == KvsError::StringError(
            m,
        )),
{
    match resp {
        GetResponse::Okay(v) => Ok(v),
        GetResponse::Error(m) => Err(KvsError::StringError(m)),
    }
}

/// The local outcome of a `remove` request.
pub fn remove_result(resp: RemoveResponse) -> (r: Result<(), KvsError>)
    ensures
        r is Ok <==> resp is Okay,
        resp matches RemoveResponse::Error(m) ==> (r matches Err(e) && e
            == KvsError::StringError(m)),
{
    match resp {
        RemoveResponse::Okay => Ok(()),
        RemoveResponse::Error(m) => Err(KvsError::StringError(m)),
    }
}

} // verus!
