//! What the server answers to one request.

use vstd::prelude::*;
use crate::engine::Backend;
use crate::error::DbError;
use crate::store::{lookup, text_of};

verus! {

/// A request that a client sends.
#[derive(Debug)]
pub enum Request {
    /// Set a key to a value.
    SetKey { key: String, value: String },
    /// Look a key up.
    Get { key: String },
    /// Remove a key.
    Rm { key: String },
}

/// The server's answer: whether the request succeeded, and a value for `Get`
/// or a reason.
#[derive(Debug)]
pub struct Response {
    /// The request succeeded.
    pub success: bool,
    /// The value found, or `Key not found`.
    pub value: Option<String>,
}

/// The text that answers a request for a key that the store does not hold.
pub fn key_not_found() -> (s: String)
    ensures
        s@ == "Key not found"@,
{
    String::from_str("Key not found")
}

/// What a successful `Get` answers: the value, or `Key not found`.
pub open spec fn get_answer(found: Option<Seq<char>>) -> Seq<char> {
    match found {
        Some(v) => v,
        None => "Key not found"@,
    }
}

/// The response to a `Set`: success exactly when the engine stored the value.
pub fn set_response(result: Result<(), DbError>) -> (r: Response)
    ensures
        r.success == result is Ok,
        r.value is None,
{
    match result {
        Ok(()) => Response { success: true, value: None },
        Err(_) => Response { success: false, value: None },
    }
}

/// The response to a `Get`: the value found, or `Key not found`; no value
/// where the engine failed.
pub fn get_response(result: Result<Option<String>, DbError>) -> (r: Response)
    ensures
        r.success == result is Ok,
        match result {
            Ok(o) => text_of(r.value) == Some(get_answer(text_of(o))),
            Err(_) => r.value is None,
        },
{
    match result {
        Ok(Some(v)) => Response { success: true, value: Some(v) },
        Ok(None) => Response { success: true, value: Some(key_not_found()) },
        Err(_) => Response { success: false, value: None },
    }
}

/// The response to a `Remove`: success exactly when the engine removed the
/// key; `Key not found` where it did not hold it; no reason for other failures.
pub fn remove_response(result: Result<(), DbError>) -> (r: Response)
    ensures
        r.success == result is Ok,
        match result {
            Ok(()) => r.value is None,
            Err(DbError::KeyNotFound) => text_of(r.value) == Some("Key not found"@),
            Err(_) => r.value is None,
        },
{
    match result {
        Ok(()) => Response { success: true, value: None },
        Err(DbError::KeyNotFound) => Response { success: false, value: Some(key_not_found()) },
        Err(_) => Response { success: false, value: None },
    }
}

/// Runs one request against the backend and builds the response.
pub fn handle_request(backend: &mut Backend, request: Request) -> (r: Response)
    requires
        old(backend).valid_spec(),
    ensures
        final(backend).valid_spec(),
        (*final(backend)) is Kvs <==> (*old(backend)) is Kvs,
        match request {
            Request::SetKey { key, value } => {
                &&& r.success ==> final(backend).entries_spec()
                    == old(backend).entries_spec().insert(key@, value@)
                &&& r.value is None
                &&& (*old(backend)) is Kvs ==> r.success
            },
            Request::Get { key } => {
                &&& final(backend).entries_spec() == old(backend).entries_spec()
                &&& r.success ==> text_of(r.value)
                    == Some(get_answer(lookup(old(backend).entries_spec(), key@)))
                &&& !r.success ==> r.value is None
                &&& (*old(backend)) is Kvs ==> r.success
            },
            Request::Rm { key } => {
                &&& r.success ==> old(backend).entries_spec().contains_key(key@)
                    && final(backend).entries_spec() == old(backend).entries_spec().remove(key@)
                    && r.value is None
                &&& (!r.success && r.value is Some) ==> !old(backend).entries_spec().contains_key(key@)
                    && final(backend).entries_spec() == old(backend).entries_spec()
                    && text_of(r.value) == Some("Key not found"@)
                &&& (*old(backend)) is Kvs ==> (r.success <==> old(backend).entries_spec().contains_key(key@))
                &&& (*old(backend)) is Kvs ==> r.success || r.value is Some
            },
        },
{
    match request {
        Request::SetKey { key, value } => set_response(backend.set(key, value)),
        Request::Get { key } => {
            get_response(backend.get(key))
        },
        Request::Rm { key } => remove_response(backend.remove(key)),
    }
}

} // verus!
