//! The confidentiality transform applied to the serialized store before it is
//! written to disk, and undone after the file is read back.
//!
//! The former encryption layer has been reduced to an identity pass-through:
//! both directions copy their input unchanged.  The fallible interface shape
//! (a `Result`, and a password parameter that is currently ignored) is kept so
//! that a real transform can be reinstated without changing any call site.

use vstd::prelude::*;
use vstd::slice::slice_to_vec;

verus! {

/// Encode the serialized store for persistence.  Currently the identity
/// transform: the returned bytes equal the input and the password is ignored.
pub fn encrypt_store(plaintext: &[u8], _password: &str) -> (r: Result<Vec<u8>, ()>)
    ensures
        r is Ok,
        r matches Ok(blob) ==> blob@ == plaintext@,
{
    Ok(slice_to_vec(plaintext))
}

/// Decode a persisted blob back into the serialized store.  Currently the
/// identity transform: the returned bytes equal the input and the password is
/// ignored.
pub fn decrypt_store(blob: &[u8], _password: &str) -> (r: Result<Vec<u8>, ()>)
    ensures
        r is Ok,
        r matches Ok(plaintext) ==> plaintext@ == blob@,
{
    Ok(slice_to_vec(blob))
}

} // verus!
