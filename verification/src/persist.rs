//! From store values to file bytes and back.
//!
//! The bytes of a persisted store are the UTF-8 encoding of its serialized
//! text, passed through the confidentiality transform.  A missing file and a
//! zero-length file both load as the empty store; anything else must decode
//! and parse, or the load fails with the stage that broke.

use vstd::prelude::*;
use vstd::string::StrSliceExecFns;
use vstd::utf8::{decode_utf8, encode_scalar, encode_utf8, valid_utf8};

use crate::codec::{deserialize, lemma_store_round_trip, ser_store, serialize, spec_parse_store};
use crate::crypto::{decrypt_store, encrypt_store};
use crate::store::{LoadFailure, SaveFailure, Store, StoreError, StoreV};

verus! {

/// Relies on `String::from_utf8`: returns the string whose UTF-8 encoding is
/// the given bytes, or nothing when the bytes are not valid UTF-8.
#[verifier::external_body]
fn bytes_to_string(v: Vec<u8>) -> (r: Option<String>)
    ensures
        r matches Some(s) ==> v@ == encode_utf8(s@),
        r is None ==> !valid_utf8(v@),
{
    match String::from_utf8(v) {
        Ok(s) => Some(s),
        Err(_) => None,
    }
}

/// The serialized text of a store is never empty, so neither are its bytes.
pub proof fn lemma_file_bytes_nonempty(s: Seq<char>)
    requires
        s.len() > 0,
    ensures
        encode_utf8(s).len() > 0,
{
    assert(encode_utf8(s) == encode_scalar(s[0] as u32) + encode_utf8(s.drop_first()));
    assert(encode_scalar(s[0] as u32).len() >= 1);
}

/// Saving then loading gives the store back: the bytes a store serializes to
/// are non-empty valid UTF-8, and decoding and parsing them yields exactly
/// the original store value.
pub proof fn lemma_file_round_trip(v: StoreV)
    ensures
        encode_utf8(ser_store(v)).len() > 0,
        valid_utf8(encode_utf8(ser_store(v))),
        spec_parse_store(decode_utf8(encode_utf8(ser_store(v)))) == Some(v),
{
    vstd::utf8::encode_utf8_valid_utf8(ser_store(v));
    vstd::utf8::encode_utf8_decode_utf8(ser_store(v));
    lemma_store_round_trip(v);
    lemma_file_bytes_nonempty(ser_store(v));
}

impl Store {
    /// The bytes to persist for this store: its serialized text, UTF-8
    /// encoded, passed through the confidentiality transform.
    pub fn to_file_content(&self) -> (r: Result<Vec<u8>, StoreError>)
        ensures
            r is Ok,
            r matches Ok(b) ==> b@ == encode_utf8(ser_store(self@)) && b@.len() > 0,
    {
        let text = serialize(self);
        let bytes = text.as_str().as_bytes_vec();
        proof {
            lemma_file_bytes_nonempty(text@);
        }
        match encrypt_store(bytes.as_slice(), "") {
            Ok(b) => Ok(b),
            Err(_) => Err(StoreError::Save(SaveFailure::Encode)),
        }
    }

    /// Rebuild a store from what was found at its path: `None` for a missing
    /// file, otherwise the raw bytes read.
    ///
    /// A missing or zero-length file is the empty store, not an error.  Other
    /// bytes pass back through the confidentiality transform and must then be
    /// the serialized text of a well-formed store; a failure reports the
    /// stage that broke.
    pub fn from_file_content(content: Option<Vec<u8>>) -> (r: Result<Store, StoreError>)
        ensures
            r matches Ok(st) ==> st@.wf(),
            ({
                match content {
                    None => r is Ok && r->Ok_0@.entries.len() == 0 && r->Ok_0@.backups.len() == 0,
                    Some(b) => {
                        if b@.len() == 0 {
                            r is Ok && r->Ok_0@.entries.len() == 0 && r->Ok_0@.backups.len() == 0
                        } else if !valid_utf8(b@) {
                            r == Err::<Store, StoreError>(StoreError::Load(LoadFailure::Decode))
                        } else {
                            let parsed = spec_parse_store(decode_utf8(b@));
                            (r is Ok <==> (parsed is Some && parsed->Some_0.wf()))
                                && (r matches Ok(st) ==> parsed == Some(st@)) && (r is Err ==> r
                                == Err::<Store, StoreError>(StoreError::Load(
                                LoadFailure::Malformed,
                            )))
                        }
                    },
                }
            }),
    {
        match content {
            None => Ok(Store::default()),
            Some(blob) => {
                if blob.len() == 0 {
                    return Ok(Store::default());
                }
                match decrypt_store(blob.as_slice(), "") {
                    Err(_) => Err(StoreError::Load(LoadFailure::Decode)),
                    Ok(pt) => match bytes_to_string(pt) {
                        None => Err(StoreError::Load(LoadFailure::Decode)),
                        Some(text) => {
                            proof {
                                vstd::utf8::encode_utf8_valid_utf8(text@);
                                vstd::utf8::encode_utf8_decode_utf8(text@);
                            }
                            deserialize(text.as_str())
                        },
                    },
                }
            },
        }
    }
}

} // verus!
