//! The client's pure half: building request messages and reading responses.
//!
//! Connecting, sending and receiving stay with the caller; this module only
//! turns operations into wire messages and response buffers into text.

use vstd::prelude::*;
use vstd::utf8::*;
use vstd::string::StringExecFns;
use vstd::slice::slice_to_vec;
use crate::codec::bytes_to_string;
use crate::error::KvsError;
use crate::server::split_fields;
use crate::server::split_fields_spec;

verus! {

/// Builds requests and reads responses for the wire protocol.
pub struct KvsClient {}

impl KvsClient {
    /// The first newline-delimited field of a server response, decoded; a
    /// field that is not UTF-8 is refused.
    pub fn parse_response(buffer: &[u8]) -> (r: Result<String, KvsError>)
        ensures
            match r {
                Ok(s) => valid_utf8(split_fields_spec(buffer@)[0]) && s@ == decode_utf8(
                    split_fields_spec(buffer@)[0],
                ),
                Err(e) => e == KvsError::ProtocolError && !valid_utf8(
                    split_fields_spec(buffer@)[0],
                ),
            },
    {
        let fields = split_fields(buffer);
        proof {
            assert(fields.deep_view()[0] == fields@[0]@);
        }
        match bytes_to_string(slice_to_vec(fields[0].as_slice())) {
            Some(s) => Ok(s),
            None => Err(KvsError::ProtocolError),
        }
    }

    /// The wire message that assigns `value` to `key`.
    pub fn set_message(key: &String, value: &String) -> (r: String)
        ensures
            r@ == "SET\n"@ + key@ + "\n"@ + value@ + "\n"@,
    {
        String::from_str("SET\n").concat(key.as_str()).concat("\n").concat(
            value.as_str(),
        ).concat("\n")
    }

    /// The wire message that reads `key`.
    pub fn get_message(key: &String) -> (r: String)
        ensures
            r@ == "GET\n"@ + key@ + "\n"@,
    {
        String::from_str("GET\n").concat(key.as_str()).concat("\n")
    }

    /// The wire message that removes `key`.
    pub fn rm_message(key: &String) -> (r: String)
        ensures
            r@ == "RM\n"@ + key@ + "\n"@,
    {
        String::from_str("RM\n").concat(key.as_str()).concat("\n")
    }
}

} // verus!
