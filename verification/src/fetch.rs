//! What is computed around a request that the host sends for a program:
//! the bytes of the request's headers, and the answer made of what the
//! host left behind.
//!
//! The request itself is the host's work and is not here. The caller
//! hands the host the bytes that [`encode_headers`] gives, and hands
//! [`fetch_result`] whether the host said that the request failed and
//! what it left in its register.
use crate::codec::name_bytes;
use crate::codec::name_ok;
use crate::codec::write_name;
use crate::codec::write_u32;
use vstd::bytes::spec_u32_to_le_bytes;
use vstd::prelude::*;
use vstd::utf8::decode_utf8;
use vstd::utf8::valid_utf8;

verus! {
/// The bytes of a list of headers, in the layout of Borsh: header by
/// header, the name and then the value, each as the length of its UTF-8
/// bytes and then those bytes.
pub open spec fn pairs_bytes(headers: Seq<(&str, &str)>) -> Seq<u8>
    decreases headers.len(),
{
    if headers.len() == 0 {
        Seq::<u8>::empty()
    } else {
        pairs_bytes(headers.drop_last()) + name_bytes(headers.last().0@) + name_bytes(
            headers.last().1@,
        )
    }
}

/// The bytes of the headers of a request: their number in four bytes,
/// least significant first, and then the headers.
pub open spec fn headers_bytes(headers: Seq<(&str, &str)>) -> Seq<u8> {
    spec_u32_to_le_bytes(headers.len() as u32) + pairs_bytes(headers)
}

/// The headers can be written: four bytes can count them, and the bytes
/// of each name and each value.
pub open spec fn headers_fit(headers: Seq<(&str, &str)>) -> bool {
    &&& headers.len() <= u32::MAX
    &&& forall|i: int|
        0 <= i < headers.len() ==> name_ok((#[trigger] headers[i]).0@) && name_ok(headers[i].1@)
}

/// The bytes of the headers of a request, or `None` for headers that
/// cannot be written.
pub fn encode_headers(headers: &[(&str, &str)]) -> (out: Option<Vec<u8>>)
    ensures
        out is Some <==> headers_fit(headers@),
        out matches Some(bytes) ==> bytes@ == headers_bytes(headers@),
{
    let n = headers.len();
    if n > u32::MAX as usize {
        return None;
    }
    let mut out: Vec<u8> = match write_u32(n as u32) {
        Some(bytes) => bytes,
        None => {
            return None;
        },
    };
    let mut i: usize = 0;
    while i < n
        invariant
            i <= n,
            n == headers@.len(),
            n <= u32::MAX,
            forall|k: int|
                0 <= k < i ==> name_ok((#[trigger] headers@[k]).0@) && name_ok(headers@[k].1@),
            out@ == spec_u32_to_le_bytes(n as u32) + pairs_bytes(headers@.take(i as int)),
        decreases n - i,
    {
        let (name, value) = headers[i];
        match write_name(name) {
            Some(bytes) => out.extend_from_slice(bytes.as_slice()),
            None => {
                return None;
            },
        }
        match write_name(value) {
            Some(bytes) => out.extend_from_slice(bytes.as_slice()),
            None => {
                return None;
            },
        }
        proof {
            let next = headers@.take(i + 1);
            assert(next.drop_last() =~= headers@.take(i as int));
        }
        i = i + 1;
    }
    assert(headers@.take(n as int) =~= headers@);
    Some(out)
}

/// Turns bytes into the string that they are the UTF-8 of, by
/// `String::from_utf8`, which refuses bytes that are not UTF-8.
#[verifier::external_body]
fn string_from_utf8(bytes: Vec<u8>) -> (out: Option<String>)
    ensures
        out is Some <==> valid_utf8(bytes@),
        out matches Some(text) ==> text@ == decode_utf8(bytes@),
{
    String::from_utf8(bytes).ok()
}

/// Why a request gave no data.
#[derive(Debug, PartialEq, Eq)]
pub enum FetchError {
    /// The request failed, and the host left this message.
    Failed(String),
    /// The request failed, and what the host left is not UTF-8.
    InvalidMessage,
}

/// The answer to a request: the data that the host left where the
/// request went through, else the message that it left.
pub fn fetch_result(failed: bool, data: Vec<u8>) -> (out: Result<Vec<u8>, FetchError>)
    ensures
        !failed ==> out == Ok::<Vec<u8>, FetchError>(data),
        failed && valid_utf8(data@) ==> (out matches Err(FetchError::Failed(message))
            && message@ == decode_utf8(data@)),
        failed && !valid_utf8(data@) ==> out == Err::<Vec<u8>, FetchError>(
            FetchError::InvalidMessage,
        ),
{
    if !failed {
        return Ok(data);
    }
    match string_from_utf8(data) {
        Some(message) => Err(FetchError::Failed(message)),
        None => Err(FetchError::InvalidMessage),
    }
}
} // verus!
