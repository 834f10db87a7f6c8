//! The request: three comma-separated fields that give the order of the
//! surface, the mixing angle and the number of subdivisions.

use crate::number::{decimal_u32, float_literal, is_float_literal, parse_u32};
use crate::text::{field_views, split, split_fields, trim, trim_space};
use vstd::prelude::*;

verus! {

/// Why a request was turned down.
#[derive(Clone, Copy, Debug, PartialEq, Eq, Structural)]
pub enum RequestError {
    /// The bytes of the request are not UTF-8 text.
    InvalidEncoding,
    /// The request does not have exactly three fields.
    FieldCount,
    /// The first field is not an unsigned integer of 32 bits.
    InvalidOrder,
    /// The second field is not the literal of a real number.
    InvalidAlpha,
    /// The third field is not an unsigned integer of 32 bits.
    InvalidSubdivisions,
}

/// A request that was read successfully.
#[derive(Debug)]
pub struct Request {
    /// The order of the surface: it has `n * n` branches.
    pub n: u32,
    /// The literal of the mixing angle, as it stood in the request.
    pub alpha: Vec<u8>,
    /// How many steps the grid of each branch takes along each axis.
    pub subdivisions: u32,
}

/// What a request holds.
pub struct RequestData {
    /// The order of the surface.
    pub n: u32,
    /// The bytes of the literal of the mixing angle.
    pub alpha: Seq<u8>,
    /// The number of subdivisions of the grid.
    pub subdivisions: u32,
}

impl View for Request {
    type V = RequestData;

    open spec fn view(&self) -> RequestData {
        RequestData { n: self.n, alpha: self.alpha@, subdivisions: self.subdivisions }
    }
}

/// The fields of a request: the text without the white space around it,
/// cut at its commas. White space inside is part of the fields.
pub open spec fn request_fields(input: Seq<u8>) -> Seq<Seq<u8>> {
    split_fields(trim_space(input))
}

/// What a request says, or the first reason to turn it down. The checks
/// come in a fixed order: the encoding, the number of fields, then the
/// fields from left to right.
pub open spec fn read_request(input: Seq<u8>) -> Result<RequestData, RequestError> {
    if !vstd::utf8::valid_utf8(input) {
        Err(RequestError::InvalidEncoding)
    } else {
        let fields = request_fields(input);
        if fields.len() != 3 {
            Err(RequestError::FieldCount)
        } else if decimal_u32(fields[0]) is None {
            Err(RequestError::InvalidOrder)
        } else if !float_literal(fields[1]) {
            Err(RequestError::InvalidAlpha)
        } else if decimal_u32(fields[2]) is None {
            Err(RequestError::InvalidSubdivisions)
        } else {
            Ok(
                RequestData {
                    n: decimal_u32(fields[0]).unwrap(),
                    alpha: fields[1],
                    subdivisions: decimal_u32(fields[2]).unwrap(),
                },
            )
        }
    }
}

/// `std::str::from_utf8`, asked only whether it succeeds: it does exactly on
/// the byte strings that are well-formed UTF-8.
#[verifier::external_body]
fn is_utf8(input: &[u8]) -> (valid: bool)
    ensures
        valid == vstd::utf8::valid_utf8(input@),
{
    std::str::from_utf8(input).is_ok()
}

/// Reads a request.
pub fn parse_request(input: &[u8]) -> (outcome: Result<Request, RequestError>)
    ensures
        match outcome {
            Ok(request) => read_request(input@) == Ok::<RequestData, RequestError>(request@),
            Err(reason) => read_request(input@) == Err::<RequestData, RequestError>(reason),
        },
{
    if !is_utf8(input) {
        return Err(RequestError::InvalidEncoding);
    }
    let mut fields = split(trim(input));
    assert(field_views(fields@) == request_fields(input@));
    if fields.len() != 3 {
        return Err(RequestError::FieldCount);
    }
    assert(field_views(fields@)[0] == fields@[0]@);
    assert(field_views(fields@)[1] == fields@[1]@);
    assert(field_views(fields@)[2] == fields@[2]@);
    let n = match parse_u32(fields[0].as_slice()) {
        Some(n) => n,
        None => {
            return Err(RequestError::InvalidOrder);
        },
    };
    if !is_float_literal(fields[1].as_slice()) {
        return Err(RequestError::InvalidAlpha);
    }
    let subdivisions = match parse_u32(fields[2].as_slice()) {
        Some(subdivisions) => subdivisions,
        None => {
            return Err(RequestError::InvalidSubdivisions);
        },
    };
    let alpha = fields.remove(1);
    Ok(Request { n, alpha, subdivisions })
}

impl RequestError {
    /// The text that reports this error to the caller.
    pub open spec fn text(self) -> Seq<char> {
        match self {
            RequestError::InvalidEncoding => "Error: invalid UTF-8"@,
            RequestError::FieldCount => "Error: expected 3 parameters (n,alpha,subdivisions)"@,
            RequestError::InvalidOrder => "Error: invalid n"@,
            RequestError::InvalidAlpha => "Error: invalid alpha"@,
            RequestError::InvalidSubdivisions => "Error: invalid subdivisions"@,
        }
    }

    /// Writes the text that reports this error.
    pub fn message(&self) -> (text: String)
        ensures
            text@ == self.text(),
    {
        match self {
            RequestError::InvalidEncoding => "Error: invalid UTF-8".to_owned(),
            RequestError::FieldCount => {
                "Error: expected 3 parameters (n,alpha,subdivisions)".to_owned()
            },
            RequestError::InvalidOrder => "Error: invalid n".to_owned(),
            RequestError::InvalidAlpha => "Error: invalid alpha".to_owned(),
            RequestError::InvalidSubdivisions => "Error: invalid subdivisions".to_owned(),
        }
    }
}

/// Reading depends on the bytes of the request and on nothing else: two
/// requests of the same length with the same bytes are read alike, down to
/// the reason for which they are turned down.
pub proof fn lemma_same_bytes_same_reading(first: Seq<u8>, second: Seq<u8>)
    requires
        first.len() == second.len(),
        forall|i: int| 0 <= i < first.len() ==> first[i] == second[i],
    ensures
        read_request(first) == read_request(second),
{
    assert(first =~= second);
}

/// The words that every error report starts with.
pub open spec fn error_prefix() -> Seq<char> {
    "Error: "@
}

/// Every error report starts with the same words and goes on after them.
pub proof fn lemma_error_prefix(reason: RequestError)
    ensures
        reason.text().len() > error_prefix().len(),
        reason.text().take(error_prefix().len() as int) == error_prefix(),
{
    reveal_strlit("Error: ");
    reveal_strlit("Error: invalid UTF-8");
    reveal_strlit("Error: expected 3 parameters (n,alpha,subdivisions)");
    reveal_strlit("Error: invalid n");
    reveal_strlit("Error: invalid alpha");
    reveal_strlit("Error: invalid subdivisions");
}

} // verus!
