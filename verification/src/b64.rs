use vstd::prelude::*;

verus! {

/// What base64::encode returns for the given bytes, as the bytes of the
/// resulting ASCII string: deterministic in the input alone.
pub uninterp spec fn b64_of(data: Seq<u8>) -> Seq<u8>;

/// What base64::decode returns for the given bytes: the decoded bytes on
/// well-formed input and nothing otherwise, deterministic in the input
/// alone.
pub uninterp spec fn b64_dec_of(data: Seq<u8>) -> Option<Seq<u8>>;

#[verifier::external_type_specification]
#[verifier::external_body]
pub struct ExDecodeError(base64::DecodeError);

/// Relies on base64::encode with the standard alphabet; base64::decode
/// inverts it.
#[verifier::external_body]
pub(crate) fn b64_encode(data: &[u8]) -> (r: Vec<u8>)
    ensures
        r@ == b64_of(data@),
        b64_dec_of(r@) == Some(data@),
{
    base64::encode(data).into_bytes()
}

/// Relies on base64::decode: deterministic in its input, failing exactly on
/// input that is not well-formed base64.
#[verifier::external_body]
pub(crate) fn b64_decode(data: &[u8]) -> (r: Result<Vec<u8>, base64::DecodeError>)
    ensures
        r matches Ok(d) ==> b64_dec_of(data@) == Some(d@),
        r matches Err(_) ==> b64_dec_of(data@) is None,
{
    base64::decode(data)
}

} // verus!
