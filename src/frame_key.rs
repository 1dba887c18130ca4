use vstd::prelude::*;
use vstd::utf8::encode_utf8;

verus! {

/// The varint that postcard writes for `n`: seven bits per byte, low bits first,
/// the high bit set on every byte but the last.
pub open spec fn varint(n: nat) -> Seq<u8>
    decreases n,
{
    if n < 128 {
        seq![n as u8]
    } else {
        seq![(n % 128 + 128) as u8] + varint(n / 128)
    }
}

/// The bytes that postcard writes for the string `s`: the length of its UTF-8
/// encoding as a varint, then that encoding.
pub open spec fn key_frame(s: Seq<char>) -> Seq<u8> {
    varint(encode_utf8(s).len()) + encode_utf8(s)
}

/// Relies on `postcard::to_allocvec` for a `String`: it writes the UTF-8 length as
/// a varint and then the UTF-8 bytes, and writing into a `Vec` never fails.
#[verifier::external_body]
pub(crate) fn encode_key(key: &String) -> (r: Option<Vec<u8>>)
    ensures
        r is Some,
        r->Some_0@ == key_frame(key@),
{
    postcard::to_allocvec(key).ok()
}

/// Relies on `postcard::from_bytes` for a `String`: the bytes that
/// `postcard::to_allocvec` wrote for a string read back as that string.
#[verifier::external_body]
pub(crate) fn decode_key(b: &[u8]) -> (r: Option<String>)
    ensures
        forall|s: Seq<char>| b@ == key_frame(s) ==> (r is Some && r->Some_0@ == s),
{
    postcard::from_bytes(b).ok()
}

} // verus!
