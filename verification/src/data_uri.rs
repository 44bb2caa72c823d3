//! The picture that decorates the window, embedded as a `data:` URI.
use vstd::prelude::*;
use base64::Engine;
use crate::text::push_str;

verus! {

/// The symbol of the standard Base64 alphabet (RFC 4648) for a six-bit value.
pub open spec fn base64_symbol(v: int) -> char {
    if v < 26 {
        ('A' as int + v) as char
    } else if v < 52 {
        ('a' as int + v - 26) as char
    } else if v < 62 {
        ('0' as int + v - 52) as char
    } else if v == 62 {
        '+'
    } else {
        '/'
    }
}

/// Standard Base64 (RFC 4648 alphabet, with `=` padding): every three bytes
/// become four symbols of six bits each, and a last group of one or two bytes
/// is filled out with `=`.
pub open spec fn base64_standard(bytes: Seq<u8>) -> Seq<char>
    decreases bytes.len(),
{
    if bytes.len() == 0 {
        Seq::<char>::empty()
    } else if bytes.len() == 1 {
        let b0 = bytes[0] as int;
        seq![base64_symbol(b0 / 4), base64_symbol((b0 % 4) * 16), '=', '=']
    } else if bytes.len() == 2 {
        let b0 = bytes[0] as int;
        let b1 = bytes[1] as int;
        seq![
            base64_symbol(b0 / 4),
            base64_symbol((b0 % 4) * 16 + b1 / 16),
            base64_symbol((b1 % 16) * 4),
            '=',
        ]
    } else {
        let b0 = bytes[0] as int;
        let b1 = bytes[1] as int;
        let b2 = bytes[2] as int;
        seq![
            base64_symbol(b0 / 4),
            base64_symbol((b0 % 4) * 16 + b1 / 16),
            base64_symbol((b1 % 16) * 4 + b2 / 64),
            base64_symbol(b2 % 64),
        ] + base64_standard(bytes.skip(3))
    }
}

/// `base64::engine::general_purpose::STANDARD.encode`.  The contract claims
/// that the result is the standard Base64 text of the bytes, which is what
/// this engine (the standard alphabet, padding on) produces.  The crate panics
/// when the encoded length overflows `usize`, which the bound on the input
/// rules out.
#[verifier::external_body]
fn base64_encode(bytes: &[u8]) -> (r: String)
    requires
        bytes@.len() <= usize::MAX / 2,
    ensures
        r@ == base64_standard(bytes@),
{
    base64::engine::general_purpose::STANDARD.encode(bytes)
}

/// The `data:` URI of a PNG image whose Base64 text is `encoded`.
pub fn png_data_uri(encoded: &str) -> (r: String)
    ensures
        r@ == "data:image/png;base64,"@ + encoded@,
{
    let mut r = String::new();
    push_str(&mut r, "data:image/png;base64,");
    push_str(&mut r, encoded);
    assert(r@ =~= "data:image/png;base64,"@ + encoded@);
    r
}

/// A `data:` URI that holds a PNG image.
pub fn makise_data_uri(png: &[u8]) -> (r: String)
    requires
        png@.len() <= usize::MAX / 2,
    ensures
        r@ == "data:image/png;base64,"@ + base64_standard(png@),
{
    let encoded = base64_encode(png);
    png_data_uri(encoded.as_str())
}

} // verus!
