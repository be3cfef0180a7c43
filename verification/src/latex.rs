//! The `latex` command: the link to a rendered formula.

use vstd::prelude::*;
use crate::text::{append_chars, chars_of, push_str_chars, string_of};

verus! {

/// Bytes that percent-encoding keeps as they are: ASCII letters and digits,
/// `-`, `.`, `_` and `~`.
pub open spec fn is_unreserved(b: u8) -> bool {
    ||| 48 <= b <= 57
    ||| 65 <= b <= 90
    ||| 97 <= b <= 122
    ||| b == 45
    ||| b == 46
    ||| b == 95
    ||| b == 126
}

/// The uppercase hexadecimal digit for `d` (`d < 16`).
pub open spec fn hex_digit(d: u8) -> char {
    if d < 10 {
        (48 + d) as char
    } else {
        (55 + d) as char
    }
}

/// Percent-encoding of a byte sequence: unreserved bytes stay, every other
/// byte becomes `%` and its two uppercase hexadecimal digits.
pub open spec fn percent_encode(bytes: Seq<u8>) -> Seq<char>
    decreases bytes.len(),
{
    if bytes.len() == 0 {
        seq![]
    } else {
        let b = bytes.last();
        percent_encode(bytes.drop_last()) + if is_unreserved(b) {
            seq![b as char]
        } else {
            seq!['%', hex_digit(b / 16), hex_digit(b % 16)]
        }
    }
}

/// `urlencoding::encode` (made an owned `String`): the contract claims that
/// the result is `percent_encode` of the UTF-8 bytes of `s`, as the crate's
/// documentation and source describe it.
#[verifier::external_body]
fn url_encode(s: &str) -> (r: String)
    ensures
        r@ == percent_encode(vstd::utf8::encode_utf8(s@)),
{
    urlencoding::encode(s).into_owned()
}

/// The address of the renderer, up to the formula.
pub open spec fn latex_base() -> Seq<char> {
    "https://latex.codecogs.com/png.latex?\\dpi{250}\\bg{white}"@
}

/// The link to the picture of the formula `args`: the renderer's address
/// with the formula percent-encoded after it.
pub fn latex_url(args: &str) -> (r: String)
    ensures
        r@ == latex_base() + percent_encode(vstd::utf8::encode_utf8(args@)),
{
    let mut out: Vec<char> = Vec::new();
    push_str_chars(&mut out, "https://latex.codecogs.com/png.latex?\\dpi{250}\\bg{white}");
    let enc = url_encode(args);
    let e = chars_of(enc.as_str());
    append_chars(&mut out, &e);
    string_of(&out)
}

} // verus!
