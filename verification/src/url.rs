//! The combination endpoint's URL: percent-encoding of the two names and
//! the query string around them.
//!
//! A name may hold any character — `&`, `=`, a space, an emoji — so each
//! name is percent-encoded before it is interpolated as a query parameter
//! value: unreserved bytes stand as themselves, every other byte of the
//! name's UTF-8 form becomes `%` and two upper-case hex digits.

use vstd::prelude::*;
use vstd::string::*;

verus! {

/// Relies on `String::push`: it appends exactly the given character.
pub assume_specification[ String::push ](s: &mut String, ch: char)
    ensures
        final(s)@ == old(s)@.push(ch),
;

/// A byte a URL query component leaves unencoded: the unreserved bytes of
/// a URL (letters, digits, `-`, `.`, `_`, `~`).
pub open spec fn is_url_unreserved(b: u8) -> bool {
    (0x41 <= b <= 0x5a) || (0x61 <= b <= 0x7a) || (0x30 <= b <= 0x39) || b == 0x2d || b == 0x2e
        || b == 0x5f || b == 0x7e
}

/// The upper-case hexadecimal digit of a value below sixteen.
pub open spec fn spec_hex_char(n: u8) -> char
    recommends
        n < 16,
{
    if n < 10 {
        (((0x30 + n) as u8) as char)
    } else {
        (((0x37 + n) as u8) as char)
    }
}

/// The percent-encoding of a byte sequence.
pub open spec fn percent_encode_bytes(bs: Seq<u8>) -> Seq<char>
    decreases bs.len(),
{
    if bs.len() == 0 {
        Seq::empty()
    } else {
        let b = bs.last();
        percent_encode_bytes(bs.drop_last()) + (if is_url_unreserved(b) {
            seq![b as char]
        } else {
            seq!['%', spec_hex_char(b / 16), spec_hex_char(b % 16)]
        })
    }
}

/// The upper-case hexadecimal digit of a value below sixteen.
fn hex_char(n: u8) -> (c: char)
    requires
        n < 16,
    ensures
        c == spec_hex_char(n),
{
    if n < 10 {
        (0x30 + n) as char
    } else {
        (0x37 + n) as char
    }
}

/// Percent-encodes a name for use as a URL query parameter value.
pub fn percent_encode(s: &str) -> (r: String)
    ensures
        r@ == percent_encode_bytes(s.spec_bytes()),
{
    let bytes: &[u8] = s.as_bytes();
    let n: usize = bytes.len();
    let mut out = String::new();
    let mut i: usize = 0;
    proof {
        assert(bytes@.take(0) =~= Seq::<u8>::empty());
    }
    while i < n
        invariant
            i <= n,
            n == bytes@.len(),
            bytes@ == s.spec_bytes(),
            out@ == percent_encode_bytes(bytes@.take(i as int)),
        decreases n - i,
    {
        let b = bytes[i];
        if (b >= 0x41 && b <= 0x5a) || (b >= 0x61 && b <= 0x7a) || (b >= 0x30 && b <= 0x39) || b
            == 0x2d || b == 0x2e || b == 0x5f || b == 0x7e {
            out.push(b as char);
        } else {
            out.push('%');
            out.push(hex_char(b / 16));
            out.push(hex_char(b % 16));
        }
        proof {
            assert(bytes@.take(i as int + 1).drop_last() =~= bytes@.take(i as int));
            assert(bytes@.take(i as int + 1).last() == bytes@[i as int]);
            assert(out@ =~= percent_encode_bytes(bytes@.take(i as int + 1)));
        }
        i = i + 1;
    }
    proof {
        assert(bytes@.take(n as int) =~= bytes@);
    }
    out
}

/// Builds the combination endpoint URL for a pair of names, in draw order,
/// with each name percent-encoded as a query parameter value.
pub fn pair_url(first: &str, second: &str) -> (r: String)
    ensures
        r@ == "https://neal.fun/api/infinite-craft/pair?first="@ + percent_encode_bytes(
            first.spec_bytes(),
        ) + "&second="@ + percent_encode_bytes(second.spec_bytes()),
{
    let mut url = String::from_str("https://neal.fun/api/infinite-craft/pair?first=");
    let first_encoded = percent_encode(first);
    url.append(first_encoded.as_str());
    url.append("&second=");
    let second_encoded = percent_encode(second);
    url.append(second_encoded.as_str());
    url
}

} // verus!
