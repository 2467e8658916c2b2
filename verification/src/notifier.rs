//! Notification helpers: masking push endpoints, percent-encoding and map links.
use vstd::prelude::*;
use vstd::utf8::{decode_utf8, encode_utf8, is_char_boundary};
use vstd::string::StringSliceAdditionalSpecFns;
use crate::text::{chars_of, owned, push_char, rfind, rfind_char, slice_chars, string_of, trim, trim_chars};

verus! {

broadcast use {
    vstd::utf8::encode_utf8_valid_utf8,
    vstd::utf8::encode_utf8_decode_utf8,
    vstd::utf8::is_char_boundary_iff_not_is_continuation_byte,
};

/// The characters encoded by bytes `a..b` of the text.
pub open spec fn byte_piece(s: Seq<char>, a: int, b: int) -> Seq<char> {
    decode_utf8(encode_utf8(s).subrange(a, b))
}

/// The part of a URL after its last `/`.
pub open spec fn url_token(u: Seq<char>) -> Seq<char> {
    match rfind(u, '/') {
        Some(p) => u.skip(p + 1),
        None => seq![],
    }
}

/// A token longer than 6 bytes must split at its 3rd and 3rd-to-last byte (else slicing panics).
pub open spec fn mask_splittable(u: Seq<char>) -> bool {
    let tb = encode_utf8(url_token(u));
    tb.len() > 6 ==> is_char_boundary(tb, 3) && is_char_boundary(tb, tb.len() - 3)
}

/// The URL with the token after its last `/` shortened to its first and last
/// three bytes (`***` when the token has at most six bytes; just `***` without a `/`).
pub open spec fn spec_mask_url(u: Seq<char>) -> Seq<char> {
    match rfind(u, '/') {
        Some(p) => {
            let tok = u.skip(p + 1);
            let n = encode_utf8(tok).len() as int;
            if n > 6 {
                u.subrange(0, p + 1) + byte_piece(tok, 0, 3) + seq!['.', '.', '.'] + byte_piece(
                    tok,
                    n - 3,
                    n,
                )
            } else {
                u.subrange(0, p + 1) + seq!['*', '*', '*']
            }
        },
        None => seq!['*', '*', '*'],
    }
}

/// Masks the secret part of a push URL for logging.
pub fn mask_url(url: &str) -> (r: String)
    requires
        mask_splittable(url@),
    ensures
        r@ == spec_mask_url(url@),
{
    let cs = chars_of(url);
    proof {
        crate::text::lemma_rfind(url@, '/');
    }
    match rfind_char(cs.as_slice(), '/') {
        Some(pos) => {
            proof {
                crate::text::lemma_rfind(cs@, '/');
            }
            assert(rfind(cs@, '/') == Some(pos as int));
            let len = cs.len();
            assert(pos < len);
            let head = slice_chars(cs.as_slice(), 0, pos + 1);
            let tok_chars = slice_chars(cs.as_slice(), pos + 1, cs.len());
            let tok = string_of(tok_chars.as_slice());
            assert(tok@ == url@.skip(pos + 1));
            let tb = tok.as_str().as_bytes();
            let n = tb.len();
            let mut r = string_of(head.as_slice());
            if n > 6 {
                let ghost b = encode_utf8(tok@);
                let (a, rest) = tok.as_str().split_at(3);
                proof {
                    assert(rest.spec_bytes() == b.subrange(3, n as int));
                    assert(rest.spec_bytes()[n - 6] == b[n - 3]);
                    vstd::utf8::is_char_boundary_iff_not_is_continuation_byte(b, n - 3);
                    vstd::utf8::is_char_boundary_iff_not_is_continuation_byte(
                        rest.spec_bytes(),
                        n - 6,
                    );
                }
                let (_mid, z) = rest.split_at(n - 6);
                proof {
                    assert(z.spec_bytes() =~= b.subrange(n - 3, n as int));
                    assert(decode_utf8(encode_utf8(a@)) == a@);
                    assert(decode_utf8(encode_utf8(z@)) == z@);
                }
                r.append(a);
                push_char(&mut r, '.');
                push_char(&mut r, '.');
                push_char(&mut r, '.');
                r.append(z);
                assert(r@ =~= spec_mask_url(url@));
                r
            } else {
                push_char(&mut r, '*');
                push_char(&mut r, '*');
                push_char(&mut r, '*');
                assert(r@ =~= spec_mask_url(url@));
                r
            }
        },
        None => {
            let mut r = String::new();
            push_char(&mut r, '*');
            push_char(&mut r, '*');
            push_char(&mut r, '*');
            assert(r@ =~= spec_mask_url(url@));
            r
        },
    }
}

/// Bytes that percent-encoding leaves as they are (RFC 3986 unreserved).
pub open spec fn unreserved(x: u8) -> bool {
    (0x41 <= x <= 0x5A) || (0x61 <= x <= 0x7A) || (0x30 <= x <= 0x39) || x == 0x2D || x == 0x5F
        || x == 0x2E || x == 0x7E
}

/// Upper-case hexadecimal digit for `d < 16`.
pub open spec fn hex_digit(d: int) -> char {
    seq!['0', '1', '2', '3', '4', '5', '6', '7', '8', '9', 'A', 'B', 'C', 'D', 'E', 'F'][d]
}

/// The encoding of one byte.
pub open spec fn encode_byte(x: u8) -> Seq<char> {
    if unreserved(x) {
        seq![x as char]
    } else {
        seq!['%', hex_digit(x as int / 16), hex_digit(x as int % 16)]
    }
}

/// Percent-encoding of a byte sequence.
pub open spec fn percent_encode(b: Seq<u8>) -> Seq<char>
    decreases b.len(),
{
    if b.len() == 0 {
        seq![]
    } else {
        percent_encode(b.drop_last()) + encode_byte(b.last())
    }
}

fn hex_char(d: u8) -> (c: char)
    requires
        d < 16,
    ensures
        c == hex_digit(d as int),
{
    match d {
        0 => '0',
        1 => '1',
        2 => '2',
        3 => '3',
        4 => '4',
        5 => '5',
        6 => '6',
        7 => '7',
        8 => '8',
        9 => '9',
        10 => 'A',
        11 => 'B',
        12 => 'C',
        13 => 'D',
        14 => 'E',
        _ => 'F',
    }
}

/// Percent-encodes the UTF-8 bytes of `s`, leaving unreserved characters as they are.
pub fn urlenc(s: &str) -> (r: String)
    ensures
        r@ == percent_encode(encode_utf8(s@)),
{
    let b = s.as_bytes();
    let mut r = String::new();
    let mut i: usize = 0;
    while i < b.len()
        invariant
            i <= b@.len(),
            b@ == encode_utf8(s@),
            r@ == percent_encode(b@.subrange(0, i as int)),
        decreases b.len() - i,
    {
        let c = b[i];
        let ghost before = r@;
        if (0x41 <= c && c <= 0x5A) || (0x61 <= c && c <= 0x7A) || (0x30 <= c && c <= 0x39) || c
            == 0x2D || c == 0x5F || c == 0x2E || c == 0x7E {
            push_char(&mut r, c as char);
        } else {
            push_char(&mut r, '%');
            push_char(&mut r, hex_char(c / 16));
            push_char(&mut r, hex_char(c % 16));
        }
        proof {
            assert(b@.subrange(0, i + 1 as int).drop_last() =~= b@.subrange(0, i as int));
            assert(b@.subrange(0, i + 1 as int).last() == c);
            assert(r@ =~= before + encode_byte(c));
        }
        i += 1;
    }
    assert(b@.subrange(0, b@.len() as int) =~= b@);
    r
}

/// The search text for a branch: `香港 {address} {name}`, trimmed.
pub open spec fn map_query(name: Seq<char>, address_cn: Seq<char>) -> Seq<char> {
    trim("香港 "@ + address_cn + " "@ + name)
}

/// Google and Bing map-search links for a branch.
pub open spec fn spec_map_links(name: Seq<char>, address_cn: Seq<char>) -> (Seq<char>, Seq<char>) {
    let q = percent_encode(encode_utf8(map_query(name, address_cn)));
    (
        "https://www.google.com/maps/search/?api=1&query="@ + q,
        "https://www.bing.com/maps?q="@ + q,
    )
}

/// Builds map-search links from "Hong Kong + address + branch name".
pub fn build_map_links(name: &str, address_cn: &str) -> (r: (String, String))
    ensures
        (r.0@, r.1@) == spec_map_links(name@, address_cn@),
{
    let mut raw = owned("香港 ");
    raw.append(address_cn);
    raw.append(" ");
    raw.append(name);
    let cs = chars_of(raw.as_str());
    let trimmed = trim_chars(cs.as_slice());
    let query = string_of(trimmed.as_slice());
    let encoded = urlenc(query.as_str());
    let mut google = owned("https://www.google.com/maps/search/?api=1&query=");
    google.append(encoded.as_str());
    let mut bing = owned("https://www.bing.com/maps?q=");
    bing.append(encoded.as_str());
    (google, bing)
}

/// The text without its trailing slashes.
pub open spec fn strip_trailing_slashes(s: Seq<char>) -> Seq<char>
    decreases s.len(),
{
    if s.len() > 0 && s.last() == '/' {
        strip_trailing_slashes(s.drop_last())
    } else {
        s
    }
}

/// Where a push to a Bark endpoint is posted: the endpoint without trailing slashes;
/// an empty endpoint is skipped.
pub fn bark_endpoint(bark_url: &str) -> (r: Option<String>)
    ensures
        bark_url@.len() == 0 ==> r is None,
        bark_url@.len() > 0 ==> (r matches Some(u) && u@ == strip_trailing_slashes(bark_url@)),
{
    let cs = crate::text::chars_of(bark_url);
    if cs.len() == 0 {
        return None;
    }
    let mut n: usize = cs.len();
    assert(cs@.take(n as int) =~= cs@);
    while n > 0 && cs[n - 1] == '/'
        invariant
            n <= cs@.len(),
            strip_trailing_slashes(cs@) == strip_trailing_slashes(cs@.take(n as int)),
        decreases n,
    {
        assert(cs@.take(n as int).drop_last() =~= cs@.take(n - 1 as int));
        n -= 1;
    }
    let kept = crate::text::slice_chars(cs.as_slice(), 0, n);
    assert(kept@ =~= cs@.take(n as int));
    Some(crate::text::string_of(kept.as_slice()))
}

} // verus!
