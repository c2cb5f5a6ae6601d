//! Routing of the file server's requests: listing, downloading and
//! uploading shared files.

use vstd::prelude::*;
use vstd::utf8::{decode_utf8, encode_scalar, encode_utf8, valid_utf8};
use crate::transfer::{starts_with, starts_with_str};

verus! {

/// Whether byte `b` is an ASCII hexadecimal digit.
pub open spec fn is_hex(b: u8) -> bool {
    (48 <= b <= 57) || (65 <= b <= 70) || (97 <= b <= 102)
}

/// The value of the hexadecimal digit `b`.
pub open spec fn hex_value(b: u8) -> int {
    if 48 <= b <= 57 {
        b - 48
    } else if 65 <= b <= 70 {
        b - 55
    } else {
        b - 87
    }
}

/// Percent-decoding of bytes: each `%` followed by two hexadecimal digits
/// stands for the byte they spell; every other byte stands for itself.
pub open spec fn percent_decode_bytes(b: Seq<u8>) -> Seq<u8>
    decreases b.len(),
{
    if b.len() == 0 {
        Seq::empty()
    } else if b[0] == 37 && b.len() >= 3 && is_hex(b[1]) && is_hex(b[2]) {
        seq![(hex_value(b[1]) * 16 + hex_value(b[2])) as u8] + percent_decode_bytes(b.skip(3))
    } else {
        seq![b[0]] + percent_decode_bytes(b.skip(1))
    }
}

/// The text that `s` (as its UTF-8 bytes) percent-decodes to, if the
/// decoded bytes are UTF-8.
pub open spec fn percent_decoded(s: Seq<char>) -> Option<Seq<char>> {
    let bytes = percent_decode_bytes(encode_utf8(s));
    if valid_utf8(bytes) {
        Some(decode_utf8(bytes))
    } else {
        None
    }
}

/// Percent-decodes `s` and reads the result as UTF-8, with
/// `percent_encoding::percent_decode_str(s).decode_utf8()`; `None` where that
/// reports invalid UTF-8. Claimed: the result is the percent-decoding of the
/// bytes of `s` (each `%` and two hex digits replaced by that byte), decoded
/// as UTF-8.
#[verifier::external_body]
fn percent_decode_utf8(s: &str) -> (r: Option<String>)
    ensures
        match r {
            Some(t) => percent_decoded(s@) == Some(t@),
            None => percent_decoded(s@) is None,
        },
{
    match percent_encoding::percent_decode_str(s).decode_utf8() {
        Ok(t) => Some(t.into_owned()),
        Err(_) => None,
    }
}

proof fn lemma_scalar_has_no_percent(v: u32)
    requires
        v != 37,
    ensures
        forall|k: int| 0 <= k < encode_scalar(v).len() ==> #[trigger] encode_scalar(v)[k] != 37,
{
    let e = encode_scalar(v);
    if v <= 0x7F {
        assert((v & 0x7Fu32) as u8 != 37u8) by (bit_vector)
            requires v <= 0x7F, v != 37;
    } else {
        assert((0xC0u8 | ((v >> 6u32) & 0x1Fu32) as u8) != 37u8) by (bit_vector);
        assert((0xE0u8 | ((v >> 12u32) & 0x0Fu32) as u8) != 37u8) by (bit_vector);
        assert((0xF0u8 | ((v >> 18u32) & 0x7u32) as u8) != 37u8) by (bit_vector);
        assert((0x80u8 | (v & 0x3Fu32) as u8) != 37u8) by (bit_vector);
        assert((0x80u8 | ((v >> 6u32) & 0x3Fu32) as u8) != 37u8) by (bit_vector);
        assert((0x80u8 | ((v >> 12u32) & 0x3Fu32) as u8) != 37u8) by (bit_vector);
    }
}

proof fn lemma_encoding_has_no_percent(s: Seq<char>)
    requires
        forall|i: int| 0 <= i < s.len() ==> s[i] != '%',
    ensures
        forall|k: int| 0 <= k < encode_utf8(s).len() ==> #[trigger] encode_utf8(s)[k] != 37,
    decreases s.len(),
{
    if s.len() > 0 {
        assert((s[0] as u32) != 37) by {
            if (s[0] as u32) == 37 {
                vstd::utf8::char_u32_cast(s[0], 37);
                vstd::utf8::char_u32_cast('%', '%' as u32);
                assert('%' as u32 == 37);
            }
        }
        lemma_scalar_has_no_percent(s[0] as u32);
        lemma_encoding_has_no_percent(s.drop_first());
        let head = encode_scalar(s[0] as u32);
        let tail = encode_utf8(s.drop_first());
        assert forall|k: int| 0 <= k < encode_utf8(s).len() implies #[trigger] encode_utf8(s)[k] != 37 by {
            if k < head.len() {
                assert(encode_utf8(s)[k] == head[k]);
            } else {
                assert(encode_utf8(s)[k] == tail[k - head.len()]);
            }
        }
    }
}

proof fn lemma_decode_without_percent(b: Seq<u8>)
    requires
        forall|k: int| 0 <= k < b.len() ==> b[k] != 37,
    ensures
        percent_decode_bytes(b) == b,
    decreases b.len(),
{
    if b.len() > 0 {
        lemma_decode_without_percent(b.skip(1));
        assert(seq![b[0]] + b.skip(1) =~= b);
    }
}

/// A name without `%` percent-decodes to itself.
pub proof fn law_plain_names_decode_to_themselves(s: Seq<char>)
    requires
        forall|i: int| 0 <= i < s.len() ==> s[i] != '%',
    ensures
        percent_decoded(s) == Some(s),
{
    lemma_encoding_has_no_percent(s);
    lemma_decode_without_percent(encode_utf8(s));
    vstd::utf8::encode_utf8_valid_utf8(s);
    vstd::utf8::encode_utf8_decode_utf8(s);
}

/// The part of `s` after its last `/` (all of `s` if it has none).
pub open spec fn last_segment(s: Seq<char>) -> Seq<char> {
    if exists|i: int| 0 <= i < s.len() && s[i] == '/' {
        let i = choose|i: int|
            0 <= i < s.len() && s[i] == '/' && forall|k: int| i < k < s.len() ==> s[k] != '/';
        s.subrange(i + 1, s.len() as int)
    } else {
        s
    }
}

/// A request to the file server.
#[derive(Debug)]
pub enum HttpRoute {
    /// `/files...`: list the shared files.
    FileList,
    /// `/download...`: send the shared file with this name.
    Download(String),
    /// `/upload...` with method `OPTIONS`: answer the CORS preflight.
    UploadPreflight,
    /// `/upload...` otherwise: acknowledge the upload.
    Upload,
    /// Any other path: not answered.
    Unhandled,
}

/// The part of `url` after its last `/`.
pub fn last_segment_str(url: &str) -> (r: String)
    ensures
        r@ == last_segment(url@),
{
    let n = url.unicode_len();
    let mut i: usize = n;
    while i > 0
        invariant
            i <= n,
            n == url@.len(),
            forall|k: int| i <= k < n ==> url@[k] != '/',
        decreases i,
    {
        if url.get_char(i - 1) == '/' {
            let ghost j = (i - 1) as int;
            proof {
                let c = choose|c: int| 0 <= c < url@.len() && url@[c] == '/' && forall|k: int| c < k < url@.len() ==> url@[k] != '/';
                assert(c == j) by {
                    if c < j {
                        assert(url@[j] != '/');
                    } else if c > j {
                        assert(url@[c] != '/');
                    }
                }
            }
            return String::from_str(url.substring_char(i, n));
        }
        i = i - 1;
    }
    assert(url@.subrange(0, n as int) =~= url@);
    String::from_str(url.substring_char(0, n))
}

/// Routes a request by its path; `is_options` tells whether its method is
/// `OPTIONS`. A download names the file by the percent-encoded last segment
/// of the path; `None` when that does not decode to UTF-8.
pub fn route_request(url: &str, is_options: bool) -> (r: Option<HttpRoute>)
    ensures
        starts_with(url@, "/files"@) ==> r matches Some(HttpRoute::FileList),
        !starts_with(url@, "/files"@) && starts_with(url@, "/download"@) ==> match r {
            Some(HttpRoute::Download(name)) => percent_decoded(last_segment(url@)) == Some(name@),
            Some(_) => false,
            None => percent_decoded(last_segment(url@)) is None,
        },
        !starts_with(url@, "/files"@) && !starts_with(url@, "/download"@) && starts_with(url@, "/upload"@) ==> if is_options {
            r matches Some(HttpRoute::UploadPreflight)
        } else {
            r matches Some(HttpRoute::Upload)
        },
        !starts_with(url@, "/files"@) && !starts_with(url@, "/download"@) && !starts_with(url@, "/upload"@)
            ==> r matches Some(HttpRoute::Unhandled),
{
    if starts_with_str(url, "/files") {
        Some(HttpRoute::FileList)
    } else if starts_with_str(url, "/download") {
        let seg = last_segment_str(url);
        match percent_decode_utf8(seg.as_str()) {
            Some(name) => Some(HttpRoute::Download(name)),
            None => None,
        }
    } else if starts_with_str(url, "/upload") {
        if is_options {
            Some(HttpRoute::UploadPreflight)
        } else {
            Some(HttpRoute::Upload)
        }
    } else {
        Some(HttpRoute::Unhandled)
    }
}

} // verus!
