//! Requests to the Google Cloud Storage JSON API: the URLs of objects and
//! uploads, and which responses are worth retrying.
use vstd::prelude::*;

use crate::storage::{hex_digit, trim_slashes_end, unreserved};
use crate::text::{chars_of, dec, push_dec, push_str};

verus! {

/// Bytes kept verbatim in an object name: `[A-Za-z0-9._~-]`.
pub open spec fn object_unreserved(b: u8) -> bool {
    unreserved(b) || b == 126
}

/// Percent-encoding of an object name's bytes: unreserved bytes as
/// themselves, every other byte as `%` and two upper-case hexadecimal digits.
pub open spec fn object_name_encoded(bytes: Seq<u8>) -> Seq<char>
    decreases bytes.len(),
{
    if bytes.len() == 0 {
        seq![]
    } else {
        let b = bytes.last();
        object_name_encoded(bytes.drop_last()) + if object_unreserved(b) {
            seq![b as char]
        } else {
            seq!['%', hex_digit(b / 16), hex_digit(b % 16)]
        }
    }
}

fn hex_char(n: u8) -> (c: char)
    requires
        n < 16,
    ensures
        c == hex_digit(n),
{
    if n < 10 {
        (48u8 + n) as char
    } else {
        (55u8 + n) as char
    }
}

/// An object name as it stands in a URL path or query: its UTF-8 bytes,
/// percent-encoded.
pub fn encode_object_name(key: &str) -> (r: String)
    ensures
        r@ == object_name_encoded(vstd::utf8::encode_utf8(key@)),
{
    let bytes = key.as_bytes();
    let ghost bs = bytes@;
    let mut out: Vec<char> = Vec::new();
    let mut i: usize = 0;
    while i < bytes.len()
        invariant
            i <= bs.len(),
            bs == bytes@,
            out@ == object_name_encoded(bs.take(i as int)),
        decreases bs.len() - i,
    {
        let b = bytes[i];
        assert(bs.take(i + 1).drop_last() =~= bs.take(i as int));
        assert(bs.take(i + 1).last() == b);
        let keep = (65 <= b && b <= 90) || (97 <= b && b <= 122) || (48 <= b && b <= 57) || b == 46
            || b == 95 || b == 45 || b == 126;
        if keep {
            out.push(b as char);
        } else {
            out.push('%');
            out.push(hex_char(b / 16));
            out.push(hex_char(b % 16));
        }
        i += 1;
        assert(out@ =~= object_name_encoded(bs.take(i as int)));
    }
    assert(bs.take(i as int) =~= bs);
    crate::text::string_of(&out)
}

/// The API's base URL without trailing slashes.
pub fn api_base_url(url: &str) -> (r: String)
    ensures
        r@ == trim_slashes_end(url@),
{
    let cs = chars_of(url);
    let mut end: usize = cs.len();
    assert(cs@.take(end as int) =~= cs@);
    while end > 0 && cs[end - 1] == '/'
        invariant
            end <= cs@.len(),
            trim_slashes_end(cs@.take(end as int)) == trim_slashes_end(url@),
            cs@ == url@,
        decreases end,
    {
        assert(cs@.take(end as int).drop_last() =~= cs@.take(end - 1));
        end -= 1;
    }
    let r = crate::text::slice_of(&cs, 0, end);
    assert(r@ =~= cs@.take(end as int));
    crate::text::string_of(&r)
}

/// `{base}/storage/v1/b/{bucket}/o/{encoded key}`: where an object is read.
pub open spec fn object_url_of(base: Seq<char>, bucket: Seq<char>, key: Seq<char>) -> Seq<char> {
    base + "/storage/v1/b/"@ + bucket + "/o/"@ + object_name_encoded(vstd::utf8::encode_utf8(key))
}

/// The URL of an object's metadata; with `?alt=media`, of its contents.
pub fn object_url(base: &str, bucket: &str, key: &str) -> (r: String)
    ensures
        r@ == object_url_of(base@, bucket@, key@),
{
    let mut out = chars_of(base);
    push_str(&mut out, "/storage/v1/b/");
    push_str(&mut out, bucket);
    push_str(&mut out, "/o/");
    let encoded = encode_object_name(key);
    push_str(&mut out, encoded.as_str());
    crate::text::string_of(&out)
}

/// A signed integer in decimal.
pub open spec fn signed_dec(n: int) -> Seq<char> {
    if n < 0 {
        seq!['-'] + dec((-n) as nat)
    } else {
        dec(n as nat)
    }
}

/// The URL of a media upload of `key`, conditioned on the object's
/// generation when one is given (`0`: only if the object does not exist).
pub open spec fn upload_url_of(
    base: Seq<char>,
    bucket: Seq<char>,
    key: Seq<char>,
    if_generation_match: Option<i64>,
) -> Seq<char> {
    base + "/upload/storage/v1/b/"@ + bucket + "/o?uploadType=media&name="@ + object_name_encoded(
        vstd::utf8::encode_utf8(key),
    ) + match if_generation_match {
        Some(g) => "&ifGenerationMatch="@ + signed_dec(g as int),
        None => seq![],
    }
}

/// The URL that uploads `key`'s contents.
pub fn upload_url(base: &str, bucket: &str, key: &str, if_generation_match: Option<i64>) -> (r: String)
    ensures
        r@ == upload_url_of(base@, bucket@, key@, if_generation_match),
{
    let mut out = chars_of(base);
    push_str(&mut out, "/upload/storage/v1/b/");
    push_str(&mut out, bucket);
    push_str(&mut out, "/o?uploadType=media&name=");
    let encoded = encode_object_name(key);
    push_str(&mut out, encoded.as_str());
    let ghost before = out@;
    match if_generation_match {
        Some(g) => {
            push_str(&mut out, "&ifGenerationMatch=");
            if g < 0 {
                out.push('-');
                let magnitude: u64 = if g == i64::MIN {
                    9223372036854775808u64
                } else {
                    (-g) as u64
                };
                push_dec(&mut out, magnitude);
            } else {
                push_dec(&mut out, g as u64);
            }
            assert(out@ =~= before + ("&ifGenerationMatch="@ + signed_dec(g as int)));
        },
        None => {
            assert(out@ =~= before + seq![]);
        },
    }
    crate::text::string_of(&out)
}

/// A status worth another attempt: a server error, too many requests, or a
/// request timeout.
pub open spec fn retryable(status: u16) -> bool {
    (500 <= status <= 599) || status == 429 || status == 408
}

/// Whether a response with `status` is retried.
pub fn retryable_status(status: u16) -> (r: bool)
    ensures
        r == retryable(status),
{
    (500 <= status && status <= 599) || status == 429 || status == 408
}

} // verus!
