//! Where a downloaded report is cached: a directory named by a digest of the
//! storage location, so that reports of different locations never mix.
use vstd::prelude::*;

use crate::github_storage::GithubReportLocation;
use crate::text::{chars_of, dec, hex_lower_char_of, push_dec, push_str};

verus! {

/// The SHA-256 digest of `data`.
pub uninterp spec fn sha256_of(data: Seq<u8>) -> Seq<u8>;

/// `sha2::Sha256::digest`: the 32-byte SHA-256 digest of `data`.
#[verifier::external_body]
fn sha256(data: &[u8]) -> (r: Vec<u8>)
    ensures
        r@ == sha256_of(data@),
        r@.len() == 32,
{
    <sha2::Sha256 as sha2::Digest>::digest(data).to_vec()
}

/// Bytes as lower-case hexadecimal, two digits each.
pub open spec fn hex_bytes(bs: Seq<u8>) -> Seq<char>
    decreases bs.len(),
{
    if bs.len() == 0 {
        seq![]
    } else {
        hex_bytes(bs.drop_last()) + seq![
            hex_lower_char_of((bs.last() / 16) as nat),
            hex_lower_char_of((bs.last() % 16) as nat),
        ]
    }
}

fn hex_lower_digit(n: u8) -> (c: char)
    requires
        n < 16,
    ensures
        c == hex_lower_char_of(n as nat),
{
    if n < 10 {
        (48u8 + n) as char
    } else {
        (87u8 + n) as char
    }
}

/// What names a storage location: both repositories, the branch and the
/// prefix, one per line.
pub open spec fn cache_identity(loc: GithubReportLocation) -> Seq<char> {
    loc.storage_repo@ + "\n"@ + loc.storage_branch@ + "\n"@ + loc.storage_prefix@ + "\n"@
        + loc.source_repo@
}

/// The first 16 hexadecimal digits of the digest of the location's identity.
pub open spec fn location_digest(loc: GithubReportLocation) -> Seq<char> {
    hex_bytes(sha256_of(vstd::utf8::encode_utf8(cache_identity(loc))).take(8))
}

/// The path below the cache root where pull request `pr`'s report of
/// commit `sha` is kept: `{digest}/prs/{pr}/{sha}/html`.
pub fn report_cache_components(loc: &GithubReportLocation, pr: u64, sha: &str) -> (r: Vec<String>)
    ensures
        r@.len() == 5,
        r@[0]@ == location_digest(*loc),
        r@[1]@ == "prs"@,
        r@[2]@ == dec(pr as nat),
        r@[3]@ == sha@,
        r@[4]@ == "html"@,
{
    let mut identity: Vec<char> = Vec::new();
    push_str(&mut identity, loc.storage_repo.as_str());
    push_str(&mut identity, "\n");
    push_str(&mut identity, loc.storage_branch.as_str());
    push_str(&mut identity, "\n");
    push_str(&mut identity, loc.storage_prefix.as_str());
    push_str(&mut identity, "\n");
    push_str(&mut identity, loc.source_repo.as_str());
    let identity = crate::text::string_of(&identity);
    let digest = sha256(identity.as_str().as_bytes());
    let ghost d = digest@;
    let mut hex: Vec<char> = Vec::new();
    let mut i: usize = 0;
    while i < 8
        invariant
            i <= 8,
            digest@ == d,
            d.len() == 32,
            hex@ == hex_bytes(d.take(i as int)),
        decreases 8 - i,
    {
        let b = digest[i];
        assert(d.take(i + 1).drop_last() =~= d.take(i as int));
        hex.push(hex_lower_digit(b / 16));
        hex.push(hex_lower_digit(b % 16));
        i += 1;
        assert(hex@ =~= hex_bytes(d.take(i as int)));
    }
    let mut pr_text: Vec<char> = Vec::new();
    push_dec(&mut pr_text, pr);
    let mut out: Vec<String> = Vec::new();
    out.push(crate::text::string_of(&hex));
    out.push(crate::text::string_of(&chars_of("prs")));
    out.push(crate::text::string_of(&pr_text));
    out.push(crate::text::string_of(&chars_of(sha)));
    out.push(crate::text::string_of(&chars_of("html")));
    out
}

} // verus!
