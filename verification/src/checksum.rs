//! Checksums of file content, and the entity tags that object storage gives.
use vstd::prelude::*;
use vstd::string::*;

use md5::{Digest, Md5};

use crate::text::{contains_char, same_text, trim_both, trim_matches};

verus! {

/// The MD5 checksum of `content` in lower-case hexadecimal.
pub uninterp spec fn md5_hex(content: Seq<u8>) -> Seq<char>;

/// Whether `c` is a lower-case hexadecimal digit.
pub open spec fn is_hex_digit(c: char) -> bool {
    ('0' <= c && c <= '9') || ('a' <= c && c <= 'f')
}

/// An entity tag without the quotes around it.
pub open spec fn plain_etag(etag: Seq<char>) -> Seq<char> {
    trim_both(etag, '"')
}

/// Whether an entity tag is that of an object uploaded in parts, which is no checksum of the
/// content.
pub open spec fn multipart(etag: Seq<char>) -> bool {
    etag.contains('-')
}

/// Whether a checksum (none, where the content could not be read) is shown by the entity tag
/// to be that of the object.
pub open spec fn shows_same_content(md5: Option<Seq<char>>, etag: Seq<char>) -> bool {
    !multipart(plain_etag(etag)) && md5 == Some(plain_etag(etag))
}

/// `md5::Md5::digest`, written with `{:x}`.
///
/// The text depends on the content alone, and is made of 32 lower-case hexadecimal digits.
#[verifier::external_body]
fn md5_text(content: &[u8]) -> (text: String)
    ensures
        text@ == md5_hex(content@),
        text@.len() == 32,
        forall|i: int| 0 <= i < text@.len() ==> is_hex_digit(#[trigger] text@[i]),
{
    format!("{:x}", Md5::digest(content))
}

/// The MD5 checksum of a file with this content, in lower-case hexadecimal.
pub fn md5_of_file(content: &[u8]) -> (text: String)
    ensures
        text@ == md5_hex(content@),
        text@.len() == 32,
        forall|i: int| 0 <= i < text@.len() ==> is_hex_digit(#[trigger] text@[i]),
        !multipart(text@),
{
    md5_text(content)
}

/// An entity tag without the quotes around it.
pub fn normalize_etag(etag: &str) -> (plain: &str)
    ensures
        plain@ == plain_etag(etag@),
{
    trim_matches(etag, '"')
}

/// Whether an entity tag is that of an object uploaded in parts.
pub fn is_multipart_etag(etag: &str) -> (yes: bool)
    ensures
        yes == multipart(etag@),
{
    contains_char(etag, '-')
}

/// Whether a checksum is shown by an entity tag to be that of the object.
pub fn md5_matches(md5: Option<&str>, s3_etag: &str) -> (same: bool)
    ensures
        same == shows_same_content(
            match md5 {
                Some(m) => Some(m@),
                None => None,
            },
            s3_etag@,
        ),
{
    let normalized = normalize_etag(s3_etag);
    if is_multipart_etag(normalized) {
        return false;
    }
    match md5 {
        Some(local_md5) => same_text(local_md5, normalized),
        None => false,
    }
}

/// Whether a file's content (none, where it could not be read) is shown by an entity tag to be
/// that of the object. The content is not looked at where the tag is no checksum.
pub fn checksums_match(content: Option<&[u8]>, s3_etag: &str) -> (same: bool)
    ensures
        same == shows_same_content(
            match content {
                Some(c) => Some(md5_hex(c@)),
                None => None,
            },
            s3_etag@,
        ),
{
    let normalized = normalize_etag(s3_etag);
    if is_multipart_etag(normalized) {
        return false;
    }
    match content {
        Some(bytes) => same_text(md5_of_file(bytes).as_str(), normalized),
        None => false,
    }
}

/// Taking the quotes off an entity tag twice is the same as doing it once.
pub proof fn law_plain_etag_idempotent(etag: Seq<char>)
    ensures
        plain_etag(plain_etag(etag)) == plain_etag(etag),
{
    crate::text::lemma_trim_both_clean(etag, '"');
    crate::text::lemma_trim_both_fixed(plain_etag(etag), '"');
}

/// The tag without quotes is the tag but for quotes at its ends, of which it has none; a tag
/// that a service puts between quotes comes out as it is.
pub proof fn law_plain_etag_drops_only_quotes(etag: Seq<char>)
    ensures
        exists|from: int, to: int|
            0 <= from <= to <= etag.len() && plain_etag(etag) == #[trigger] etag.subrange(from, to)
                && (forall|i: int| 0 <= i < from || to <= i < etag.len() ==> etag[i] == '"'),
        plain_etag(etag).len() > 0 ==> plain_etag(etag).first() != '"' && plain_etag(etag).last()
            != '"',
        (etag.len() > 0 ==> etag.first() != '"' && etag.last() != '"') ==> plain_etag(etag) == etag,
        plain_etag(etag).contains('-') <==> etag.contains('-'),
{
    crate::text::law_trim_both_takes_off_the_runs(etag, '"');
    let (from, to) = choose|from: int, to: int|
        0 <= from <= to <= etag.len() && plain_etag(etag) == #[trigger] etag.subrange(from, to)
            && (forall|i: int| 0 <= i < from || to <= i < etag.len() ==> etag[i] == '"');
    let plain = etag.subrange(from, to);
    if plain.contains('-') {
        assert(etag[from + plain.index_of('-')] == '-');
    }
    if etag.contains('-') {
        let at = etag.index_of('-');
        assert(plain[at - from] == '-');
    }
}

/// A tag shows one content at most: that whose checksum it is, with or without quotes. The tag
/// of an object that was uploaded in parts, which has a hyphen, shows none, and neither does any
/// tag where the content could not be read.
pub proof fn law_tag_shows_its_checksum_alone(etag: Seq<char>, md5: Seq<char>, other: Seq<char>)
    ensures
        shows_same_content(Some(md5), etag) <==> md5 == plain_etag(etag) && !etag.contains('-'),
        shows_same_content(Some(md5), etag) && shows_same_content(Some(other), etag) ==> md5
            == other,
        !shows_same_content(None, etag),
        !md5.contains('-') && (md5.len() > 0 ==> md5.first() != '"' && md5.last() != '"')
            ==> shows_same_content(Some(md5), md5) && (other != md5 ==> !shows_same_content(
            Some(other),
            md5,
        )),
{
    law_plain_etag_drops_only_quotes(etag);
    law_plain_etag_drops_only_quotes(md5);
}

} // verus!
