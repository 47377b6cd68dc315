//! Content digests: SHA-1 over UTF-8 text, written as 40 lowercase hex digits.
use vstd::prelude::*;

verus! {

/// The SHA-1 digest of the UTF-8 encoding of `text`, as lowercase hex.
pub uninterp spec fn sha1_hex(text: Seq<char>) -> Seq<char>;

/// Whether `c` is a lowercase hexadecimal digit.
pub open spec fn is_hex_digit(c: char) -> bool {
    ('0' <= c && c <= '9') || ('a' <= c && c <= 'f')
}

/// Whether `s` has the shape of a digest: 40 lowercase hexadecimal digits.
pub open spec fn is_digest(s: Seq<char>) -> bool {
    s.len() == 40 && forall|i: int| 0 <= i < s.len() ==> is_hex_digit(#[trigger] s[i])
}

/// Relies on sha1_smol's `Sha1::from(bytes).digest()`, written with its
/// `Display` impl: five 32-bit words of the SHA-1 of the text's UTF-8 bytes,
/// each as eight lowercase hex digits. The result depends on the text alone.
#[verifier::external_body]
pub(crate) fn sha1_digest(text: &str) -> (r: String)
    ensures
        r@ == sha1_hex(text@),
        is_digest(r@),
{
    sha1_smol::Sha1::from(text).digest().to_string()
}

/// Whether `s` is 40 lowercase hexadecimal digits.
pub fn check_digest(s: &str) -> (r: bool)
    ensures
        r == is_digest(s@),
{
    let chars = crate::text::chars_of(s);
    if chars.len() != 40 {
        return false;
    }
    let mut i: usize = 0;
    while i < chars.len()
        invariant
            i <= chars.len(),
            chars@ == s@,
            forall|k: int| 0 <= k < i ==> is_hex_digit(#[trigger] chars@[k]),
        decreases chars.len() - i,
    {
        let c = chars[i];
        if !(('0' <= c && c <= '9') || ('a' <= c && c <= 'f')) {
            return false;
        }
        i = i + 1;
    }
    true
}

/// A digest holds no tab, line break or zero character.
pub proof fn lemma_digest_plain(s: Seq<char>)
    requires
        is_digest(s),
    ensures
        !s.contains('\t'),
        !s.contains('\n'),
        !s.contains('\0'),
{
    if s.contains('\0') {
        let i = choose|i: int| 0 <= i < s.len() && s[i] == '\0';
        assert(is_hex_digit(s[i]));
    }
    if s.contains('\t') {
        let i = choose|i: int| 0 <= i < s.len() && s[i] == '\t';
        assert(is_hex_digit(s[i]));
    }
    if s.contains('\n') {
        let i = choose|i: int| 0 <= i < s.len() && s[i] == '\n';
        assert(is_hex_digit(s[i]));
    }
}

/// A digest can stand in a gzip header field.
pub proof fn lemma_digest_header_field(s: Seq<char>)
    requires
        is_digest(s),
    ensures
        crate::archive::header_field(s),
{
    lemma_digest_plain(s);
    assert(vstd::utf8::is_ascii_chars(s)) by {
        assert forall|i| 0 <= i < s.len() implies '\0' <= #[trigger] s[i] <= '\u{7f}' by {
            assert(is_hex_digit(s[i]));
        }
    }
    vstd::utf8::is_ascii_chars_encode_utf8(s);
}

} // verus!
