//! The persisted form of an object: a gzip stream whose header names the
//! object and whose payload is the object's text.
use vstd::prelude::*;
use vstd::utf8::encode_utf8;

verus! {

/// The payload that flate2's `GzDecoder` reads from `data`, or `None` when
/// `data` is not a gzip stream it can decode.
pub uninterp spec fn gunzip_of(data: Seq<u8>) -> Option<Seq<u8>>;

/// The file name, comment and extra field that flate2's `GzDecoder::header()`
/// gives once it has read the gzip stream `data` to its end, or `None` when
/// the stream cannot be read to its end or has no valid header.
pub uninterp spec fn gz_header_of(data: Seq<u8>) -> Option<
    (Option<Seq<u8>>, Option<Seq<u8>>, Option<Seq<u8>>),
>;

/// Whether `s` can stand in a zero-terminated gzip header field.
pub open spec fn header_safe(s: Seq<char>) -> bool {
    !s.contains('\0')
}

/// Whether `s` can stand in a gzip header field that is read back: no zero
/// character, and at most `u16::MAX` bytes.
pub open spec fn header_field(s: Seq<char>) -> bool {
    header_safe(s) && encode_utf8(s).len() <= u16::MAX
}

/// Relies on flate2's `GzBuilder` (file name, comment and extra header fields)
/// writing into a `Vec<u8>` at the default compression level: the stream it
/// finishes is one that `GzDecoder` decodes back to the text's UTF-8 bytes,
/// and whose header carries the given name, comment and extra field. Writing
/// into a `Vec<u8>` cannot fail, so neither can the encoder.
/// The file name and comment must hold no zero byte, and the extra field at
/// most `u16::MAX` bytes, or `GzBuilder` panics; a character takes at most four
/// bytes in UTF-8. `GzDecoder` reads back a file name or comment of at most
/// `u16::MAX` bytes only.
#[verifier::external_body]
pub(crate) fn gzip(name: &str, comment: &str, extra: &str, text: &str) -> (r: Option<Vec<u8>>)
    requires
        header_safe(name@),
        header_safe(comment@),
        encode_utf8(name@).len() <= u16::MAX,
        encode_utf8(comment@).len() <= u16::MAX,
        4 * extra@.len() <= u16::MAX,
    ensures
        r is Some,
        r matches Some(bytes) ==> gunzip_of(bytes@) == Some(encode_utf8(text@)),
        r matches Some(bytes) ==> gz_header_of(bytes@) == Some(
            (Some(encode_utf8(name@)), Some(encode_utf8(comment@)), Some(encode_utf8(extra@))),
        ),
{
    let builder = flate2::GzBuilder::new().filename(name).comment(comment).extra(extra);
    let mut encoder = builder.write(Vec::new(), flate2::Compression::default());
    std::io::Write::write_all(&mut encoder, text.as_bytes()).ok()?;
    encoder.finish().ok()
}

/// Relies on flate2's `read::GzDecoder` over a byte slice, read to the end:
/// the payload of the gzip stream, or `None` when it cannot be decoded.
#[verifier::external_body]
pub(crate) fn gunzip(data: &[u8]) -> (r: Option<Vec<u8>>)
    ensures
        r is Some <==> gunzip_of(data@) is Some,
        r matches Some(bytes) ==> gunzip_of(data@) == Some(bytes@),
{
    let mut decoder = flate2::read::GzDecoder::new(data);
    let mut out = Vec::new();
    std::io::Read::read_to_end(&mut decoder, &mut out).ok()?;
    Some(out)
}

/// The bytes of an optional header field.
pub open spec fn field_bytes(f: Option<Vec<u8>>) -> Option<Seq<u8>> {
    match f {
        Some(v) => Some(v@),
        None => None,
    }
}

/// Relies on flate2's `read::GzDecoder` over a byte slice, read to the end,
/// and then its `header()`: the file name, comment and extra field of the
/// stream's header, or `None` when the stream cannot be read or has no valid
/// header.
#[verifier::external_body]
pub(crate) fn gz_header(data: &[u8]) -> (r: Option<(Option<Vec<u8>>, Option<Vec<u8>>, Option<Vec<u8>>)>)
    ensures
        r is Some <==> gz_header_of(data@) is Some,
        r matches Some((n, c, e)) ==> gz_header_of(data@) == Some(
            (field_bytes(n), field_bytes(c), field_bytes(e)),
        ),
{
    let mut decoder = flate2::read::GzDecoder::new(data);
    let mut out = Vec::new();
    std::io::Read::read_to_end(&mut decoder, &mut out).ok()?;
    let header = decoder.header()?;
    Some((
        header.filename().map(|b| b.to_vec()),
        header.comment().map(|b| b.to_vec()),
        header.extra().map(|b| b.to_vec()),
    ))
}

} // verus!
