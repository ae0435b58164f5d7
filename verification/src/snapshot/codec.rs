//! A snapshot as bytes: its values packed by postcard, and those compressed as an LZ4 block.
//!
//! What the crates do is stated here as far as the library rests on it, and named where it
//! takes their source to say: `packed` and `unpacked` for postcard, `compressed` and
//! `decompressed` for LZ4, `rfc3339` and `rfc3339_instant` for the calendar.

use vstd::prelude::*;

verus! {

/// The error postcard gives.
#[verifier::external_type_specification]
#[verifier::external_body]
pub struct ExPostcardError(postcard::Error);

/// The error LZ4 gives for bytes that are no block.
#[verifier::external_type_specification]
#[verifier::external_body]
pub struct ExDecompressError(lz4_flex::block::DecompressError);

/// What one entry of a snapshot is packed as: path, code of the kind, size, files, time.
pub type Row = (String, u32, u64, u64, i64);

/// A [`Row`] in specifications.
pub type RowSpec = (Seq<char>, u32, u64, u64, i64);

/// What a snapshot is packed as: format, instant, root, bytes, files, threshold, entries.
pub type Payload = (u32, String, String, u64, u64, u64, Vec<Row>);

/// A [`Payload`] in specifications.
pub type PayloadSpec = (u32, Seq<char>, Seq<char>, u64, u64, u64, Seq<RowSpec>);

/// Several rows in specifications.
pub open spec fn row_views(rows: Seq<Row>) -> Seq<RowSpec> {
    rows.map_values(|row: Row| (row.0@, row.1, row.2, row.3, row.4))
}

/// A payload in specifications.
pub open spec fn payload_view(payload: Payload) -> PayloadSpec {
    (
        payload.0,
        payload.1@,
        payload.2@,
        payload.3,
        payload.4,
        payload.5,
        row_views(payload.6@),
    )
}

/// The bytes `postcard::to_allocvec` packs a payload into.
pub uninterp spec fn packed(payload: PayloadSpec) -> Seq<u8>;

/// What `postcard::from_bytes` reads in bytes, if they hold a payload.
pub uninterp spec fn unpacked(bytes: Seq<u8>) -> Option<PayloadSpec>;

/// `postcard::to_allocvec`: a payload of numbers, texts and a list of known length always
/// packs, and reading the bytes gives the payload back.
#[verifier::external_body]
pub(crate) fn pack(payload: &Payload) -> (bytes: Result<Vec<u8>, postcard::Error>)
    ensures
        bytes is Ok,
        bytes->Ok_0@ == packed(payload_view(*payload)),
        unpacked(bytes->Ok_0@) == Some(payload_view(*payload)),
{
    postcard::to_allocvec(payload)
}

/// `postcard::from_bytes`: the payload in the bytes. Which error it gives where there is
/// none is left unsaid.
#[verifier::external_body]
pub(crate) fn unpack(bytes: &[u8]) -> (payload: Result<Payload, postcard::Error>)
    ensures
        match payload {
            Ok(payload) => unpacked(bytes@) == Some(payload_view(payload)),
            Err(_) => unpacked(bytes@) is None,
        },
{
    postcard::from_bytes(bytes)
}

/// `serde::de::Error::custom` for postcard's error: what a payload gets that holds a value no
/// snapshot has.
#[verifier::external_body]
pub(crate) fn refused_value(what: &str) -> postcard::Error {
    serde::de::Error::custom(what)
}

/// The bytes `lz4_flex::compress_prepend_size` makes of bytes.
pub uninterp spec fn compressed(raw: Seq<u8>) -> Seq<u8>;

/// What `lz4_flex::decompress_size_prepended` makes of bytes, if they are a block.
pub uninterp spec fn decompressed(bytes: Seq<u8>) -> Option<Seq<u8>>;

/// `lz4_flex::compress_prepend_size`: the length in four bytes, then an LZ4 block that
/// decompresses to what was given. More bytes than the four can count are not given to it.
#[verifier::external_body]
pub(crate) fn compress(raw: &[u8]) -> (bytes: Vec<u8>)
    requires
        raw@.len() <= u32::MAX,
    ensures
        bytes@ == compressed(raw@),
        decompressed(bytes@) == Some(raw@),
{
    lz4_flex::compress_prepend_size(raw)
}

/// `lz4_flex::decompress_size_prepended`: what the block holds. Which error it gives for
/// bytes that are no block is left unsaid.
#[verifier::external_body]
pub(crate) fn decompress(bytes: &[u8]) -> (raw: Result<
    Vec<u8>,
    lz4_flex::block::DecompressError,
>)
    ensures
        match raw {
            Ok(raw) => decompressed(bytes@) == Some(raw@),
            Err(_) => decompressed(bytes@) is None,
        },
{
    lz4_flex::decompress_size_prepended(bytes)
}

/// What `DateTime::<Utc>::to_rfc3339_opts` writes for an instant, with as many digits of a
/// second as it needs and a `Z` at the end; none for an instant outside the calendar.
pub uninterp spec fn rfc3339(secs: i64, nanos: u32) -> Option<Seq<char>>;

/// The instant `DateTime::<Utc>::from_str` reads in a text: seconds and nanoseconds.
pub uninterp spec fn rfc3339_instant(text: Seq<char>) -> Option<(i64, u32)>;

/// `DateTime::from_timestamp`, then `to_rfc3339_opts`: the text of an instant the calendar
/// has, which reads back as the same instant; one inside a leap second is written, and read,
/// as the second 60.
#[verifier::external_body]
pub(crate) fn instant_text(secs: i64, nanos: u32) -> (text: Option<String>)
    ensures
        crate::text::opt_text(text) == rfc3339(secs, nanos),
        text is Some ==> rfc3339_instant(text->0@) == Some((secs, nanos)),
{
    let instant = chrono::DateTime::from_timestamp(secs, nanos);
    instant.map(|instant| instant.to_rfc3339_opts(chrono::SecondsFormat::AutoSi, true))
}

/// `DateTime::<Utc>::from_str`: the instant in a text, if it is one.
#[verifier::external_body]
pub(crate) fn read_instant(text: &str) -> (instant: Option<(i64, u32)>)
    ensures
        instant == rfc3339_instant(text@),
{
    let instant = text.parse::<chrono::DateTime<chrono::Utc>>().ok();
    instant.map(|instant| (instant.timestamp(), instant.timestamp_subsec_nanos()))
}

/// What `DateTime::<Utc>::format` writes for an instant with a pattern; none for an instant
/// outside the calendar.
pub uninterp spec fn formatted(secs: i64, nanos: u32, pattern: Seq<char>) -> Option<Seq<char>>;

/// `DateTime::from_timestamp`, then `format`: the text of an instant the calendar has, in
/// the one pattern the library writes.
#[verifier::external_body]
pub(crate) fn format_instant(secs: i64, nanos: u32, pattern: &str) -> (text: Option<String>)
    requires
        pattern@ == "%Y%m%dT%H%M%S%.3fZ"@,
    ensures
        crate::text::opt_text(text) == formatted(secs, nanos, pattern@),
{
    let instant = chrono::DateTime::from_timestamp(secs, nanos);
    instant.map(|instant| instant.format(pattern).to_string())
}

} // verus!
