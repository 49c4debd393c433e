//! Reading the raster image embedded in a PhonoPaper SVG or PDF.
//!
//! Both vector formats carry the full raster verbatim: the SVG as a
//! base64 PNG data URI, the PDF as a zlib-compressed grayscale image
//! XObject.  The readers here locate that payload by scanning the bytes,
//! hand the decoding of PNG, base64 and zlib to the `image`, `base64` and
//! `miniz_oxide` crates, and rebuild a [`Raster`].

use base64::Engine as _;
use image::ImageEncoder as _;
use vstd::prelude::*;
use vstd::string::StringSliceAdditionalSpecFns;
use vstd::utf8::{decode_utf8, encode_utf8, valid_utf8};

use crate::bytes::{
    find_bytes, find_from, lemma_find_from_first, occurs_at, parse_token_usize,
    parse_usize_token, rfind_below, rfind_bytes, skip_whitespace, skip_ws, trim_ascii_end_at,
    trim_end,
};
use crate::error::PhonoPaperError;
use crate::raster::Raster;
use crate::render::{
    fits, lemma_marker_rows_height, marker_stripe_layout, rows_height, spec_band_height,
    spec_data_height, spec_image_height, spec_image_pixel, spec_marker_rows, spec_octave_row,
    spec_rendered, spec_stripe_luma, spectrogram_to_image_buf, RenderOptions,
};
use crate::spectrogram::Spectrogram;

verus! {

// ─── Outside decoders ─────────────────────────────────────────────────────────

/// What `miniz_oxide::inflate::decompress_to_vec_zlib` returns for the given
/// zlib stream: the inflated bytes, or `None` when the stream is invalid.
pub uninterp spec fn zlib_inflated(data: Seq<u8>) -> Option<Seq<u8>>;

/// What the standard-alphabet base64 engine of the `base64` crate decodes
/// the given text to, or `None` when it is not valid base64.
pub uninterp spec fn base64_decoded(text: Seq<u8>) -> Option<Seq<u8>>;

/// The image that `image::load_from_memory` decodes from the given bytes,
/// as `(gray, width, height, pixels)`: an 8-bit grayscale image
/// (`ImageLuma8`) has `gray` set and one byte per pixel; any other image is
/// given as its `into_rgba8` conversion, four bytes per pixel.  `None` when
/// the bytes are not an image the crate can read.
pub uninterp spec fn decoded_image(bytes: Seq<u8>) -> Option<(bool, u32, u32, Seq<u8>)>;

/// The pixels of a decoded image, row-major.
pub enum DecodedPixels {
    /// One gray level per pixel.
    Gray(Vec<u8>),
    /// Four RGBA bytes per pixel.
    Rgba(Vec<u8>),
}

/// `std::str::from_utf8`: whether the bytes are valid UTF-8.  The contract
/// says that the answer is vstd's `valid_utf8`.
#[verifier::external_body]
fn is_utf8(bytes: &[u8]) -> (r: bool)
    ensures
        r == valid_utf8(bytes@),
{
    std::str::from_utf8(bytes).is_ok()
}

/// `miniz_oxide::inflate::decompress_to_vec_zlib`.  The contract says that
/// the call succeeds exactly when the stream has an inflated form, and then
/// returns it; the error is handed over as the crate's error,
/// debug-formatted, whose text is not stated.
#[verifier::external_body]
fn inflate_zlib(data: &[u8]) -> (r: Result<Vec<u8>, String>)
    ensures
        r is Ok <==> zlib_inflated(data@) is Some,
        r matches Ok(v) ==> zlib_inflated(data@) == Some(v@),
{
    match miniz_oxide::inflate::decompress_to_vec_zlib(data) {
        Ok(v) => Ok(v),
        Err(e) => Err(format!("{e:?}")),
    }
}

/// `base64::engine::general_purpose::STANDARD.decode`.  The contract says
/// that the call succeeds exactly when the text has a decoded form, and
/// then returns it; the error is handed over as the crate's error,
/// displayed, whose text is not stated.
#[verifier::external_body]
fn decode_base64(text: &[u8]) -> (r: Result<Vec<u8>, String>)
    ensures
        r is Ok <==> base64_decoded(text@) is Some,
        r matches Ok(v) ==> base64_decoded(text@) == Some(v@),
{
    match base64::engine::general_purpose::STANDARD.decode(text) {
        Ok(v) => Ok(v),
        Err(e) => Err(format!("{e}")),
    }
}

/// `image::load_from_memory`.  An `ImageLuma8` result is handed over as
/// its gray levels, any other as `DynamicImage::into_rgba8`.  The contract
/// says that the call succeeds exactly when the bytes have a decoded image,
/// returns its dimensions and pixels, and that the pixel buffer holds one
/// (gray) or four (RGBA) bytes per pixel.
#[verifier::external_body]
fn load_image(bytes: &[u8]) -> (r: Result<(u32, u32, DecodedPixels), image::ImageError>)
    ensures
        r is Ok <==> decoded_image(bytes@) is Some,
        r matches Ok((w, h, px)) ==> match px {
            DecodedPixels::Gray(v) => {
                &&& decoded_image(bytes@) == Some((true, w, h, v@))
                &&& v@.len() == (w as int) * (h as int)
            },
            DecodedPixels::Rgba(v) => {
                &&& decoded_image(bytes@) == Some((false, w, h, v@))
                &&& v@.len() == 4 * (w as int) * (h as int)
            },
        },
{
    match image::load_from_memory(bytes) {
        Ok(image::DynamicImage::ImageLuma8(gray)) => {
            Ok((gray.width(), gray.height(), DecodedPixels::Gray(gray.into_raw())))
        },
        Ok(img) => {
            let rgba = img.into_rgba8();
            Ok((rgba.width(), rgba.height(), DecodedPixels::Rgba(rgba.into_raw())))
        },
        Err(e) => Err(e),
    }
}

/// `text` begins with `prefix`.
pub open spec fn has_prefix(text: Seq<char>, prefix: Seq<char>) -> bool {
    prefix.len() <= text.len() && text.subrange(0, prefix.len() as int) == prefix
}

/// An `InvalidFormat` error whose message is `prefix` followed by `detail`.
fn invalid_with(prefix: &str, detail: &str) -> (r: PhonoPaperError)
    ensures
        r matches PhonoPaperError::InvalidFormat(text) && text@ == prefix@ + detail@ && has_prefix(
            text@,
            prefix@,
        ),
{
    let mut text = prefix.to_string();
    text.append(detail);
    proof {
        assert((prefix@ + detail@).subrange(0, prefix@.len() as int) =~= prefix@);
    }
    PhonoPaperError::InvalidFormat(text)
}

/// Decode an encoded image (PNG, JPEG, …) into a raster.
///
/// An 8-bit grayscale image becomes an opaque gray raster; any other image
/// is read as its RGBA conversion.  Bytes that are no image the `image`
/// crate can read give its error.
pub fn raster_from_bytes(bytes: &[u8]) -> (r: Result<Raster, PhonoPaperError>)
    ensures
        r is Ok <==> decoded_image(bytes@) is Some,
        r matches Ok(img) ==> (decoded_image(bytes@) matches Some((gray, w, h, px)) && (if gray {
            img.holds_luma(w, h, px)
        } else {
            img.holds_rgba(w, h, px)
        })),
        r matches Err(e) ==> e is ImageError,
{
    match load_image(bytes) {
        Ok((w, h, DecodedPixels::Gray(px))) => Ok(Raster::from_luma(w, h, px.as_slice()).unwrap()),
        Ok((w, h, DecodedPixels::Rgba(px))) => Ok(Raster::from_rgba(w, h, px).unwrap()),
        Err(e) => Err(PhonoPaperError::ImageError(e)),
    }
}

// ─── SVG ──────────────────────────────────────────────────────────────────────

/// `data:image/png;base64,`, the prefix of the embedded image's data URI.
pub open spec fn png_data_uri() -> Seq<u8> {
    seq![
        0x64u8, 0x61, 0x74, 0x61, 0x3A, 0x69, 0x6D, 0x61, 0x67, 0x65, 0x2F,
        0x70, 0x6E, 0x67, 0x3B, 0x62, 0x61, 0x73, 0x65, 0x36, 0x34, 0x2C,
    ]
}

/// The base64 text of the embedded PNG in an SVG document's bytes: from the
/// end of the first `data:image/png;base64,` up to the next `"`.
pub open spec fn spec_svg_payload(svg: Seq<u8>) -> Option<Seq<u8>> {
    match find_from(svg, png_data_uri(), 0) {
        None => None,
        Some(p) => {
            let start = p + png_data_uri().len();
            match find_from(svg, seq![0x22u8], start) {
                None => None,
                Some(end) => Some(svg.subrange(start, end)),
            }
        },
    }
}

/// Extract the raster image embedded in a PhonoPaper SVG document.
///
/// The first `data:image/png;base64,` data URI is located, its text up to
/// the closing quote is base64-decoded and the PNG is decoded.  A missing or
/// unterminated data URI and invalid base64 are `InvalidFormat`; a payload
/// that is no image is an `ImageError`.
pub fn image_from_svg(svg: &str) -> (r: Result<Raster, PhonoPaperError>)
    ensures
        match spec_svg_payload(svg.spec_bytes()) {
            None => r matches Err(PhonoPaperError::InvalidFormat(m)) && m@ == (if find_from(
                svg.spec_bytes(),
                png_data_uri(),
                0,
            ) is None {
                "SVG does not contain a data:image/png;base64, image element"@
            } else {
                "Malformed SVG: unterminated base64 data URI"@
            }),
            Some(text) => match base64_decoded(text) {
                None => r matches Err(PhonoPaperError::InvalidFormat(m)) && has_prefix(
                    m@,
                    "invalid base64: "@,
                ),
                Some(png) => match decoded_image(png) {
                    None => r matches Err(e) && e is ImageError,
                    Some((gray, w, h, px)) => r matches Ok(img) && if gray {
                        img.holds_luma(w, h, px)
                    } else {
                        img.holds_rgba(w, h, px)
                    },
                },
            },
        },
{
    let bytes = svg.as_bytes();
    let prefix: [u8; 22] = [
        0x64, 0x61, 0x74, 0x61, 0x3A, 0x69, 0x6D, 0x61, 0x67, 0x65, 0x2F,
        0x70, 0x6E, 0x67, 0x3B, 0x62, 0x61, 0x73, 0x65, 0x36, 0x34, 0x2C,
    ];
    let quote: [u8; 1] = [0x22];
    proof {
        assert(prefix@ =~= png_data_uri());
        assert(quote@ =~= seq![0x22u8]);
    }
    let p = match find_bytes(bytes, prefix.as_slice(), 0) {
        Some(p) => p,
        None => {
            return Err(
                PhonoPaperError::InvalidFormat(
                    "SVG does not contain a data:image/png;base64, image element".to_string(),
                ),
            );
        },
    };
    let n = bytes.len();
    assert(p + 22 <= n);
    let start = p + 22;
    let end = match find_bytes(bytes, quote.as_slice(), start) {
        Some(e) => e,
        None => {
            return Err(
                PhonoPaperError::InvalidFormat(
                    "Malformed SVG: unterminated base64 data URI".to_string(),
                ),
            );
        },
    };
    let text = vstd::slice::slice_subrange(bytes, start, end);
    let png = match decode_base64(text) {
        Ok(v) => v,
        Err(detail) => {
            return Err(invalid_with("invalid base64: ", detail.as_str()));
        },
    };
    raster_from_bytes(png.as_slice())
}

// ─── PDF ──────────────────────────────────────────────────────────────────────

/// `/FlateDecode`, the filter name of the compressed image.
pub open spec fn flate_decode_name() -> Seq<u8> {
    seq![0x2Fu8, 0x46, 0x6C, 0x61, 0x74, 0x65, 0x44, 0x65, 0x63, 0x6F, 0x64, 0x65]
}

/// `<<`, the start of a PDF dictionary.
pub open spec fn dictionary_open() -> Seq<u8> {
    seq![0x3Cu8, 0x3C]
}

/// `>>`, the end of a PDF dictionary.
pub open spec fn dictionary_close() -> Seq<u8> {
    seq![0x3Eu8, 0x3E]
}

/// `/Width`, the key of the image width.
pub open spec fn width_name() -> Seq<u8> {
    seq![0x2Fu8, 0x57, 0x69, 0x64, 0x74, 0x68]
}

/// `/Height`, the key of the image height.
pub open spec fn height_name() -> Seq<u8> {
    seq![0x2Fu8, 0x48, 0x65, 0x69, 0x67, 0x68, 0x74]
}

/// `stream`, the keyword before a stream's data.
pub open spec fn stream_keyword() -> Seq<u8> {
    seq![0x73u8, 0x74, 0x72, 0x65, 0x61, 0x6D]
}

/// `endstream`, the keyword after a stream's data.
pub open spec fn endstream_keyword() -> Seq<u8> {
    seq![0x65u8, 0x6E, 0x64, 0x73, 0x74, 0x72, 0x65, 0x61, 0x6D]
}

/// The image dictionary of a PDF: the last `<<` that ends before the first
/// `/FlateDecode`, and the first `>>` at or after it, as the positions
/// `(start, end)` of the two delimiters.
pub open spec fn spec_pdf_dictionary(pdf: Seq<u8>) -> Option<(int, int)> {
    match find_from(pdf, flate_decode_name(), 0) {
        None => None,
        Some(f) => match rfind_below(
            pdf,
            dictionary_open(),
            if f >= 1 {
                (f - 1) as nat
            } else {
                0
            },
        ) {
            None => None,
            Some(start) => match find_from(pdf, dictionary_close(), f) {
                None => None,
                Some(end) => Some((start, end)),
            },
        },
    }
}

/// The entry `key` of a dictionary text: `None` when the key is absent,
/// otherwise the `usize` that follows it past whitespace, if there is one.
pub open spec fn spec_key_value(dict: Seq<u8>, key: Seq<u8>) -> Option<Option<int>> {
    match find_from(dict, key, 0) {
        None => None,
        Some(p) => Some(parse_token_usize(dict, skip_ws(dict, p + key.len()))),
    }
}

/// The numeric entry `key` of a dictionary text.
pub open spec fn spec_dictionary_number(dict: Seq<u8>, key: Seq<u8>) -> Option<int> {
    match spec_key_value(dict, key) {
        Some(Some(v)) => Some(v),
        _ => None,
    }
}

/// The width and height of the image and the position just past the
/// `stream` keyword that follows its dictionary.  The dictionary text runs
/// from `<<` to the first byte of `>>` and must be valid UTF-8.
pub open spec fn spec_pdf_header(pdf: Seq<u8>) -> Option<(int, int, int)> {
    match spec_pdf_dictionary(pdf) {
        None => None,
        Some((ds, de)) => {
            let dict = pdf.subrange(ds, de + 1);
            if !valid_utf8(dict) {
                None
            } else {
                match (
                    spec_dictionary_number(dict, width_name()),
                    spec_dictionary_number(dict, height_name()),
                ) {
                    (Some(w), Some(h)) => match find_from(pdf, stream_keyword(), de) {
                        None => None,
                        Some(s) => Some((w, h, s + stream_keyword().len())),
                    },
                    _ => None,
                }
            }
        },
    }
}

/// Where the stream data starts: past the line ending (CR LF or a single
/// byte) after the `stream` keyword.
pub open spec fn spec_data_start(pdf: Seq<u8>, off: int) -> int {
    if off < pdf.len() && pdf[off] == 0x0D {
        off + 2
    } else {
        off + 1
    }
}

/// The line ending after the `stream` keyword would run past the end of
/// the document (a PDF cut off right after the keyword).
pub open spec fn stream_start_past_end(pdf: Seq<u8>) -> bool {
    spec_pdf_header(pdf) matches Some((_, _, off)) && spec_data_start(pdf, off) > pdf.len()
}

/// The width, height and compressed-data range `(start, end)` of the
/// image: the data runs from its start up to the first `endstream`, with
/// trailing ASCII whitespace removed.
pub open spec fn spec_pdf_stream(pdf: Seq<u8>) -> Option<(int, int, int, int)> {
    match spec_pdf_header(pdf) {
        None => None,
        Some((w, h, off)) => {
            let s = spec_data_start(pdf, off);
            match find_from(pdf, endstream_keyword(), s) {
                None => None,
                Some(e) => Some((w, h, s, trim_end(pdf, s, e))),
            }
        },
    }
}

/// The grayscale raster rebuilt from inflated pixels: the pixel count must
/// be `width * height`; the dimensions are taken modulo 2^32 and the image
/// holds the first `width * height` pixels at those dimensions.
pub open spec fn spec_raster_from_inflated(width: int, height: int, pixels: Seq<u8>) -> Option<
    (u32, u32, Seq<u8>),
> {
    if pixels.len() != width * height {
        None
    } else {
        let w = (width % 0x1_0000_0000) as u32;
        let h = (height % 0x1_0000_0000) as u32;
        Some((w, h, pixels.subrange(0, (w as int) * (h as int))))
    }
}

/// The grayscale image of a PhonoPaper PDF, as `(width, height, pixels)`.
pub open spec fn spec_image_from_pdf(pdf: Seq<u8>) -> Option<(u32, u32, Seq<u8>)> {
    match spec_pdf_stream(pdf) {
        None => None,
        Some((w, h, s, e)) => match zlib_inflated(pdf.subrange(s, e)) {
            None => None,
            Some(pixels) => spec_raster_from_inflated(w, h, pixels),
        },
    }
}

/// The message of the first landmark of a PhonoPaper PDF that cannot be
/// found or read, in the order [`locate_image_stream`] looks for them, or
/// `None` when the image stream is located.
pub open spec fn spec_pdf_locate_failure(pdf: Seq<u8>) -> Option<Seq<char>> {
    match find_from(pdf, flate_decode_name(), 0) {
        None => Some(
            "PDF round-trip only: no FlateDecode stream found (not a phonopaper-rs PDF?)"@,
        ),
        Some(f) => match rfind_below(
            pdf,
            dictionary_open(),
            if f >= 1 {
                (f - 1) as nat
            } else {
                0
            },
        ) {
            None => Some("PDF round-trip only: cannot locate image XObject dictionary"@),
            Some(ds) => match find_from(pdf, dictionary_close(), f) {
                None => Some("PDF round-trip only: cannot locate end of image XObject dictionary"@),
                Some(de) => spec_pdf_header_failure(pdf, pdf.subrange(ds, de + 1), de),
            },
        },
    }
}

/// The message of the first entry of the image dictionary `dict` (ending
/// at `de`) that cannot be read, or of the first missing stream keyword,
/// or `None`.
pub open spec fn spec_pdf_header_failure(pdf: Seq<u8>, dict: Seq<u8>, de: int) -> Option<
    Seq<char>,
> {
    if !valid_utf8(dict) {
        Some("PDF round-trip only: image XObject dictionary contains non-UTF-8 bytes"@)
    } else {
        match spec_key_value(dict, width_name()) {
            None => Some("PDF round-trip only: image XObject missing /Width"@),
            Some(None) => Some("PDF round-trip only: cannot parse /Width value"@),
            Some(Some(_)) => match spec_key_value(dict, height_name()) {
                None => Some("PDF round-trip only: image XObject missing /Height"@),
                Some(None) => Some("PDF round-trip only: cannot parse /Height value"@),
                Some(Some(_)) => match find_from(pdf, stream_keyword(), de) {
                    None => Some(
                        "PDF round-trip only: cannot locate stream body in image XObject"@,
                    ),
                    Some(st) => match find_from(
                        pdf,
                        endstream_keyword(),
                        spec_data_start(pdf, st + stream_keyword().len()),
                    ) {
                        None => Some("PDF round-trip only: cannot locate endstream marker"@),
                        Some(_) => None,
                    },
                },
            },
        }
    }
}

/// The message of a PDF whose compressed image data cannot be inflated
/// starts with this text; the rest is the inflater's own error.
pub open spec fn inflate_failure_prefix() -> Seq<char> {
    "PDF round-trip only: Failed to decompress PDF image XObject: "@
}

/// The character of decimal digit `d`.
pub open spec fn digit_char(d: int) -> char {
    (0x30 + d) as char
}

/// The decimal digits of a non-negative number, as text.
pub open spec fn decimal_text(n: int) -> Seq<char>
    decreases n,
{
    if n < 10 {
        seq![digit_char(n)]
    } else {
        decimal_text(n / 10) + seq![digit_char(n % 10)]
    }
}

/// The message of a PDF whose inflated pixels do not fill its dimensions.
pub open spec fn size_mismatch_text(count: int, width: int, height: int) -> Seq<char> {
    "PDF round-trip only: Decompressed PDF image size "@ + decimal_text(count)
        + " does not match "@ + decimal_text(width) + "×"@ + decimal_text(height) + " = "@
        + decimal_text(width * height)
}

/// The text of decimal digit `d`.
fn digit_text(d: u128) -> (r: &'static str)
    requires
        d < 10,
    ensures
        r@ == seq![digit_char(d as int)],
{
    proof {
        reveal_strlit("0");
        reveal_strlit("1");
        reveal_strlit("2");
        reveal_strlit("3");
        reveal_strlit("4");
        reveal_strlit("5");
        reveal_strlit("6");
        reveal_strlit("7");
        reveal_strlit("8");
        reveal_strlit("9");
    }
    if d == 0 {
        "0"
    } else if d == 1 {
        "1"
    } else if d == 2 {
        "2"
    } else if d == 3 {
        "3"
    } else if d == 4 {
        "4"
    } else if d == 5 {
        "5"
    } else if d == 6 {
        "6"
    } else if d == 7 {
        "7"
    } else if d == 8 {
        "8"
    } else {
        "9"
    }
}

/// Append the decimal digits of `n`.
fn append_decimal(out: &mut String, n: u128)
    ensures
        final(out)@ == old(out)@ + decimal_text(n as int),
    decreases n,
{
    if n >= 10 {
        append_decimal(out, n / 10);
    }
    out.append(digit_text(n % 10));
    proof {
        assert(final(out)@ =~= old(out)@ + decimal_text(n as int));
    }
}

/// Where the grayscale image of a PhonoPaper PDF lies: its dimensions and
/// the byte range of its zlib-compressed pixels.
#[derive(Debug, Clone, Copy, PartialEq, Eq)]
pub struct PdfImageStream {
    /// Image width in pixels.
    pub width: usize,
    /// Image height in pixels.
    pub height: usize,
    /// First byte of the compressed data.
    pub data_start: usize,
    /// One past the last byte of the compressed data.
    pub data_end: usize,
}

fn invalid(msg: &str) -> (r: PhonoPaperError)
    ensures
        r matches PhonoPaperError::InvalidFormat(text) && text@ == msg@,
{
    PhonoPaperError::InvalidFormat(msg.to_string())
}

/// Locate the image dictionary (see [`spec_pdf_dictionary`]).
fn locate_dictionary(pdf: &[u8]) -> (r: Result<(usize, usize), PhonoPaperError>)
    ensures
        r is Ok <==> spec_pdf_dictionary(pdf@) is Some,
        r matches Ok((ds, de)) ==> {
            &&& spec_pdf_dictionary(pdf@) == Some((ds as int, de as int))
            &&& ds < de
            &&& de + 2 <= pdf@.len()
        },
        r matches Err(e) ==> (e matches PhonoPaperError::InvalidFormat(m) && spec_pdf_locate_failure(
            pdf@,
        ) == Some(m@)),
{
    let flate: [u8; 12] = [0x2F, 0x46, 0x6C, 0x61, 0x74, 0x65, 0x44, 0x65, 0x63, 0x6F, 0x64, 0x65];
    let open: [u8; 2] = [0x3C, 0x3C];
    let close: [u8; 2] = [0x3E, 0x3E];
    proof {
        assert(flate@ =~= flate_decode_name());
        assert(open@ =~= dictionary_open());
        assert(close@ =~= dictionary_close());
    }
    let f = match find_bytes(pdf, flate.as_slice(), 0) {
        Some(f) => f,
        None => {
            return Err(
                invalid(
                    "PDF round-trip only: no FlateDecode stream found (not a phonopaper-rs PDF?)",
                ),
            );
        },
    };
    let k = if f >= 1 {
        f - 1
    } else {
        0
    };
    let ds = match rfind_bytes(pdf, open.as_slice(), k) {
        Some(ds) => ds,
        None => {
            return Err(invalid("PDF round-trip only: cannot locate image XObject dictionary"));
        },
    };
    let de = match find_bytes(pdf, close.as_slice(), f) {
        Some(de) => de,
        None => {
            return Err(
                invalid("PDF round-trip only: cannot locate end of image XObject dictionary"),
            );
        },
    };
    Ok((ds, de))
}

/// Look up the entry `key` of a dictionary text (see [`spec_key_value`]).
fn key_value(dict: &[u8], key: &[u8]) -> (r: Option<Option<usize>>)
    ensures
        match spec_key_value(dict@, key@) {
            None => r is None,
            Some(None) => r == Some(None::<usize>),
            Some(Some(v)) => r matches Some(Some(x)) && x == v,
        },
{
    match find_bytes(dict, key, 0) {
        None => None,
        Some(p) => {
            let n = dict.len();
            let after = p + key.len();
            let start = skip_whitespace(dict, after);
            match parse_usize_token(dict, start) {
                Some(v) => Some(Some(v)),
                None => Some(None),
            }
        },
    }
}

/// Parse the dictionary of the image and find its `stream` keyword (see
/// [`spec_pdf_header`]).
fn scan_header(pdf: &[u8]) -> (r: Result<(usize, usize, usize), PhonoPaperError>)
    ensures
        r is Ok <==> spec_pdf_header(pdf@) is Some,
        r matches Ok((w, h, off)) ==> {
            &&& spec_pdf_header(pdf@) == Some((w as int, h as int, off as int))
            &&& off <= pdf@.len()
        },
        r matches Err(e) ==> (e matches PhonoPaperError::InvalidFormat(m) && spec_pdf_locate_failure(
            pdf@,
        ) == Some(m@)),
{
    let (ds, de) = match locate_dictionary(pdf) {
        Ok(d) => d,
        Err(e) => {
            return Err(e);
        },
    };
    let n = pdf.len();
    let dict = vstd::slice::slice_subrange(pdf, ds, de + 1);
    if !is_utf8(dict) {
        return Err(
            invalid("PDF round-trip only: image XObject dictionary contains non-UTF-8 bytes"),
        );
    }
    let width_key: [u8; 6] = [0x2F, 0x57, 0x69, 0x64, 0x74, 0x68];
    let height_key: [u8; 7] = [0x2F, 0x48, 0x65, 0x69, 0x67, 0x68, 0x74];
    let keyword: [u8; 6] = [0x73, 0x74, 0x72, 0x65, 0x61, 0x6D];
    proof {
        assert(width_key@ =~= width_name());
        assert(height_key@ =~= height_name());
        assert(keyword@ =~= stream_keyword());
    }
    let w = match key_value(dict, width_key.as_slice()) {
        None => {
            return Err(invalid("PDF round-trip only: image XObject missing /Width"));
        },
        Some(None) => {
            return Err(invalid("PDF round-trip only: cannot parse /Width value"));
        },
        Some(Some(w)) => w,
    };
    let h = match key_value(dict, height_key.as_slice()) {
        None => {
            return Err(invalid("PDF round-trip only: image XObject missing /Height"));
        },
        Some(None) => {
            return Err(invalid("PDF round-trip only: cannot parse /Height value"));
        },
        Some(Some(h)) => h,
    };
    let s = match find_bytes(pdf, keyword.as_slice(), de) {
        Some(s) => s,
        None => {
            return Err(
                invalid("PDF round-trip only: cannot locate stream body in image XObject"),
            );
        },
    };
    Ok((w, h, s + 6))
}

/// Whether the line ending after the image's `stream` keyword would run
/// past the end of the document; [`image_from_pdf`] and
/// [`locate_image_stream`] require that it does not.
pub fn stream_start_out_of_bounds(pdf: &[u8]) -> (r: bool)
    ensures
        r == stream_start_past_end(pdf@),
{
    match scan_header(pdf) {
        Err(_) => false,
        Ok((_, _, off)) => {
            if off < pdf.len() && pdf[off] == 0x0D {
                pdf.len() - off < 2
            } else {
                off >= pdf.len()
            }
        },
    }
}

/// Locate the grayscale image of a PhonoPaper PDF: its dimensions from the
/// image dictionary and the byte range of its compressed data.
///
/// This is a byte-pattern scan meant for PDFs written by this project; any
/// landmark that cannot be found is an `InvalidFormat` error.
pub fn locate_image_stream(pdf: &[u8]) -> (r: Result<PdfImageStream, PhonoPaperError>)
    requires
        !stream_start_past_end(pdf@),
    ensures
        match spec_pdf_stream(pdf@) {
            None => r matches Err(PhonoPaperError::InvalidFormat(m)) && spec_pdf_locate_failure(
                pdf@,
            ) == Some(m@),
            Some((w, h, s, e)) => r matches Ok(loc) && loc.width == w && loc.height == h
                && loc.data_start == s && loc.data_end == e && spec_pdf_locate_failure(pdf@) is None,
        },
        r matches Ok(loc) ==> loc.data_start <= loc.data_end <= pdf@.len(),
{
    let (w, h, off) = match scan_header(pdf) {
        Ok(x) => x,
        Err(e) => {
            return Err(e);
        },
    };
    let n = pdf.len();
    let start = if off < n && pdf[off] == 0x0D {
        off + 2
    } else {
        off + 1
    };
    let end_keyword: [u8; 9] = [0x65, 0x6E, 0x64, 0x73, 0x74, 0x72, 0x65, 0x61, 0x6D];
    proof {
        assert(end_keyword@ =~= endstream_keyword());
    }
    let e = match find_bytes(pdf, end_keyword.as_slice(), start) {
        Some(e) => e,
        None => {
            return Err(invalid("PDF round-trip only: cannot locate endstream marker"));
        },
    };
    let end = trim_ascii_end_at(pdf, start, e);
    Ok(PdfImageStream { width: w, height: h, data_start: start, data_end: end })
}

/// Rebuild the grayscale raster from the inflated pixels of a PDF image
/// of the given dimensions (see [`spec_raster_from_inflated`]).
pub fn raster_from_inflated(width: usize, height: usize, pixels: &[u8]) -> (r: Result<
    Raster,
    PhonoPaperError,
>)
    ensures
        match spec_raster_from_inflated(width as int, height as int, pixels@) {
            None => r matches Err(PhonoPaperError::InvalidFormat(m)) && m@ == size_mismatch_text(
                pixels@.len() as int,
                width as int,
                height as int,
            ),
            Some((w, h, luma)) => r matches Ok(img) && img.holds_luma(w, h, luma),
        },
{
    proof {
        assert((width as int) * (height as int) <= 0xFFFF_FFFF_FFFF_FFFF * 0xFFFF_FFFF_FFFF_FFFF)
            by (nonlinear_arith)
            requires
                0 <= width <= 0xFFFF_FFFF_FFFF_FFFFint,
                0 <= height <= 0xFFFF_FFFF_FFFF_FFFFint,
        ;
    }
    if (pixels.len() as u128) != (width as u128) * (height as u128) {
        let mut m = "PDF round-trip only: Decompressed PDF image size ".to_string();
        append_decimal(&mut m, pixels.len() as u128);
        m.append(" does not match ");
        append_decimal(&mut m, width as u128);
        m.append("×");
        append_decimal(&mut m, height as u128);
        m.append(" = ");
        append_decimal(&mut m, (width as u128) * (height as u128));
        return Err(PhonoPaperError::InvalidFormat(m));
    }
    let w = ((width as u64) % 0x1_0000_0000) as u32;
    let h = ((height as u64) % 0x1_0000_0000) as u32;
    proof {
        vstd::arithmetic::div_mod::lemma_mod_decreases(width as nat, 0x1_0000_0000);
        vstd::arithmetic::div_mod::lemma_mod_decreases(height as nat, 0x1_0000_0000);
        assert((w as int) * (h as int) <= (width as int) * (height as int)) by (nonlinear_arith)
            requires
                0 <= w <= width,
                0 <= h <= height,
        ;
    }
    let count = (w as usize) * (h as usize);
    let luma = vstd::slice::slice_subrange(pixels, 0, count);
    Ok(Raster::from_luma(w, h, luma).unwrap())
}

/// Extract the grayscale raster embedded in a PhonoPaper PDF.
///
/// The image stream is located by [`locate_image_stream`], its data is
/// inflated with zlib and the pixels are checked against the dimensions of
/// the image dictionary.  Every failure is an `InvalidFormat` error whose
/// message starts with `PDF round-trip only:` and names the failing step.
pub fn image_from_pdf(pdf: &[u8]) -> (r: Result<Raster, PhonoPaperError>)
    requires
        !stream_start_past_end(pdf@),
    ensures
        r is Ok <==> spec_image_from_pdf(pdf@) is Some,
        r matches Ok(img) ==> spec_image_from_pdf(pdf@) matches Some((w, h, luma))
            && img.holds_luma(w, h, luma),
        r matches Err(e) ==> (e matches PhonoPaperError::InvalidFormat(m) && match spec_pdf_stream(
            pdf@,
        ) {
            None => spec_pdf_locate_failure(pdf@) == Some(m@),
            Some((w, h, start, end)) => match zlib_inflated(pdf@.subrange(start, end)) {
                None => has_prefix(m@, inflate_failure_prefix()),
                Some(pixels) => m@ == size_mismatch_text(pixels.len() as int, w, h),
            },
        }),
{
    let loc = match locate_image_stream(pdf) {
        Ok(loc) => loc,
        Err(e) => {
            return Err(e);
        },
    };
    let data = vstd::slice::slice_subrange(pdf, loc.data_start, loc.data_end);
    let pixels = match inflate_zlib(data) {
        Ok(v) => v,
        Err(detail) => {
            return Err(
                invalid_with(
                    "PDF round-trip only: Failed to decompress PDF image XObject: ",
                    detail.as_str(),
                ),
            );
        },
    };
    raster_from_inflated(loc.width, loc.height, pixels.as_slice())
}

// ─── SVG writing ──────────────────────────────────────────────────────────────

/// Every byte is ASCII.
pub open spec fn all_ascii(s: Seq<u8>) -> bool {
    forall|i: int| 0 <= i < s.len() ==> #[trigger] s[i] < 0x80
}

/// The decimal digits of a non-negative number, most significant first.
pub open spec fn decimal(n: int) -> Seq<u8>
    decreases n,
{
    if n < 10 {
        seq![(0x30 + n) as u8]
    } else {
        decimal(n / 10) + seq![(0x30 + n % 10) as u8]
    }
}

/// `<svg xmlns="http://www.w3.org/2000/svg" xmlns:xlink="http://www.w3.org/1999/xlink" width="`
pub open spec fn svg_open() -> Seq<u8> {
    seq![
        0x3Cu8, 0x73, 0x76, 0x67, 0x20, 0x78, 0x6D, 0x6C, 0x6E, 0x73, 0x3D, 0x22, 0x68,
        0x74, 0x74, 0x70, 0x3A, 0x2F, 0x2F, 0x77, 0x77, 0x77, 0x2E, 0x77, 0x33, 0x2E, 0x6F,
        0x72, 0x67, 0x2F, 0x32, 0x30, 0x30, 0x30, 0x2F, 0x73, 0x76, 0x67, 0x22, 0x20, 0x78,
        0x6D, 0x6C, 0x6E, 0x73, 0x3A, 0x78, 0x6C, 0x69, 0x6E, 0x6B, 0x3D, 0x22, 0x68, 0x74,
        0x74, 0x70, 0x3A, 0x2F, 0x2F, 0x77, 0x77, 0x77, 0x2E, 0x77, 0x33, 0x2E, 0x6F, 0x72,
        0x67, 0x2F, 0x31, 0x39, 0x39, 0x39, 0x2F, 0x78, 0x6C, 0x69, 0x6E, 0x6B, 0x22, 0x20,
        0x77, 0x69, 0x64, 0x74, 0x68, 0x3D, 0x22,
    ]
}

/// `" height="`
pub open spec fn attr_height() -> Seq<u8> {
    seq![
        0x22u8, 0x20, 0x68, 0x65, 0x69, 0x67, 0x68, 0x74, 0x3D, 0x22,
    ]
}

/// `" width="`
pub open spec fn attr_width() -> Seq<u8> {
    seq![
        0x22u8, 0x20, 0x77, 0x69, 0x64, 0x74, 0x68, 0x3D, 0x22,
    ]
}

/// `" viewBox="0 0 `
pub open spec fn attr_viewbox() -> Seq<u8> {
    seq![
        0x22u8, 0x20, 0x76, 0x69, 0x65, 0x77, 0x42, 0x6F, 0x78, 0x3D, 0x22, 0x30, 0x20,
        0x30, 0x20,
    ]
}

/// ` `
pub open spec fn space() -> Seq<u8> {
    seq![
        0x20u8,
    ]
}

/// `">\n`
pub open spec fn tag_end() -> Seq<u8> {
    seq![
        0x22u8, 0x3E, 0x0A,
    ]
}

/// `<image x="0" y="0" width="`
pub open spec fn image_open() -> Seq<u8> {
    seq![
        0x3Cu8, 0x69, 0x6D, 0x61, 0x67, 0x65, 0x20, 0x78, 0x3D, 0x22, 0x30, 0x22, 0x20,
        0x79, 0x3D, 0x22, 0x30, 0x22, 0x20, 0x77, 0x69, 0x64, 0x74, 0x68, 0x3D, 0x22,
    ]
}

/// `" preserveAspectRatio="none" href="`
pub open spec fn image_href() -> Seq<u8> {
    seq![
        0x22u8, 0x20, 0x70, 0x72, 0x65, 0x73, 0x65, 0x72, 0x76, 0x65, 0x41, 0x73, 0x70,
        0x65, 0x63, 0x74, 0x52, 0x61, 0x74, 0x69, 0x6F, 0x3D, 0x22, 0x6E, 0x6F, 0x6E, 0x65,
        0x22, 0x20, 0x68, 0x72, 0x65, 0x66, 0x3D, 0x22,
    ]
}

/// `"/>\n`
pub open spec fn element_end() -> Seq<u8> {
    seq![
        0x22u8, 0x2F, 0x3E, 0x0A,
    ]
}

/// `<rect x="0" y="`
pub open spec fn rect_open() -> Seq<u8> {
    seq![
        0x3Cu8, 0x72, 0x65, 0x63, 0x74, 0x20, 0x78, 0x3D, 0x22, 0x30, 0x22, 0x20, 0x79,
        0x3D, 0x22,
    ]
}

/// `" fill="black"/>\n`
pub open spec fn rect_end() -> Seq<u8> {
    seq![
        0x22u8, 0x20, 0x66, 0x69, 0x6C, 0x6C, 0x3D, 0x22, 0x62, 0x6C, 0x61, 0x63, 0x6B,
        0x22, 0x2F, 0x3E, 0x0A,
    ]
}

/// `<line x1="0" y1="`
pub open spec fn line_open() -> Seq<u8> {
    seq![
        0x3Cu8, 0x6C, 0x69, 0x6E, 0x65, 0x20, 0x78, 0x31, 0x3D, 0x22, 0x30, 0x22, 0x20,
        0x79, 0x31, 0x3D, 0x22,
    ]
}

/// `" x2="`
pub open spec fn line_x2() -> Seq<u8> {
    seq![
        0x22u8, 0x20, 0x78, 0x32, 0x3D, 0x22,
    ]
}

/// `" y2="`
pub open spec fn line_y2() -> Seq<u8> {
    seq![
        0x22u8, 0x20, 0x79, 0x32, 0x3D, 0x22,
    ]
}

/// `" stroke="#c8c8c8" stroke-width="1"/>\n`
pub open spec fn line_end() -> Seq<u8> {
    seq![
        0x22u8, 0x20, 0x73, 0x74, 0x72, 0x6F, 0x6B, 0x65, 0x3D, 0x22, 0x23, 0x63, 0x38,
        0x63, 0x38, 0x63, 0x38, 0x22, 0x20, 0x73, 0x74, 0x72, 0x6F, 0x6B, 0x65, 0x2D, 0x77,
        0x69, 0x64, 0x74, 0x68, 0x3D, 0x22, 0x31, 0x22, 0x2F, 0x3E, 0x0A,
    ]
}

/// `</svg>\n`
pub open spec fn svg_close() -> Seq<u8> {
    seq![
        0x3Cu8, 0x2F, 0x73, 0x76, 0x67, 0x3E, 0x0A,
    ]
}

/// `<svg …>` with the document's pixel dimensions and view box.
pub open spec fn svg_header(w: int, h: int) -> Seq<u8> {
    svg_open() + decimal(w) + attr_height() + decimal(h) + attr_viewbox() + decimal(w) + space()
        + decimal(h) + tag_end()
}

/// The `<image>` element that covers the canvas with the PNG whose base64
/// text is `b64`.
pub open spec fn svg_image(w: int, h: int, b64: Seq<u8>) -> Seq<u8> {
    image_open() + decimal(w) + attr_height() + decimal(h) + image_href() + png_data_uri() + b64
        + element_end()
}

/// A black `<rect>` spanning the width at rows `y..y + h`.
pub open spec fn svg_rect(y: int, w: int, h: int) -> Seq<u8> {
    rect_open() + decimal(y) + attr_width() + decimal(w) + attr_height() + decimal(h) + rect_end()
}

/// A horizontal octave separator `<line>` at row `y`.
pub open spec fn svg_line(y: int, w: int) -> Seq<u8> {
    line_open() + decimal(y) + line_x2() + decimal(w) + line_y2() + decimal(y) + line_end()
}

/// The `<rect>` elements of the black stripes of a band whose first
/// stripe starts at row `y0`.
pub open spec fn svg_band(rows: Seq<(u8, u32)>, y0: int, w: int) -> Seq<u8>
    decreases rows.len(),
{
    if rows.len() == 0 {
        seq![]
    } else {
        svg_band(rows.drop_last(), y0, w) + if rows.last().0 == 0 {
            svg_rect(y0 + rows_height(rows.drop_last()), w, rows.last().1 as int)
        } else {
            seq![]
        }
    }
}

/// The separator lines of octaves `1..n`, at rows `band + k * p`.
pub open spec fn svg_octave_lines(band: int, p: int, w: int, n: int) -> Seq<u8>
    decreases n,
{
    if n <= 1 {
        seq![]
    } else {
        svg_octave_lines(band, p, w, n - 1) + svg_line(band + (n - 1) * p, w)
    }
}

/// The base64 text of the PNG that an SVG document embeds (empty for a
/// spectrogram without columns).
pub open spec fn spec_svg_base64(ink: &Spectrogram<u8>, o: RenderOptions) -> Seq<u8> {
    let w = ink.spec_num_columns() as int;
    if w > 0 {
        base64_encoded(png_of_gray(spec_rendered(ink, o), w as u32, spec_image_height(o) as u32))
    } else {
        seq![]
    }
}

/// The SVG document of a spectrogram: the header, the embedded PNG of the
/// full rendering, the black stripes of both marker bands as vector
/// rectangles (the bottom band mirrors the top one), the optional octave
/// separators, and the closing tag.
pub open spec fn spec_svg_text(ink: &Spectrogram<u8>, o: RenderOptions) -> Seq<u8> {
    let w = ink.spec_num_columns() as int;
    let h = spec_image_height(o);
    let band = spec_band_height(o);
    let rows = spec_marker_rows(o);
    svg_header(w, h) + (if w > 0 {
        svg_image(w, h, spec_svg_base64(ink, o))
    } else {
        seq![]
    }) + svg_band(rows, 0, w) + svg_band(rows.reverse(), band + spec_data_height(o), w) + (
    if o.draw_octave_lines {
        svg_octave_lines(band, o.px_per_octave as int, w, 8)
    } else {
        seq![]
    }) + svg_close()
}

/// What `base64::engine::general_purpose::STANDARD.encode` returns for the
/// given bytes.
pub uninterp spec fn base64_encoded(data: Seq<u8>) -> Seq<u8>;

/// A byte of the standard base64 alphabet, padding included.
pub open spec fn is_base64_char(b: u8) -> bool {
    ||| 0x41 <= b && b <= 0x5A
    ||| 0x61 <= b && b <= 0x7A
    ||| 0x30 <= b && b <= 0x39
    ||| b == 0x2B || b == 0x2F || b == 0x3D
}

/// The PNG file that the `image` crate's `PngEncoder` writes for an 8-bit
/// grayscale image.
pub uninterp spec fn png_of_gray(pixels: Seq<u8>, width: u32, height: u32) -> Seq<u8>;

/// `base64::engine::general_purpose::STANDARD.encode`.  The contract says
/// that the text is the named encoding, that it uses only the base64
/// alphabet, and that the same engine decodes it back to the input.
#[verifier::external_body]
fn encode_base64(data: &[u8]) -> (r: Vec<u8>)
    ensures
        r@ == base64_encoded(data@),
        forall|i: int| 0 <= i < r@.len() ==> is_base64_char(#[trigger] r@[i]),
        base64_decoded(r@) == Some(data@),
{
    base64::engine::general_purpose::STANDARD.encode(data).into_bytes()
}

/// PNG-encode a row-major 8-bit grayscale image with the `image` crate's
/// `PngEncoder`.  The contract says that the bytes are the named encoding
/// and that `image::load_from_memory` reads them back as the same grayscale
/// image when the pixels fit the reader's default allocation limit of
/// 512 MiB (2^29 one-byte pixels) and a row fits the PNG decoder's own row
/// buffer within that limit (at most 2^28 pixels wide).
#[verifier::external_body]
fn gray_to_png(pixels: &[u8], width: u32, height: u32) -> (r: Vec<u8>)
    requires
        pixels@.len() == (width as int) * (height as int),
        width > 0,
        height > 0,
    ensures
        r@ == png_of_gray(pixels@, width, height),
        (width as int) * (height as int) <= 0x2000_0000 && width <= 0x1000_0000 ==> decoded_image(
            r@,
        ) == Some(
            (true, width, height, pixels@),
        ),
{
    let mut png_bytes: Vec<u8> = Vec::new();
    let _ = image::codecs::png::PngEncoder::new(&mut png_bytes).write_image(
        pixels,
        width,
        height,
        image::ExtendedColorType::L8,
    );
    png_bytes
}

/// `String::from_utf8` on bytes known to be valid UTF-8.  The contract says
/// that the string holds the decoded characters.
#[verifier::external_body]
fn string_from_utf8(bytes: Vec<u8>) -> (r: String)
    requires
        valid_utf8(bytes@),
    ensures
        r@ == decode_utf8(bytes@),
{
    match String::from_utf8(bytes) {
        Ok(s) => s,
        Err(_) => String::new(),
    }
}

/// Render the whole PhonoPaper image into a new row-major grayscale
/// buffer, and return it with its width and height.
pub fn render_gray(ink: &Spectrogram<u8>, opts: &RenderOptions) -> (r: (Vec<u8>, usize, usize))
    requires
        fits(*opts),
        ink.spec_num_columns() * spec_image_height(*opts) <= usize::MAX,
        ink.spec_num_columns() > 0 ==> opts.px_per_octave > 0,
    ensures
        r.0@ == spec_rendered(ink, *opts),
        r.1 == ink.spec_num_columns(),
        r.2 == spec_image_height(*opts),
{
    let width = ink.num_columns();
    let height = opts.image_height() as usize;
    let mut gray = vec![0u8; width * height];
    if width > 0 {
        spectrogram_to_image_buf(ink, opts, gray.as_mut_slice());
    }
    proof {
        let w = width as int;
        let h = height as int;
        assert forall|i: int| 0 <= i < w * h implies gray@[i] == spec_rendered(ink, *opts)[i] by {
            let y = i / w;
            let col = i % w;
            assert(0 <= col < w && 0 <= y < h && i == y * w + col) by (nonlinear_arith)
                requires
                    0 <= i < w * h,
                    y == i / w,
                    col == i % w,
                    w > 0,
            ;
        }
        assert(gray@ =~= spec_rendered(ink, *opts));
    }
    (gray, width, height)
}

/// Append ASCII bytes.
fn push_ascii(out: &mut Vec<u8>, bytes: &[u8])
    requires
        all_ascii(old(out)@),
        all_ascii(bytes@),
    ensures
        final(out)@ == old(out)@ + bytes@,
        all_ascii(final(out)@),
{
    let ghost start = out@;
    let mut i: usize = 0;
    while i < bytes.len()
        invariant
            i <= bytes@.len(),
            all_ascii(bytes@),
            out@ == start + bytes@.take(i as int),
            all_ascii(out@),
        decreases bytes@.len() - i,
    {
        out.push(bytes[i]);
        proof {
            assert(bytes@.take(i + 1) =~= bytes@.take(i as int).push(bytes@[i as int]));
        }
        i += 1;
    }
    proof {
        assert(bytes@.take(bytes@.len() as int) =~= bytes@);
    }
}

/// Append the decimal digits of `n`.
fn push_decimal(out: &mut Vec<u8>, n: usize)
    requires
        all_ascii(old(out)@),
    ensures
        final(out)@ == old(out)@ + decimal(n as int),
        all_ascii(final(out)@),
    decreases n,
{
    if n >= 10 {
        push_decimal(out, n / 10);
    }
    out.push((0x30 + n % 10) as u8);
    proof {
        assert(final(out)@ =~= old(out)@ + decimal(n as int));
    }
}

fn push_svg_open(out: &mut Vec<u8>)
    requires
        all_ascii(old(out)@),
    ensures
        final(out)@ == old(out)@ + svg_open(),
        all_ascii(final(out)@),
{
    let bytes: [u8; 90] = [
        0x3C, 0x73, 0x76, 0x67, 0x20, 0x78, 0x6D, 0x6C, 0x6E, 0x73, 0x3D, 0x22, 0x68, 0x74,
        0x74, 0x70, 0x3A, 0x2F, 0x2F, 0x77, 0x77, 0x77, 0x2E, 0x77, 0x33, 0x2E, 0x6F, 0x72,
        0x67, 0x2F, 0x32, 0x30, 0x30, 0x30, 0x2F, 0x73, 0x76, 0x67, 0x22, 0x20, 0x78, 0x6D,
        0x6C, 0x6E, 0x73, 0x3A, 0x78, 0x6C, 0x69, 0x6E, 0x6B, 0x3D, 0x22, 0x68, 0x74, 0x74,
        0x70, 0x3A, 0x2F, 0x2F, 0x77, 0x77, 0x77, 0x2E, 0x77, 0x33, 0x2E, 0x6F, 0x72, 0x67,
        0x2F, 0x31, 0x39, 0x39, 0x39, 0x2F, 0x78, 0x6C, 0x69, 0x6E, 0x6B, 0x22, 0x20, 0x77,
        0x69, 0x64, 0x74, 0x68, 0x3D, 0x22,
    ];
    proof {
        assert(bytes@ =~= svg_open());
        lemma_fragments_ascii();
    }
    push_ascii(out, bytes.as_slice());
}

fn push_attr_height(out: &mut Vec<u8>)
    requires
        all_ascii(old(out)@),
    ensures
        final(out)@ == old(out)@ + attr_height(),
        all_ascii(final(out)@),
{
    let bytes: [u8; 10] = [
        0x22, 0x20, 0x68, 0x65, 0x69, 0x67, 0x68, 0x74, 0x3D, 0x22,
    ];
    proof {
        assert(bytes@ =~= attr_height());
        lemma_fragments_ascii();
    }
    push_ascii(out, bytes.as_slice());
}

fn push_attr_width(out: &mut Vec<u8>)
    requires
        all_ascii(old(out)@),
    ensures
        final(out)@ == old(out)@ + attr_width(),
        all_ascii(final(out)@),
{
    let bytes: [u8; 9] = [
        0x22, 0x20, 0x77, 0x69, 0x64, 0x74, 0x68, 0x3D, 0x22,
    ];
    proof {
        assert(bytes@ =~= attr_width());
        lemma_fragments_ascii();
    }
    push_ascii(out, bytes.as_slice());
}

fn push_attr_viewbox(out: &mut Vec<u8>)
    requires
        all_ascii(old(out)@),
    ensures
        final(out)@ == old(out)@ + attr_viewbox(),
        all_ascii(final(out)@),
{
    let bytes: [u8; 15] = [
        0x22, 0x20, 0x76, 0x69, 0x65, 0x77, 0x42, 0x6F, 0x78, 0x3D, 0x22, 0x30, 0x20, 0x30,
        0x20,
    ];
    proof {
        assert(bytes@ =~= attr_viewbox());
        lemma_fragments_ascii();
    }
    push_ascii(out, bytes.as_slice());
}

fn push_space(out: &mut Vec<u8>)
    requires
        all_ascii(old(out)@),
    ensures
        final(out)@ == old(out)@ + space(),
        all_ascii(final(out)@),
{
    let bytes: [u8; 1] = [
        0x20,
    ];
    proof {
        assert(bytes@ =~= space());
        lemma_fragments_ascii();
    }
    push_ascii(out, bytes.as_slice());
}

fn push_tag_end(out: &mut Vec<u8>)
    requires
        all_ascii(old(out)@),
    ensures
        final(out)@ == old(out)@ + tag_end(),
        all_ascii(final(out)@),
{
    let bytes: [u8; 3] = [
        0x22, 0x3E, 0x0A,
    ];
    proof {
        assert(bytes@ =~= tag_end());
        lemma_fragments_ascii();
    }
    push_ascii(out, bytes.as_slice());
}

fn push_image_open(out: &mut Vec<u8>)
    requires
        all_ascii(old(out)@),
    ensures
        final(out)@ == old(out)@ + image_open(),
        all_ascii(final(out)@),
{
    let bytes: [u8; 26] = [
        0x3C, 0x69, 0x6D, 0x61, 0x67, 0x65, 0x20, 0x78, 0x3D, 0x22, 0x30, 0x22, 0x20, 0x79,
        0x3D, 0x22, 0x30, 0x22, 0x20, 0x77, 0x69, 0x64, 0x74, 0x68, 0x3D, 0x22,
    ];
    proof {
        assert(bytes@ =~= image_open());
        lemma_fragments_ascii();
    }
    push_ascii(out, bytes.as_slice());
}

fn push_image_href(out: &mut Vec<u8>)
    requires
        all_ascii(old(out)@),
    ensures
        final(out)@ == old(out)@ + image_href(),
        all_ascii(final(out)@),
{
    let bytes: [u8; 35] = [
        0x22, 0x20, 0x70, 0x72, 0x65, 0x73, 0x65, 0x72, 0x76, 0x65, 0x41, 0x73, 0x70, 0x65,
        0x63, 0x74, 0x52, 0x61, 0x74, 0x69, 0x6F, 0x3D, 0x22, 0x6E, 0x6F, 0x6E, 0x65, 0x22,
        0x20, 0x68, 0x72, 0x65, 0x66, 0x3D, 0x22,
    ];
    proof {
        assert(bytes@ =~= image_href());
        lemma_fragments_ascii();
    }
    push_ascii(out, bytes.as_slice());
}

fn push_element_end(out: &mut Vec<u8>)
    requires
        all_ascii(old(out)@),
    ensures
        final(out)@ == old(out)@ + element_end(),
        all_ascii(final(out)@),
{
    let bytes: [u8; 4] = [
        0x22, 0x2F, 0x3E, 0x0A,
    ];
    proof {
        assert(bytes@ =~= element_end());
        lemma_fragments_ascii();
    }
    push_ascii(out, bytes.as_slice());
}

fn push_rect_open(out: &mut Vec<u8>)
    requires
        all_ascii(old(out)@),
    ensures
        final(out)@ == old(out)@ + rect_open(),
        all_ascii(final(out)@),
{
    let bytes: [u8; 15] = [
        0x3C, 0x72, 0x65, 0x63, 0x74, 0x20, 0x78, 0x3D, 0x22, 0x30, 0x22, 0x20, 0x79, 0x3D,
        0x22,
    ];
    proof {
        assert(bytes@ =~= rect_open());
        lemma_fragments_ascii();
    }
    push_ascii(out, bytes.as_slice());
}

fn push_rect_end(out: &mut Vec<u8>)
    requires
        all_ascii(old(out)@),
    ensures
        final(out)@ == old(out)@ + rect_end(),
        all_ascii(final(out)@),
{
    let bytes: [u8; 17] = [
        0x22, 0x20, 0x66, 0x69, 0x6C, 0x6C, 0x3D, 0x22, 0x62, 0x6C, 0x61, 0x63, 0x6B, 0x22,
        0x2F, 0x3E, 0x0A,
    ];
    proof {
        assert(bytes@ =~= rect_end());
        lemma_fragments_ascii();
    }
    push_ascii(out, bytes.as_slice());
}

fn push_line_open(out: &mut Vec<u8>)
    requires
        all_ascii(old(out)@),
    ensures
        final(out)@ == old(out)@ + line_open(),
        all_ascii(final(out)@),
{
    let bytes: [u8; 17] = [
        0x3C, 0x6C, 0x69, 0x6E, 0x65, 0x20, 0x78, 0x31, 0x3D, 0x22, 0x30, 0x22, 0x20, 0x79,
        0x31, 0x3D, 0x22,
    ];
    proof {
        assert(bytes@ =~= line_open());
        lemma_fragments_ascii();
    }
    push_ascii(out, bytes.as_slice());
}

fn push_line_x2(out: &mut Vec<u8>)
    requires
        all_ascii(old(out)@),
    ensures
        final(out)@ == old(out)@ + line_x2(),
        all_ascii(final(out)@),
{
    let bytes: [u8; 6] = [
        0x22, 0x20, 0x78, 0x32, 0x3D, 0x22,
    ];
    proof {
        assert(bytes@ =~= line_x2());
        lemma_fragments_ascii();
    }
    push_ascii(out, bytes.as_slice());
}

fn push_line_y2(out: &mut Vec<u8>)
    requires
        all_ascii(old(out)@),
    ensures
        final(out)@ == old(out)@ + line_y2(),
        all_ascii(final(out)@),
{
    let bytes: [u8; 6] = [
        0x22, 0x20, 0x79, 0x32, 0x3D, 0x22,
    ];
    proof {
        assert(bytes@ =~= line_y2());
        lemma_fragments_ascii();
    }
    push_ascii(out, bytes.as_slice());
}

fn push_line_end(out: &mut Vec<u8>)
    requires
        all_ascii(old(out)@),
    ensures
        final(out)@ == old(out)@ + line_end(),
        all_ascii(final(out)@),
{
    let bytes: [u8; 38] = [
        0x22, 0x20, 0x73, 0x74, 0x72, 0x6F, 0x6B, 0x65, 0x3D, 0x22, 0x23, 0x63, 0x38, 0x63,
        0x38, 0x63, 0x38, 0x22, 0x20, 0x73, 0x74, 0x72, 0x6F, 0x6B, 0x65, 0x2D, 0x77, 0x69,
        0x64, 0x74, 0x68, 0x3D, 0x22, 0x31, 0x22, 0x2F, 0x3E, 0x0A,
    ];
    proof {
        assert(bytes@ =~= line_end());
        lemma_fragments_ascii();
    }
    push_ascii(out, bytes.as_slice());
}

fn push_svg_close(out: &mut Vec<u8>)
    requires
        all_ascii(old(out)@),
    ensures
        final(out)@ == old(out)@ + svg_close(),
        all_ascii(final(out)@),
{
    let bytes: [u8; 7] = [
        0x3C, 0x2F, 0x73, 0x76, 0x67, 0x3E, 0x0A,
    ];
    proof {
        assert(bytes@ =~= svg_close());
        lemma_fragments_ascii();
    }
    push_ascii(out, bytes.as_slice());
}


/// No byte is a `;`.
pub open spec fn semicolon_free(s: Seq<u8>) -> bool {
    forall|i: int| 0 <= i < s.len() ==> #[trigger] s[i] != 0x3B
}

/// The digits of a number are ASCII decimal digits.
proof fn lemma_decimal_digits(n: int)
    requires
        n >= 0,
    ensures
        forall|i: int|
            0 <= i < decimal(n).len() ==> 0x30 <= #[trigger] decimal(n)[i] && decimal(n)[i]
                <= 0x39,
    decreases n,
{
    if n >= 10 {
        lemma_decimal_digits(n / 10);
        let a = decimal(n / 10);
        assert forall|i: int| 0 <= i < decimal(n).len() implies 0x30 <= #[trigger] decimal(n)[i]
            && decimal(n)[i] <= 0x39 by {
            if i < a.len() {
                assert(decimal(n)[i] == a[i]);
            }
        }
    }
}

/// Concatenations keep both properties.
proof fn lemma_concat_text(a: Seq<u8>, b: Seq<u8>)
    ensures
        all_ascii(a) && all_ascii(b) ==> all_ascii(a + b),
        semicolon_free(a) && semicolon_free(b) ==> semicolon_free(a + b),
{
    assert forall|i: int| 0 <= i < (a + b).len() implies (a + b)[i] == if i < a.len() {
        a[i]
    } else {
        b[i - a.len()]
    } by {}
}

/// ASCII text is valid UTF-8.
proof fn lemma_ascii_valid_utf8(s: Seq<u8>)
    requires
        all_ascii(s),
    ensures
        valid_utf8(s),
{
    assert(s.subrange(0, 0) =~= Seq::<u8>::empty());
    assert(vstd::utf8::partial_valid_utf8(s, 0));
    vstd::utf8::partial_valid_utf8_extend_ascii_block(s, 0, s.len() as int);
    assert(s.subrange(0, s.len() as int) =~= s);
}

/// The payload that [`image_from_svg`] extracts from a document that reads
/// `before`, the data URI prefix, base64 text and a closing quote, where
/// `before` holds no `;`, is that base64 text.
/// The first occurrence of `needle` at or after `i` is at `t` when the
/// needle's byte `k` appears nowhere in `hay[i + k..t + k]`.
proof fn lemma_first_by_marker(hay: Seq<u8>, needle: Seq<u8>, i: int, t: int, k: int)
    requires
        0 <= i <= t,
        occurs_at(hay, needle, t),
        0 <= k < needle.len(),
        forall|j: int| i + k <= j < t + k ==> hay[j] != needle[k],
    ensures
        find_from(hay, needle, i) == Some(t),
{
    assert forall|p: int| i <= p < t implies !occurs_at(hay, needle, p) by {
        if occurs_at(hay, needle, p) {
            assert(hay.subrange(p, p + needle.len())[k] == needle[k]);
        }
    }
    lemma_find_from_first(hay, needle, i, t);
}

/// The data URI prefix has its only `;` at byte 14.
proof fn lemma_uri_semicolon()
    ensures
        png_data_uri().len() == 22,
        png_data_uri()[14] == 0x3B,
        forall|i: int| 0 <= i < 14 ==> png_data_uri()[i] != 0x3B,
{
}

/// The payload that [`image_from_svg`] extracts from a document that reads
/// `before`, the data URI prefix, base64 text and a closing quote, where
/// `before` holds no `;`, is that base64 text.
proof fn lemma_svg_payload(doc: Seq<u8>, before: Seq<u8>, b64: Seq<u8>, after: Seq<u8>)
    requires
        doc == before + png_data_uri() + b64 + after,
        semicolon_free(before),
        forall|i: int| 0 <= i < b64.len() ==> is_base64_char(#[trigger] b64[i]),
        after.len() > 0,
        after[0] == 0x22,
    ensures
        spec_svg_payload(doc) == Some(b64),
{
    let uri = png_data_uri();
    lemma_uri_semicolon();
    let t = before.len() as int;
    let start = t + 22;
    let end = start + b64.len();
    assert forall|j: int| 0 <= j < t implies doc[j] == before[j] by {}
    assert forall|j: int| t <= j < start implies doc[j] == uri[j - t] by {}
    assert forall|j: int| start <= j < end implies doc[j] == b64[j - start] by {}
    assert(doc[end] == 0x22);
    assert(doc.subrange(t, start) =~= uri);
    assert forall|j: int| 0 + 14 <= j < t + 14 implies doc[j] != uri[14] by {
        if j < t {
            assert(doc[j] == before[j]);
        } else {
            assert(doc[j] == uri[j - t]);
        }
    }
    lemma_first_by_marker(doc, uri, 0, t, 14);
    let quote = seq![0x22u8];
    assert(doc.subrange(end, end + 1) =~= quote);
    assert forall|j: int| start <= j < end implies doc[j] != quote[0] by {
        assert(doc[j] == b64[j - start]);
    }
    lemma_first_by_marker(doc, quote, start, end, 0);
    assert(doc.subrange(start, end) =~= b64);
}

/// The payload of a document that starts with the header and the
/// `<image>` element is the embedded base64 text.
proof fn lemma_svg_text_payload(doc: Seq<u8>, w: int, h: int, b64: Seq<u8>, rest: Seq<u8>)
    requires
        w >= 0,
        h >= 0,
        doc == svg_header(w, h) + svg_image(w, h, b64) + rest,
        forall|i: int| 0 <= i < b64.len() ==> is_base64_char(#[trigger] b64[i]),
    ensures
        spec_svg_payload(doc) == Some(b64),
{
    let before = svg_header(w, h) + image_open() + decimal(w) + attr_height() + decimal(h)
        + image_href();
    lemma_svg_prefix_semicolon_free(w, h);
    let after = element_end() + rest;
    assert(element_end()[0] == 0x22);
    assert(doc =~= before + png_data_uri() + b64 + after);
    lemma_svg_payload(doc, before, b64, after);
}

/// Stripe heights add up along a prefix, and a prefix is no taller than
/// the whole band.
proof fn lemma_rows_height_prefix(rows: Seq<(u8, u32)>, k: int)
    requires
        1 <= k <= rows.len(),
    ensures
        rows_height(rows.take(k)) == rows_height(rows.take(k - 1)) + rows[k - 1].1,
        rows_height(rows.take(k)) <= rows_height(rows),
    decreases rows.len() - k,
{
    assert(rows.take(k).drop_last() =~= rows.take(k - 1));
    if k < rows.len() {
        lemma_rows_height_prefix(rows, k + 1);
    } else {
        assert(rows.take(k) =~= rows);
    }
}

/// The fixed text of an SVG document is ASCII.
proof fn lemma_fragments_ascii()
    ensures
        all_ascii(svg_open()),
        all_ascii(attr_height()),
        all_ascii(attr_width()),
        all_ascii(attr_viewbox()),
        all_ascii(space()),
        all_ascii(tag_end()),
        all_ascii(image_open()),
        all_ascii(image_href()),
        all_ascii(element_end()),
        all_ascii(rect_open()),
        all_ascii(rect_end()),
        all_ascii(line_open()),
        all_ascii(line_x2()),
        all_ascii(line_y2()),
        all_ascii(line_end()),
        all_ascii(svg_close()),
        all_ascii(png_data_uri()),
        semicolon_free(svg_open()),
        semicolon_free(attr_height()),
        semicolon_free(attr_width()),
        semicolon_free(attr_viewbox()),
        semicolon_free(space()),
        semicolon_free(tag_end()),
        semicolon_free(image_open()),
        semicolon_free(image_href()),
        semicolon_free(element_end()),
        semicolon_free(rect_open()),
        semicolon_free(rect_end()),
        semicolon_free(line_open()),
        semicolon_free(line_x2()),
        semicolon_free(line_y2()),
        semicolon_free(line_end()),
        semicolon_free(svg_close()),
{
    assert(all_ascii(svg_open()));
    assert(all_ascii(attr_height()));
    assert(all_ascii(attr_width()));
    assert(all_ascii(attr_viewbox()));
    assert(all_ascii(space()));
    assert(all_ascii(tag_end()));
    assert(all_ascii(image_open()));
    assert(all_ascii(image_href()));
    assert(all_ascii(element_end()));
    assert(all_ascii(rect_open()));
    assert(all_ascii(rect_end()));
    assert(all_ascii(line_open()));
    assert(all_ascii(line_x2()));
    assert(all_ascii(line_y2()));
    assert(all_ascii(line_end()));
    assert(all_ascii(svg_close()));
    assert(all_ascii(png_data_uri()));
    assert(semicolon_free(svg_open()));
    assert(semicolon_free(attr_height()));
    assert(semicolon_free(attr_width()));
    assert(semicolon_free(attr_viewbox()));
    assert(semicolon_free(space()));
    assert(semicolon_free(tag_end()));
    assert(semicolon_free(image_open()));
    assert(semicolon_free(image_href()));
    assert(semicolon_free(element_end()));
    assert(semicolon_free(rect_open()));
    assert(semicolon_free(rect_end()));
    assert(semicolon_free(line_open()));
    assert(semicolon_free(line_x2()));
    assert(semicolon_free(line_y2()));
    assert(semicolon_free(line_end()));
    assert(semicolon_free(svg_close()));
}

fn push_png_data_uri(out: &mut Vec<u8>)
    requires
        all_ascii(old(out)@),
    ensures
        final(out)@ == old(out)@ + png_data_uri(),
        all_ascii(final(out)@),
{
    let bytes: [u8; 22] = [
        0x64, 0x61, 0x74, 0x61, 0x3A, 0x69, 0x6D, 0x61, 0x67, 0x65, 0x2F,
        0x70, 0x6E, 0x67, 0x3B, 0x62, 0x61, 0x73, 0x65, 0x36, 0x34, 0x2C,
    ];
    proof {
        assert(bytes@ =~= png_data_uri());
        lemma_fragments_ascii();
    }
    push_ascii(out, bytes.as_slice());
}

/// Append a black `<rect>` element.
fn push_rect(out: &mut Vec<u8>, y: usize, w: usize, h: usize)
    requires
        all_ascii(old(out)@),
    ensures
        final(out)@ == old(out)@ + svg_rect(y as int, w as int, h as int),
        all_ascii(final(out)@),
{
    push_rect_open(out);
    push_decimal(out, y);
    push_attr_width(out);
    push_decimal(out, w);
    push_attr_height(out);
    push_decimal(out, h);
    push_rect_end(out);
    proof {
        assert(out@ =~= old(out)@ + svg_rect(y as int, w as int, h as int));
    }
}

/// Append an octave separator `<line>` element.
fn push_line(out: &mut Vec<u8>, y: usize, w: usize)
    requires
        all_ascii(old(out)@),
    ensures
        final(out)@ == old(out)@ + svg_line(y as int, w as int),
        all_ascii(final(out)@),
{
    push_line_open(out);
    push_decimal(out, y);
    push_line_x2(out);
    push_decimal(out, w);
    push_line_y2(out);
    push_decimal(out, y);
    push_line_end(out);
    proof {
        assert(out@ =~= old(out)@ + svg_line(y as int, w as int));
    }
}

/// Append the `<svg …>` header.
fn push_header(out: &mut Vec<u8>, w: usize, h: usize)
    requires
        all_ascii(old(out)@),
    ensures
        final(out)@ == old(out)@ + svg_header(w as int, h as int),
        all_ascii(final(out)@),
{
    push_svg_open(out);
    push_decimal(out, w);
    push_attr_height(out);
    push_decimal(out, h);
    push_attr_viewbox(out);
    push_decimal(out, w);
    push_space(out);
    push_decimal(out, h);
    push_tag_end(out);
    proof {
        assert(out@ =~= old(out)@ + svg_header(w as int, h as int));
    }
}

/// Append the `<image>` element that embeds the base64 PNG `b64`.
fn push_image(out: &mut Vec<u8>, w: usize, h: usize, b64: &[u8])
    requires
        all_ascii(old(out)@),
        all_ascii(b64@),
    ensures
        final(out)@ == old(out)@ + svg_image(w as int, h as int, b64@),
        all_ascii(final(out)@),
{
    push_image_open(out);
    push_decimal(out, w);
    push_attr_height(out);
    push_decimal(out, h);
    push_image_href(out);
    push_png_data_uri(out);
    push_ascii(out, b64);
    push_element_end(out);
    proof {
        assert(out@ =~= old(out)@ + svg_image(w as int, h as int, b64@));
    }
}

/// Append the `<rect>` elements of one marker band whose first stripe
/// starts at row `y0`; `mirrored` lists the stripes from the data area
/// outward (the bottom band).
fn push_band(out: &mut Vec<u8>, opts: &RenderOptions, mirrored: bool, y0: usize, width: usize)
    requires
        all_ascii(old(out)@),
        fits(*opts),
        y0 + spec_band_height(*opts) <= usize::MAX,
    ensures
        final(out)@ == old(out)@ + svg_band(
            if mirrored {
                spec_marker_rows(*opts).reverse()
            } else {
                spec_marker_rows(*opts)
            },
            y0 as int,
            width as int,
        ),
        all_ascii(final(out)@),
{
    let stripes = marker_stripe_layout(opts);
    let ghost base = rows_of(*opts, mirrored);
    proof {
        lemma_marker_rows_height(*opts);
    }
    let ghost start = out@;
    let mut y: usize = y0;
    let mut k: usize = 0;
    while k < 8
        invariant
            k <= 8,
            base == rows_of(*opts, mirrored),
            base.len() == 8,
            rows_height(base) == spec_band_height(*opts),
            y0 + spec_band_height(*opts) <= usize::MAX,
            forall|i: int|
                0 <= i < 8 ==> (#[trigger] stripes@[i]).0 == (spec_marker_rows(*opts)[i].0 == 0u8)
                    && stripes@[i].1 == spec_marker_rows(*opts)[i].1,
            y == y0 + rows_height(base.take(k as int)),
            out@ == start + svg_band(base.take(k as int), y0 as int, width as int),
            all_ascii(out@),
        decreases 8 - k,
    {
        proof {
            lemma_rows_height_prefix(base, k as int + 1);
            assert(base.take(k + 1).drop_last() =~= base.take(k as int));
            assert(base.take(k + 1).last() == base[k as int]);
        }
        let idx = if mirrored {
            7 - k
        } else {
            k
        };
        assert(base[k as int] == spec_marker_rows(*opts)[idx as int]);
        let (is_black, h) = stripes[idx];
        if is_black {
            push_rect(out, y, width, h as usize);
        }
        y = y + h as usize;
        k += 1;
        proof {
            assert(out@ =~= start + svg_band(base.take(k as int), y0 as int, width as int));
        }
    }
    proof {
        assert(base.take(8) =~= base);
    }
}

/// The stripes of a band in drawing order.
spec fn rows_of(o: RenderOptions, mirrored: bool) -> Seq<(u8, u32)> {
    if mirrored {
        spec_marker_rows(o).reverse()
    } else {
        spec_marker_rows(o)
    }
}

/// Append the seven octave separator lines.
fn push_octave_lines(out: &mut Vec<u8>, band_h: usize, ppo: usize, width: usize)
    requires
        all_ascii(old(out)@),
        band_h + 8 * ppo <= usize::MAX,
    ensures
        final(out)@ == old(out)@ + svg_octave_lines(band_h as int, ppo as int, width as int, 8),
        all_ascii(final(out)@),
{
    let ghost start = out@;
    let mut octave: usize = 1;
    while octave < 8
        invariant
            1 <= octave <= 8,
            band_h + 8 * ppo <= usize::MAX,
            out@ == start + svg_octave_lines(band_h as int, ppo as int, width as int, octave as int),
            all_ascii(out@),
        decreases 8 - octave,
    {
        assert(octave * ppo <= 8 * ppo) by (nonlinear_arith)
            requires
                octave <= 8,
        ;
        push_line(out, band_h + octave * ppo, width);
        octave += 1;
        proof {
            assert(out@ =~= start + svg_octave_lines(
                band_h as int,
                ppo as int,
                width as int,
                octave as int,
            ));
        }
    }
}

/// The text in front of the embedded image's data URI holds no `;`.
proof fn lemma_svg_prefix_semicolon_free(w: int, h: int)
    requires
        w >= 0,
        h >= 0,
    ensures
        semicolon_free(
            svg_header(w, h) + image_open() + decimal(w) + attr_height() + decimal(h)
                + image_href(),
        ),
{
    lemma_fragments_ascii();
    lemma_decimal_digits(w);
    lemma_decimal_digits(h);
    assert(semicolon_free(decimal(w)));
    assert(semicolon_free(decimal(h)));
    let parts = seq![
        svg_open(),
        decimal(w),
        attr_height(),
        decimal(h),
        attr_viewbox(),
        decimal(w),
        space(),
        decimal(h),
        tag_end(),
        image_open(),
        decimal(w),
        attr_height(),
        decimal(h),
        image_href(),
    ];
    lemma_concat_parts_free(parts, 14);
    assert(concat_parts(parts, 14) =~= svg_header(w, h) + image_open() + decimal(w) + attr_height()
        + decimal(h) + image_href()) by {
        reveal_with_fuel(concat_parts, 15);
    }
}

/// Concatenating `;`-free parts gives `;`-free text.
proof fn lemma_concat_parts_free(parts: Seq<Seq<u8>>, k: int)
    requires
        0 <= k <= parts.len(),
        forall|i: int| 0 <= i < parts.len() ==> semicolon_free(#[trigger] parts[i]),
    ensures
        semicolon_free(concat_parts(parts, k)),
    decreases k,
{
    if k > 0 {
        lemma_concat_parts_free(parts, k - 1);
        lemma_concat_text(concat_parts(parts, k - 1), parts[k - 1]);
    }
}

/// The concatenation of the first `k` parts.
spec fn concat_parts(parts: Seq<Seq<u8>>, k: int) -> Seq<u8>
    decreases k,
{
    if k <= 0 {
        Seq::empty()
    } else {
        concat_parts(parts, k - 1) + parts[k - 1]
    }
}

/// Render a spectrogram of ink levels to a self-contained SVG document.
///
/// The canvas is `num_columns × opts.image_height()` pixels.  The full
/// rendering (marker bands and data area) is embedded as a base64 PNG
/// `<image>`; the black marker stripes are drawn on top as `<rect>`
/// elements, and the octave separators as `<line>` elements when
/// `opts.draw_octave_lines` is set.
///
/// The embedded raster makes the document readable again: for a
/// spectrogram with columns, at most 2^29 pixels and at most 2^28 columns,
/// the payload that
/// [`image_from_svg`] extracts decodes to exactly the rendered image.
pub fn spectrogram_to_svg(ink: &Spectrogram<u8>, opts: &RenderOptions) -> (r: String)
    requires
        fits(*opts),
        ink.spec_num_columns() * spec_image_height(*opts) <= usize::MAX,
        ink.spec_num_columns() <= u32::MAX,
        ink.spec_num_columns() > 0 ==> opts.px_per_octave > 0,
    ensures
        encode_utf8(r@) == spec_svg_text(ink, *opts),
        ink.spec_num_columns() > 0 ==> spec_svg_payload(encode_utf8(r@)) == Some(
            spec_svg_base64(ink, *opts),
        ),
        ink.spec_num_columns() > 0 ==> (base64_decoded(spec_svg_base64(ink, *opts)) matches Some(
            png,
        ) && (ink.spec_num_columns() * spec_image_height(*opts) <= 0x2000_0000
            && ink.spec_num_columns() <= 0x1000_0000 ==> decoded_image(
            png,
        ) == Some(
            (
                true,
                ink.spec_num_columns() as u32,
                spec_image_height(*opts) as u32,
                spec_rendered(ink, *opts),
            ),
        ))),
{
    let width = ink.num_columns();
    let img_h = opts.image_height() as usize;
    let band_h = opts.marker_band_height() as usize;
    let data_h = img_h - 2 * band_h;
    let b64: Vec<u8> = if width > 0 {
        let (gray, _, _) = render_gray(ink, opts);
        let png = gray_to_png(gray.as_slice(), width as u32, img_h as u32);
        encode_base64(png.as_slice())
    } else {
        Vec::new()
    };
    assert(b64@ == spec_svg_base64(ink, *opts));
    let mut out: Vec<u8> = Vec::new();
    push_header(&mut out, width, img_h);
    let ghost header = out@;
    if width > 0 {
        push_image(&mut out, width, img_h, b64.as_slice());
    }
    let ghost with_image = out@;
    push_band(&mut out, opts, false, 0, width);
    push_band(&mut out, opts, true, band_h + data_h, width);
    if opts.draw_octave_lines {
        push_octave_lines(&mut out, band_h, opts.px_per_octave as usize, width);
    }
    push_svg_close(&mut out);
    proof {
        assert(out@ =~= spec_svg_text(ink, *opts));
        lemma_ascii_valid_utf8(out@);
        vstd::utf8::decode_utf8_encode_utf8(out@);
        if width > 0 {
            let rest = out@.subrange(with_image.len() as int, out@.len() as int);
            assert(out@ =~= with_image + rest);
            lemma_svg_text_payload(out@, width as int, img_h as int, b64@, rest);
        }
    }
    string_from_utf8(out)
}
// ─── The vector stripes match the raster ─────────────────────────────────────

/// The `<rect>` elements for the given `(row, height)` pairs, in order.
pub open spec fn svg_rects(rects: Seq<(int, int)>, w: int) -> Seq<u8>
    decreases rects.len(),
{
    if rects.len() == 0 {
        seq![]
    } else {
        svg_rects(rects.drop_last(), w) + svg_rect(rects.last().0, w, rects.last().1)
    }
}

/// Every row that one of the rectangles covers lies in the image and is
/// black in every column of the rendering.
pub open spec fn rects_on_black(ink: &Spectrogram<u8>, o: RenderOptions, rects: Seq<(int, int)>) -> bool {
    forall|i: int, y: int, c: int|
        #![trigger rects[i], spec_image_pixel(o, ink, c, y)]
        0 <= i < rects.len() && rects[i].0 <= y < rects[i].0 + rects[i].1 ==> 0 <= y
            < spec_image_height(o) && spec_image_pixel(o, ink, c, y) == 0
}

/// Every black row of the two marker bands of the rendering is covered by
/// one of the rectangles.
pub open spec fn rects_cover_bands(ink: &Spectrogram<u8>, o: RenderOptions, rects: Seq<(int, int)>) -> bool {
    let band = spec_band_height(o);
    let e = band + spec_data_height(o);
    forall|y: int, c: int|
        (0 <= y < band || e <= y < spec_image_height(o)) && #[trigger] spec_image_pixel(
            o,
            ink,
            c,
            y,
        ) == 0 ==> exists|i: int|
            #![trigger rects[i]]
            0 <= i < rects.len() && rects[i].0 <= y < rects[i].0 + rects[i].1
}

/// One more stripe of a band adds its rectangle, when it is black, below
/// the stripes before it.
proof fn lemma_svg_band_take(rows: Seq<(u8, u32)>, k: int, y0: int, w: int)
    requires
        0 <= k < rows.len(),
    ensures
        svg_band(rows.take(k + 1), y0, w) == svg_band(rows.take(k), y0, w) + if rows[k].0 == 0 {
            svg_rect(y0 + rows_height(rows.take(k)), w, rows[k].1 as int)
        } else {
            seq![]
        },
        rows_height(rows.take(k + 1)) == rows_height(rows.take(k)) + rows[k].1,
{
    assert(rows.take(k + 1).drop_last() =~= rows.take(k));
}

/// One more pair adds its rectangle after the others.
proof fn lemma_svg_rects_take(rects: Seq<(int, int)>, k: int, w: int)
    requires
        0 <= k < rects.len(),
    ensures
        svg_rects(rects.take(k + 1), w) == svg_rects(rects.take(k), w) + svg_rect(
            rects[k].0,
            w,
            rects[k].1,
        ),
{
    assert(rects.take(k + 1).drop_last() =~= rects.take(k));
}

/// The rectangles of the first `k` black stripes of a band of eight
/// stripes that alternate between light and black, starting with a light
/// one when `l` is 0 and with a black one when `l` is 1.
proof fn lemma_svg_band_four(
    rows: Seq<(u8, u32)>,
    y0: int,
    w: int,
    rects: Seq<(int, int)>,
    l: int,
    k: int,
)
    requires
        0 <= k <= 4,
        l == 0 || l == 1,
        rows.len() == 8,
        rects.len() == 4,
        forall|j: int| 0 <= j < 4 ==> (#[trigger] rows[2 * j + l]).0 != 0,
        forall|j: int| 0 <= j < 4 ==> (#[trigger] rows[2 * j + 1 - l]).0 == 0,
        forall|j: int|
            0 <= j < 4 ==> (#[trigger] rects[j]).0 == y0 + rows_height(rows.take(2 * j + 1 - l))
                && rects[j].1 == rows[2 * j + 1 - l].1 as int,
    ensures
        svg_band(rows.take(2 * k), y0, w) == svg_rects(rects.take(k), w),
    decreases k,
{
    if k == 0 {
        assert(rows.take(0) =~= Seq::<(u8, u32)>::empty());
        assert(rects.take(0) =~= Seq::<(int, int)>::empty());
    } else {
        let j = k - 1;
        lemma_svg_band_four(rows, y0, w, rects, l, j);
        assert(rows[2 * j + l].0 != 0);
        assert(rows[2 * j + 1 - l].0 == 0);
        assert(rects[j].0 == y0 + rows_height(rows.take(2 * j + 1 - l)));
        lemma_svg_band_take(rows, 2 * j, y0, w);
        lemma_svg_band_take(rows, 2 * j + 1, y0, w);
        lemma_svg_rects_take(rects, j, w);
        let a = svg_band(rows.take(2 * j), y0, w);
        let r = svg_rect(rects[j].0, w, rects[j].1);
        assert(a + seq![] =~= a);
        assert(a + r + seq![] =~= a + r);
    }
}

/// Two lists of rectangles written one after the other.
proof fn lemma_svg_rects_concat(a: Seq<(int, int)>, b: Seq<(int, int)>, w: int)
    ensures
        svg_rects(a + b, w) == svg_rects(a, w) + svg_rects(b, w),
    decreases b.len(),
{
    if b.len() == 0 {
        assert(a + b =~= a);
        assert(svg_rects(a, w) + svg_rects(b, w) =~= svg_rects(a, w));
    } else {
        assert((a + b).drop_last() =~= a + b.drop_last());
        assert((a + b).last() == b.last());
        lemma_svg_rects_concat(a, b.drop_last(), w);
        assert(svg_rects(a, w) + svg_rects(b.drop_last(), w) + svg_rect(b.last().0, w, b.last().1)
            =~= svg_rects(a, w) + (svg_rects(b.drop_last(), w) + svg_rect(
            b.last().0,
            w,
            b.last().1,
        )));
    }
}

/// The rows of the black stripes of both marker bands as `(row, height)`:
/// the four of the top band from its outer edge inward, then the four of
/// the bottom band from the data area outward.
pub open spec fn marker_rects(o: RenderOptions) -> Seq<(int, int)> {
    let e = spec_band_height(o) + spec_data_height(o);
    let m = o.margin as int;
    let t = o.thin_stripe as int;
    let g = o.marker_gap as int;
    let k = o.thick_stripe as int;
    seq![
        (m, t),
        (m + t + g, t),
        (m + 2 * t + 2 * g, k),
        (m + 2 * t + 3 * g + k, t),
        (e, t),
        (e + t + g, k),
        (e + t + 2 * g + k, t),
        (e + 2 * t + 3 * g + k, t),
    ]
}

/// The rectangles that the two bands of the SVG document hold.
#[verifier::rlimit(40)]
proof fn lemma_svg_bands_are_marker_rects(o: RenderOptions, w: int)
    ensures
        svg_band(spec_marker_rows(o), 0, w) + svg_band(
            spec_marker_rows(o).reverse(),
            spec_band_height(o) + spec_data_height(o),
            w,
        ) == svg_rects(marker_rects(o), w),
{
    let e = spec_band_height(o) + spec_data_height(o);
    let rows = spec_marker_rows(o);
    let rev = rows.reverse();
    let all = marker_rects(o);
    let top = all.take(4);
    let bottom = all.skip(4);
    assert(all =~= top + bottom);
    reveal_with_fuel(rows_height, 8);
    assert(rows.take(1) =~= seq![rows[0]]);
    assert(rows.take(3) =~= seq![rows[0], rows[1], rows[2]]);
    assert(rows.take(5) =~= seq![rows[0], rows[1], rows[2], rows[3], rows[4]]);
    assert(rows.take(7) =~= seq![rows[0], rows[1], rows[2], rows[3], rows[4], rows[5], rows[6]]);
    assert(seq![rows[0], rows[1], rows[2]].drop_last() =~= seq![rows[0], rows[1]]);
    assert(seq![rows[0], rows[1]].drop_last() =~= seq![rows[0]]);
    assert(seq![rows[0]].drop_last() =~= Seq::<(u8, u32)>::empty());
    assert(seq![rows[0], rows[1], rows[2], rows[3], rows[4]].drop_last() =~= seq![rows[0], rows[1], rows[2], rows[3]]);
    assert(seq![rows[0], rows[1], rows[2], rows[3]].drop_last() =~= seq![rows[0], rows[1], rows[2]]);
    assert(seq![rows[0], rows[1], rows[2], rows[3], rows[4], rows[5], rows[6]].drop_last() =~= seq![rows[0], rows[1], rows[2], rows[3], rows[4], rows[5]]);
    assert(seq![rows[0], rows[1], rows[2], rows[3], rows[4], rows[5]].drop_last() =~= seq![rows[0], rows[1], rows[2], rows[3], rows[4]]);
    assert(forall|j: int| 0 <= j < 4 ==> (#[trigger] rows[2 * j + 0]).0 != 0);
    assert(forall|j: int| 0 <= j < 4 ==> (#[trigger] rows[2 * j + 1 - 0]).0 == 0);
    assert(forall|j: int| 0 <= j < 4 ==> (#[trigger] top[j]).0 == 0 + rows_height(rows.take(2 * j + 1 - 0))
        && top[j].1 == rows[2 * j + 1 - 0].1 as int);
    lemma_svg_band_four(rows, 0, w, top, 0, 4);
    assert(rows.take(8) =~= rows);
    assert(top.take(4) =~= top);
    assert(rev[0] == rows[7] && rev[1] == rows[6] && rev[2] == rows[5] && rev[3] == rows[4]
        && rev[4] == rows[3] && rev[5] == rows[2] && rev[6] == rows[1] && rev[7] == rows[0]);
    assert(rev.take(0) =~= Seq::<(u8, u32)>::empty());
    assert(rev.take(2) =~= seq![rev[0], rev[1]]);
    assert(rev.take(4) =~= seq![rev[0], rev[1], rev[2], rev[3]]);
    assert(rev.take(6) =~= seq![rev[0], rev[1], rev[2], rev[3], rev[4], rev[5]]);
    assert(seq![rev[0], rev[1]].drop_last() =~= seq![rev[0]]);
    assert(seq![rev[0]].drop_last() =~= Seq::<(u8, u32)>::empty());
    assert(seq![rev[0], rev[1], rev[2], rev[3]].drop_last() =~= seq![rev[0], rev[1], rev[2]]);
    assert(seq![rev[0], rev[1], rev[2]].drop_last() =~= seq![rev[0], rev[1]]);
    assert(seq![rev[0], rev[1], rev[2], rev[3], rev[4], rev[5]].drop_last() =~= seq![rev[0], rev[1], rev[2], rev[3], rev[4]]);
    assert(seq![rev[0], rev[1], rev[2], rev[3], rev[4]].drop_last() =~= seq![rev[0], rev[1], rev[2], rev[3]]);
    assert forall|j: int| 0 <= j < 4 implies (#[trigger] rev[2 * j + 1]).0 != 0 && rev[2 * j].0
        == 0 by {
        if j == 0 {
        } else if j == 1 {
        } else if j == 2 {
        } else {
        }
    }
    assert(forall|j: int| 0 <= j < 4 ==> (#[trigger] rev[2 * j + 1 - 1]).0 == 0);
    assert(forall|j: int| 0 <= j < 4 ==> (#[trigger] bottom[j]).0 == e + rows_height(rev.take(2 * j + 1 - 1))
        && bottom[j].1 == rev[2 * j + 1 - 1].1 as int);
    lemma_svg_band_four(rev, e, w, bottom, 1, 4);
    assert(rev.take(8) =~= rev);
    assert(bottom.take(4) =~= bottom);
    lemma_svg_rects_concat(top, bottom, w);
}

/// The stripe rectangles cover exactly the black rows of the two bands.
#[verifier::rlimit(40)]
proof fn lemma_marker_rects_black(ink: &Spectrogram<u8>, o: RenderOptions)
    requires
        o.draw_octave_lines ==> o.px_per_octave > 0,
    ensures
        rects_on_black(ink, o, marker_rects(o)),
        rects_cover_bands(ink, o, marker_rects(o)),
{
    let h = spec_image_height(o);
    let band = spec_band_height(o);
    let e = band + spec_data_height(o);
    let m = o.margin as int;
    let t = o.thin_stripe as int;
    let g = o.marker_gap as int;
    let k = o.thick_stripe as int;
    let rects = marker_rects(o);
    assert forall|i: int, y: int, c: int|
        #![trigger rects[i], spec_image_pixel(o, ink, c, y)]
        0 <= i < rects.len() && rects[i].0 <= y < rects[i].0 + rects[i].1 implies 0 <= y < h
            && spec_image_pixel(o, ink, c, y) == 0 by {
        if o.draw_octave_lines {
            assert(!spec_octave_row(o, y));
        }
        if i >= 4 {
            assert(spec_stripe_luma(o, band - 1 - (y - e)) == 0);
        }
    }
    assert forall|y: int, c: int|
        (0 <= y < band || e <= y < h) && #[trigger] spec_image_pixel(o, ink, c, y) == 0 implies exists|i: int|
            #![trigger rects[i]]
            0 <= i < rects.len() && rects[i].0 <= y < rects[i].0 + rects[i].1 by {
        if o.draw_octave_lines {
            assert(!spec_octave_row(o, y));
        }
        if y < band {
            if y < m + t {
                assert(rects[0].0 <= y < rects[0].0 + rects[0].1);
            } else if y < m + 2 * t + g {
                assert(rects[1].0 <= y < rects[1].0 + rects[1].1);
            } else if y < m + 2 * t + 2 * g + k {
                assert(rects[2].0 <= y < rects[2].0 + rects[2].1);
            } else {
                assert(rects[3].0 <= y < rects[3].0 + rects[3].1);
            }
        } else {
            if y < e + t {
                assert(rects[4].0 <= y < rects[4].0 + rects[4].1);
            } else if y < e + t + g + k {
                assert(rects[5].0 <= y < rects[5].0 + rects[5].1);
            } else if y < e + 2 * t + 2 * g + k {
                assert(rects[6].0 <= y < rects[6].0 + rects[6].1);
            } else {
                assert(rects[7].0 <= y < rects[7].0 + rects[7].1);
            }
        }
    }
}

/// The vector stripes of the SVG document lie exactly on the black stripes
/// of its embedded rendering: the document is the header, the embedded
/// image, a list of `<rect>` elements each covering only rows that are
/// black in the rendering and together covering every black row of both
/// marker bands, the optional octave separators, and the closing tag.
/// (With octave lines and no data rows a separator would fall on the first
/// row of the bottom band; such options are left out.)
pub proof fn lemma_svg_rects_on_black_stripes(ink: &Spectrogram<u8>, o: RenderOptions)
    requires
        o.draw_octave_lines ==> o.px_per_octave > 0,
    ensures
        exists|rects: Seq<(int, int)>|
            #![trigger rects_on_black(ink, o, rects)]
            {
                let w = ink.spec_num_columns() as int;
                let h = spec_image_height(o);
                &&& spec_svg_text(ink, o) == svg_header(w, h) + (if w > 0 {
                    svg_image(w, h, spec_svg_base64(ink, o))
                } else {
                    seq![]
                }) + svg_rects(rects, w) + (if o.draw_octave_lines {
                    svg_octave_lines(spec_band_height(o), o.px_per_octave as int, w, 8)
                } else {
                    seq![]
                }) + svg_close()
                &&& rects_on_black(ink, o, rects)
                &&& rects_cover_bands(ink, o, rects)
            },
{
    let w = ink.spec_num_columns() as int;
    let h = spec_image_height(o);
    let e = spec_band_height(o) + spec_data_height(o);
    let rows = spec_marker_rows(o);
    let rects = marker_rects(o);
    lemma_svg_bands_are_marker_rects(o, w);
    lemma_marker_rects_black(ink, o);
    let head = svg_header(w, h) + (if w > 0 {
        svg_image(w, h, spec_svg_base64(ink, o))
    } else {
        seq![]
    });
    assert(head + svg_band(rows, 0, w) + svg_band(rows.reverse(), e, w) =~= head + svg_rects(
        rects,
        w,
    ));
}

} // verus!
