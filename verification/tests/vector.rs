use base64::Engine as _;
use image::ImageEncoder as _;
use phonopaper::error::PhonoPaperError;
use phonopaper::nn::prepare_image;
use phonopaper::raster::Raster;
use phonopaper::render::RenderOptions;
use phonopaper::spectrogram::Spectrogram;
use phonopaper::vector::{
    image_from_pdf, image_from_svg, locate_image_stream, raster_from_bytes, raster_from_inflated,
    render_gray,
    spectrogram_to_svg, stream_start_out_of_bounds, PdfImageStream,
};

fn luma_of(img: &Raster) -> Vec<u8> {
    let mut out = Vec::new();
    for y in 0..img.height() {
        for x in 0..img.width() {
            out.push(img.get_pixel(x, y)[0]);
        }
    }
    out
}

/// A minimal PDF holding one FlateDecode image XObject, laid out as the
/// project's PDF writer lays it out.
fn pdf_with_image(dict_dims: &str, pixels: &[u8]) -> Vec<u8> {
    let compressed = miniz_oxide::deflate::compress_to_vec_zlib(pixels, 6);
    let mut pdf: Vec<u8> = Vec::new();
    pdf.extend_from_slice(b"%PDF-1.7\n1 0 obj\n<< /Type /Catalog /Pages 2 0 R >>\nendobj\n");
    pdf.extend_from_slice(b"4 0 obj\n<<\n  /Type /XObject\n  /Subtype /Image\n  /Filter /FlateDecode\n");
    pdf.extend_from_slice(dict_dims.as_bytes());
    pdf.extend_from_slice(
        format!("  /ColorSpace /DeviceGray\n  /BitsPerComponent 8\n  /Length {}\n>>\nstream\n", compressed.len())
            .as_bytes(),
    );
    pdf.extend_from_slice(&compressed);
    pdf.extend_from_slice(b"\nendstream\nendobj\n%%EOF\n");
    pdf
}

#[test]
fn svg_starts_with_svg_element() {
    let spec = Spectrogram::<u8>::new(2);
    let svg = spectrogram_to_svg(&spec, &RenderOptions::default());
    assert!(svg.starts_with("<svg "));
    assert!(svg.ends_with("</svg>\n"));
    assert!(svg.contains("width=\"2\" height=\"1088\""));
    assert_eq!(svg.matches("fill=\"black\"").count(), 8);
}

#[test]
fn svg_round_trip_gives_back_the_rendering() {
    let opts = RenderOptions::default();
    let mut ink = Spectrogram::<u8>::new(4);
    ink.set(1, 10, 255);
    ink.set(3, 200, 128);
    let svg = spectrogram_to_svg(&ink, &opts);
    let img = image_from_svg(&svg).unwrap();
    let (gray, w, h) = render_gray(&ink, &opts);
    assert_eq!((img.width() as usize, img.height() as usize), (w, h));
    assert_eq!(luma_of(&img), gray);
}

#[test]
fn svg_without_columns_has_no_image() {
    let svg = spectrogram_to_svg(&Spectrogram::<u8>::new(0), &RenderOptions::default());
    assert!(!svg.contains("<image"));
    assert!(matches!(
        image_from_svg(&svg),
        Err(PhonoPaperError::InvalidFormat(_))
    ));
}

#[test]
fn svg_octave_lines() {
    let opts = RenderOptions {
        draw_octave_lines: true,
        ..RenderOptions::default()
    };
    let svg = spectrogram_to_svg(&Spectrogram::<u8>::new(1), &opts);
    assert_eq!(svg.matches("<line ").count(), 7);
    assert!(svg.contains("<line x1=\"0\" y1=\"274\" x2=\"1\" y2=\"274\" stroke=\"#c8c8c8\" stroke-width=\"1\"/>"));
}

#[test]
fn svg_reader_errors() {
    assert!(matches!(
        image_from_svg("<svg></svg>"),
        Err(PhonoPaperError::InvalidFormat(_))
    ));
    assert!(matches!(
        image_from_svg("<image href=\"data:image/png;base64,AAAA"),
        Err(PhonoPaperError::InvalidFormat(_))
    ));
    assert!(matches!(
        image_from_svg("<image href=\"data:image/png;base64,@@@@\"/>"),
        Err(PhonoPaperError::InvalidFormat(_))
    ));
    // Valid base64 of bytes that are no image.
    assert!(matches!(
        image_from_svg("<image href=\"data:image/png;base64,AAAA\"/>"),
        Err(PhonoPaperError::ImageError(_))
    ));
}

#[test]
fn svg_reader_decodes_an_rgb_png() {
    let img = image::RgbImage::from_raw(2, 1, vec![255, 0, 0, 0, 0, 255]).unwrap();
    let mut png: Vec<u8> = Vec::new();
    image::DynamicImage::ImageRgb8(img)
        .write_to(&mut std::io::Cursor::new(&mut png), image::ImageFormat::Png)
        .unwrap();
    let b64 = base64::engine::general_purpose::STANDARD.encode(&png);
    let svg = format!("<svg><image href=\"data:image/png;base64,{b64}\"/></svg>");
    let raster = image_from_svg(&svg).unwrap();
    assert_eq!(raster.get_pixel(0, 0), [255, 0, 0, 255]);
    assert_eq!(raster.get_pixel(1, 0), [0, 0, 255, 255]);
}

#[test]
fn pdf_round_trip_of_a_gray_image() {
    let pixels: Vec<u8> = (0..6).map(|v| v * 40).collect();
    let pdf = pdf_with_image("  /Width 3\n  /Height 2\n", &pixels);
    assert!(!stream_start_out_of_bounds(&pdf));
    let img = image_from_pdf(&pdf).unwrap();
    assert_eq!((img.width(), img.height()), (3, 2));
    assert_eq!(luma_of(&img), pixels);
    assert_eq!(img.get_pixel(1, 1), [160, 160, 160, 255]);
}

#[test]
fn pdf_stream_location() {
    let pixels = [7u8; 4];
    let pdf = pdf_with_image("/Width 2 /Height 2\n", &pixels);
    let loc = locate_image_stream(&pdf).unwrap();
    let start = pdf.windows(7).position(|w| w == b"stream\n").unwrap() + 7;
    let end = pdf.windows(9).position(|w| w == b"endstream").unwrap() - 1;
    assert_eq!(
        loc,
        PdfImageStream {
            width: 2,
            height: 2,
            data_start: start,
            data_end: end
        }
    );
}

#[test]
fn pdf_dimensions_after_unicode_space_and_plus_sign() {
    let pixels = [1u8, 2, 3, 4, 5, 6];
    let pdf = pdf_with_image("/Width\u{a0}+2 /Height\u{2003}3\n", &pixels);
    let img = image_from_pdf(&pdf).unwrap();
    assert_eq!((img.width(), img.height()), (2, 3));
}

#[test]
fn pdf_reader_errors() {
    let pixels = [0u8; 4];
    let no_flate = b"%PDF-1.7\n<< /Width 2 /Height 2 >>\nstream\nxx\nendstream\n";
    assert!(matches!(
        image_from_pdf(no_flate),
        Err(PhonoPaperError::InvalidFormat(_))
    ));
    let missing_width = pdf_with_image("/Height 2\n", &pixels);
    assert!(matches!(
        image_from_pdf(&missing_width),
        Err(PhonoPaperError::InvalidFormat(_))
    ));
    let bad_width = pdf_with_image("/Width 2x /Height 2\n", &pixels);
    assert!(matches!(
        image_from_pdf(&bad_width),
        Err(PhonoPaperError::InvalidFormat(_))
    ));
    let wrong_size = pdf_with_image("/Width 3 /Height 2\n", &pixels);
    assert!(matches!(
        image_from_pdf(&wrong_size),
        Err(PhonoPaperError::InvalidFormat(_))
    ));
    let mut not_zlib = pdf_with_image("/Width 2 /Height 2\n", &pixels);
    let start = not_zlib.windows(7).position(|w| w == b"stream\n").unwrap() + 7;
    not_zlib[start] = 0xFF;
    assert!(matches!(
        image_from_pdf(&not_zlib),
        Err(PhonoPaperError::InvalidFormat(_))
    ));
    let no_end = b"<< /Filter /FlateDecode /Width 1 /Height 1 >>\nstream\nabc";
    assert!(matches!(
        image_from_pdf(no_end),
        Err(PhonoPaperError::InvalidFormat(_))
    ));
}

#[test]
fn pdf_cut_after_stream_keyword_is_flagged() {
    let cut = b"<< /Filter /FlateDecode /Width 1 /Height 1 >>\nstream";
    assert!(stream_start_out_of_bounds(cut));
    let cut_crlf = b"<< /Filter /FlateDecode /Width 1 /Height 1 >>\nstream\r";
    assert!(stream_start_out_of_bounds(cut_crlf));
    let ok = b"<< /Filter /FlateDecode /Width 1 /Height 1 >>\nstream\n";
    assert!(!stream_start_out_of_bounds(ok));
}

#[test]
fn inflated_pixels_must_match_dimensions() {
    let img = raster_from_inflated(2, 2, &[1, 2, 3, 4]).unwrap();
    assert_eq!(img.get_pixel(1, 1), [4, 4, 4, 255]);
    assert!(matches!(
        raster_from_inflated(2, 3, &[1, 2, 3, 4]),
        Err(PhonoPaperError::InvalidFormat(_))
    ));
}

#[test]
fn prepared_detector_input_is_square() {
    let img = Raster::from_rgba(2, 2, vec![255u8; 16]).unwrap();
    let prepared = prepare_image(&img, 3);
    assert_eq!(prepared.len(), 9);
    let wide = Raster::from_luma(8, 4, &[0u8; 32]).unwrap();
    assert_eq!(prepare_image(&wide, 5).len(), 25);
}

#[test]
fn pdf_dictionary_must_be_utf8() {
    let pixels = [0u8; 4];
    let mut pdf = pdf_with_image("/Width 2 /Height 2 /Name (\u{7f})\n", &pixels);
    let pos = pdf.iter().position(|&b| b == 0x7f).unwrap();
    pdf[pos] = 0xFF;
    assert!(matches!(
        image_from_pdf(&pdf),
        Err(PhonoPaperError::InvalidFormat(_))
    ));
}

#[test]
fn reject_invalid_image_bytes() {
    let err = match raster_from_bytes(b"not an image") {
        Ok(_) => panic!("invalid input should fail"),
        Err(e) => e,
    };
    assert!(matches!(err, PhonoPaperError::ImageError(_)));
    assert_ne!(err.message().len(), 0, "error message must not be empty");
}

#[test]
fn gray_png_bytes_decode_to_a_gray_raster() {
    let mut png = Vec::new();
    image::codecs::png::PngEncoder::new(&mut png)
        .write_image(&[0u8, 200, 255], 3, 1, image::ExtendedColorType::L8)
        .unwrap();
    let img = raster_from_bytes(&png).unwrap();
    assert_eq!((img.width(), img.height()), (3, 1));
    assert_eq!(img.get_pixel(1, 0), [200, 200, 200, 255]);
    assert_eq!(img.get_pixel(2, 0), [255, 255, 255, 255]);
}

fn invalid_text(r: Result<Raster, PhonoPaperError>) -> String {
    match r {
        Err(PhonoPaperError::InvalidFormat(m)) => m,
        Err(e) => panic!("unexpected error {}", e.message()),
        Ok(_) => panic!("unexpected success"),
    }
}

#[test]
fn svg_reader_error_messages() {
    assert_eq!(
        invalid_text(image_from_svg("<svg xmlns=\"http://www.w3.org/2000/svg\"></svg>")),
        "SVG does not contain a data:image/png;base64, image element"
    );
    assert_eq!(
        invalid_text(image_from_svg("<image href=\"data:image/png;base64,AAAA")),
        "Malformed SVG: unterminated base64 data URI"
    );
    assert!(invalid_text(image_from_svg("<image href=\"data:image/png;base64,@@@@\"/>"))
        .starts_with("invalid base64: "));
}

#[test]
fn pdf_reader_error_messages() {
    let pixels = [0u8; 4];
    let no_flate = b"%PDF-1.7\n<< /Width 2 /Height 2 >>\nstream\nxx\nendstream\n";
    assert_eq!(
        invalid_text(image_from_pdf(no_flate)),
        "PDF round-trip only: no FlateDecode stream found (not a phonopaper-rs PDF?)"
    );
    assert_eq!(
        invalid_text(image_from_pdf(&pdf_with_image("/Height 2\n", &pixels))),
        "PDF round-trip only: image XObject missing /Width"
    );
    assert_eq!(
        invalid_text(image_from_pdf(&pdf_with_image("/Width 2x /Height 2\n", &pixels))),
        "PDF round-trip only: cannot parse /Width value"
    );
    assert_eq!(
        invalid_text(image_from_pdf(&pdf_with_image("/Width 3 /Height 2\n", &pixels))),
        "PDF round-trip only: Decompressed PDF image size 4 does not match 3×2 = 6"
    );
    let not_zlib = b"<< /Filter /FlateDecode /Width 1 /Height 1 >>\nstream\nXY\nendstream";
    assert!(invalid_text(image_from_pdf(not_zlib))
        .starts_with("PDF round-trip only: Failed to decompress PDF image XObject: "));
    let no_end = b"<< /Filter /FlateDecode /Width 1 /Height 1 >>\nstream\nabc";
    assert_eq!(
        invalid_text(image_from_pdf(no_end)),
        "PDF round-trip only: cannot locate endstream marker"
    );
    assert_eq!(
        invalid_text(raster_from_inflated(2, 3, &[1, 2, 3, 4])),
        "PDF round-trip only: Decompressed PDF image size 4 does not match 2×3 = 6"
    );
}
