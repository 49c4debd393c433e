use phonopaper::decode::{column_amplitudes_from_image, image_to_spectrogram};
use phonopaper::error::PhonoPaperError;
use phonopaper::format::TOTAL_BINS;
use phonopaper::markers::{
    bounds_are_consistent, detect_markers, detect_markers_at_column, sample_column_detections,
    sample_detected_bounds, select_consistent_cluster, DataBounds,
};
use phonopaper::raster::{pixel_luma, Raster};
use phonopaper::render::{
    image_buf_size, marker_stripe_layout, spectrogram_to_image_buf, RenderOptions,
};
use phonopaper::spectrogram::Spectrogram;
use phonopaper::vector::render_gray;

fn rendered(ink: &Spectrogram<u8>, opts: &RenderOptions) -> Raster {
    let (gray, w, h) = render_gray(ink, opts);
    Raster::from_luma(w as u32, h as u32, &gray).unwrap()
}

#[test]
fn default_geometry() {
    let opts = RenderOptions::default();
    assert_eq!(opts.marker_band_height(), 88 + 3 * 9 + 3 * 10 + 39);
    assert_eq!(opts.image_height(), 2 * 184 + 720);
    assert_eq!(image_buf_size(3, &opts), 3 * 1088);
}

#[test]
fn stripe_layout_from_outer_edge() {
    let opts = RenderOptions::default();
    assert_eq!(
        marker_stripe_layout(&opts),
        [
            (false, 88),
            (true, 9),
            (false, 10),
            (true, 9),
            (false, 10),
            (true, 39),
            (false, 10),
            (true, 9)
        ]
    );
}

#[test]
fn blank_rendering_has_marker_bands_and_white_data() {
    let opts = RenderOptions::default();
    let ink = Spectrogram::<u8>::new(2);
    let (gray, w, h) = render_gray(&ink, &opts);
    assert_eq!((w, h), (2, 1088));
    let row = |y: usize| gray[y * w];
    // Top band, outer edge inward.
    assert_eq!(row(0), 255);
    assert_eq!(row(87), 255);
    assert_eq!(row(88), 0);
    assert_eq!(row(96), 0);
    assert_eq!(row(97), 255);
    assert_eq!(row(135), 0);
    assert_eq!(row(174), 255);
    assert_eq!(row(175), 0);
    assert_eq!(row(183), 0);
    // Data area.
    for y in 184..904 {
        assert_eq!(row(y), 255, "data row {y}");
    }
    // Bottom band mirrors the top one.
    assert_eq!(row(904), 0);
    assert_eq!(row(912), 0);
    assert_eq!(row(913), 255);
    assert_eq!(row(1087), 255);
}

#[test]
fn ink_is_drawn_inverted_on_its_bin_row() {
    let opts = RenderOptions::default();
    let mut ink = Spectrogram::<u8>::new(1);
    ink.set(0, 0, 200);
    let mut buf = vec![0u8; image_buf_size(1, &opts)];
    spectrogram_to_image_buf(&ink, &opts, &mut buf);
    // Bin 0 of a 720-row data area sits on data row (2·0 + 1)·720 / 768 = 0.
    assert_eq!(buf[184], 55);
    assert_eq!(buf[185], 255);
}

#[test]
fn octave_lines_are_light_gray() {
    let opts = RenderOptions {
        draw_octave_lines: true,
        ..RenderOptions::default()
    };
    let ink = Spectrogram::<u8>::new(1);
    let (gray, _, _) = render_gray(&ink, &opts);
    for k in 1..8 {
        assert_eq!(gray[184 + k * 90], 200);
    }
    assert_eq!(gray[184 + 45], 255);
}

#[test]
fn render_then_read_gives_back_the_ink() {
    let opts = RenderOptions::default();
    let mut ink = Spectrogram::<u8>::new(3);
    for col in 0..3 {
        for bin in 0..TOTAL_BINS {
            ink.set(col, bin, ((col * 97 + bin * 13) % 256) as u8);
        }
    }
    let image = rendered(&ink, &opts);
    let bounds = DataBounds {
        data_top: 184,
        data_bottom: 904,
    };
    let back = image_to_spectrogram(&image, Some(bounds)).unwrap();
    assert_eq!(back.num_columns(), 3);
    for col in 0..3 {
        for bin in 0..TOTAL_BINS {
            assert_eq!(back.get(col, bin), ink.get(col, bin), "col {col} bin {bin}");
        }
    }
    let column = column_amplitudes_from_image(&image, Some(bounds), 2).unwrap();
    assert_eq!(column.len(), TOTAL_BINS);
    assert_eq!(column[5], ink.get(2, 5));
}

#[test]
fn markers_of_a_blank_rendering_are_found() {
    let opts = RenderOptions::default();
    let image = rendered(&Spectrogram::<u8>::new(12), &opts);
    let b = detect_markers(&image).unwrap();
    assert_eq!((b.data_top, b.data_bottom), (184, 904));
    assert_eq!(b.height(), 720);
    let c = detect_markers_at_column(&image, 5).unwrap();
    assert_eq!((c.data_top, c.data_bottom), (184, 904));
}

#[test]
fn markers_of_a_faint_rendering_are_found() {
    let opts = RenderOptions::default();
    let mut ink = Spectrogram::<u8>::new(6);
    for bin in 0..TOTAL_BINS {
        ink.set(2, bin, 127);
        ink.set(3, bin, (bin % 128) as u8);
    }
    let image = rendered(&ink, &opts);
    for x in 0..6 {
        let c = detect_markers_at_column(&image, x).unwrap();
        assert_eq!((c.data_top, c.data_bottom), (184, 904));
    }
    let b = detect_markers(&image).unwrap();
    assert_eq!((b.data_top, b.data_bottom), (184, 904));
}

#[test]
fn markers_of_other_detectable_geometry_are_found() {
    // Thin 4, thick 12 (three thin), gaps 2 (half a thin stripe), margin 8,
    // 48 rows per octave: band 8 + 12 + 6 + 12 = 38, data 384.
    let opts = RenderOptions {
        px_per_octave: 48,
        thin_stripe: 4,
        thick_stripe: 12,
        marker_gap: 2,
        margin: 8,
        draw_octave_lines: true,
    };
    let mut ink = Spectrogram::<u8>::new(4);
    ink.set(1, 0, 100);
    ink.set(2, 383, 127);
    let image = rendered(&ink, &opts);
    assert_eq!(image.height(), 2 * 38 + 384);
    for x in 0..4 {
        let c = detect_markers_at_column(&image, x).unwrap();
        assert_eq!((c.data_top, c.data_bottom), (38, 38 + 384));
    }
    let b = detect_markers(&image).unwrap();
    assert_eq!((b.data_top, b.data_bottom), (38, 422));
}

#[test]
fn faint_rendering_decodes_back_without_bounds() {
    let opts = RenderOptions::default();
    let mut ink = Spectrogram::<u8>::new(5);
    for col in 0..5 {
        for bin in 0..TOTAL_BINS {
            ink.set(col, bin, ((col * 31 + bin * 7) % 128) as u8);
        }
    }
    let image = rendered(&ink, &opts);
    let back = image_to_spectrogram(&image, None).unwrap();
    assert_eq!(back.num_columns(), 5);
    for col in 0..5 {
        for bin in 0..TOTAL_BINS {
            assert_eq!(back.get(col, bin), ink.get(col, bin), "col {col} bin {bin}");
        }
    }
}

#[test]
fn detected_bounds_decode_the_rendering() {
    let opts = RenderOptions::default();
    let mut ink = Spectrogram::<u8>::new(10);
    ink.set(4, 300, 255);
    let image = rendered(&ink, &opts);
    let back = image_to_spectrogram(&image, None).unwrap();
    assert_eq!(back.get(4, 300), 255);
    assert_eq!(back.get(4, 299), 0);
}

#[test]
fn sampled_columns_span_the_image() {
    let opts = RenderOptions::default();
    let image = rendered(&Spectrogram::<u8>::new(11), &opts);
    let samples = sample_column_detections(&image, 3);
    let xs: Vec<u32> = samples.iter().map(|s| s.0).collect();
    assert_eq!(xs, vec![0, 5, 10]);
    assert!(samples
        .iter()
        .all(|s| s.1.map(|b| (b.data_top, b.data_bottom)) == Some((184, 904))));
    // Fewer than two requested columns still sample both ends.
    let ends: Vec<u32> = sample_column_detections(&image, 0).iter().map(|s| s.0).collect();
    assert_eq!(ends, vec![0, 10]);
    // More than the width: every column once.
    assert_eq!(sample_column_detections(&image, 50).len(), 11);
    // Rounding of 4 columns over 0..=10: 0, 3.33, 6.67, 10.
    let four: Vec<u32> = sample_column_detections(&image, 4).iter().map(|s| s.0).collect();
    assert_eq!(four, vec![0, 3, 7, 10]);
}

#[test]
fn sampled_cluster_of_a_rendering_covers_every_sample() {
    let opts = RenderOptions::default();
    let image = rendered(&Spectrogram::<u8>::new(20), &opts);
    let cluster = sample_detected_bounds(&image, 5).unwrap();
    let xs: Vec<u32> = cluster.iter().map(|a| a.0).collect();
    assert_eq!(xs, vec![0, 5, 10, 14, 19]);
    assert!(cluster
        .iter()
        .all(|a| (a.1.data_top, a.1.data_bottom) == (184, 904)));
}

#[test]
fn sampled_cluster_errors() {
    let empty = Raster::from_luma(0, 10, &[]).unwrap();
    assert_eq!(
        sample_detected_bounds(&empty, 50).unwrap_err(),
        "The image has zero width and cannot be decoded."
    );
    let white = Raster::from_luma(20, 50, &[255u8; 1000]).unwrap();
    assert!(sample_detected_bounds(&white, 50).is_err());
}

#[test]
fn white_image_has_no_markers() {
    let image = Raster::from_luma(20, 50, &[255u8; 1000]).unwrap();
    assert!(matches!(
        detect_markers(&image),
        Err(PhonoPaperError::MarkerNotFound(
            "no sufficiently wide cluster of consistent marker detections found"
        ))
    ));
    assert!(matches!(
        image_to_spectrogram(&image, None),
        Err(PhonoPaperError::MarkerNotFound(_))
    ));
}

#[test]
fn column_out_of_bounds_is_rejected() {
    let image = Raster::from_luma(4, 4, &[0u8; 16]).unwrap();
    assert!(matches!(
        detect_markers_at_column(&image, 4),
        Err(PhonoPaperError::MarkerNotFound("column out of bounds"))
    ));
    assert!(matches!(
        detect_markers_at_column(&image, 0),
        Err(PhonoPaperError::MarkerNotFound("no valid top marker pattern found"))
    ));
}

#[test]
fn zero_width_image_has_no_markers() {
    let image = Raster::from_luma(0, 10, &[]).unwrap();
    assert!(matches!(
        detect_markers(&image),
        Err(PhonoPaperError::MarkerNotFound("image has zero width"))
    ));
}

#[test]
fn cluster_of_one_sample_needs_no_height() {
    let odd = DataBounds {
        data_top: 10,
        data_bottom: 5,
    };
    let cluster = select_consistent_cluster(&[(0, Some(odd))]).unwrap();
    assert_eq!(cluster.len(), 1);
    assert_eq!((cluster[0].1.data_top, cluster[0].1.data_bottom), (10, 5));
}

#[test]
fn empty_data_area_is_invalid() {
    let image = Raster::from_luma(2, 2, &[255u8; 4]).unwrap();
    let bounds = DataBounds {
        data_top: 1,
        data_bottom: 1,
    };
    match image_to_spectrogram(&image, Some(bounds)) {
        Err(PhonoPaperError::InvalidFormat(m)) => {
            assert_eq!(m, "Data area has zero size after marker detection.");
        }
        _ => panic!("expected InvalidFormat"),
    }
    assert!(matches!(
        column_amplitudes_from_image(&image, Some(bounds), 0),
        Err(PhonoPaperError::InvalidFormat(_))
    ));
}

#[test]
fn consistency_of_neighbouring_detections() {
    let a = DataBounds {
        data_top: 100,
        data_bottom: 800,
    };
    let near = DataBounds {
        data_top: 104,
        data_bottom: 805,
    };
    let far = DataBounds {
        data_top: 140,
        data_bottom: 800,
    };
    // Step limit: 20 / 4 + 4 = 9 pixels.
    assert!(bounds_are_consistent(0, a, 20, near));
    assert!(!bounds_are_consistent(0, a, 20, far));
}

#[test]
fn widest_consistent_cluster_is_selected() {
    let b = DataBounds {
        data_top: 100,
        data_bottom: 800,
    };
    let odd = DataBounds {
        data_top: 300,
        data_bottom: 700,
    };
    let samples = [
        (0, Some(b)),
        (10, None),
        (20, Some(b)),
        (30, Some(b)),
        (40, Some(b)),
        (50, Some(odd)),
    ];
    let cluster = select_consistent_cluster(&samples).unwrap();
    let xs: Vec<u32> = cluster.iter().map(|&(x, _)| x).collect();
    assert_eq!(xs, vec![20, 30, 40]);
    let sparse = [(0, Some(b)), (10, None), (20, Some(b)), (30, None)];
    assert!(select_consistent_cluster(&sparse).is_err());
}

#[test]
fn first_of_equally_long_runs_is_selected() {
    let a = DataBounds {
        data_top: 100,
        data_bottom: 800,
    };
    let b = DataBounds {
        data_top: 300,
        data_bottom: 700,
    };
    let samples = [
        (0, Some(a)),
        (10, Some(a)),
        (20, Some(a)),
        (30, Some(b)),
        (40, Some(b)),
        (50, Some(b)),
    ];
    let cluster = select_consistent_cluster(&samples).unwrap();
    let xs: Vec<u32> = cluster.iter().map(|&(x, _)| x).collect();
    assert_eq!(xs, vec![0, 10, 20]);
}

#[test]
fn detected_bounds_lie_strictly_inside_the_image() {
    let opts = RenderOptions::default();
    let image = rendered(&Spectrogram::<u8>::new(3), &opts);
    let b = detect_markers_at_column(&image, 1).unwrap();
    assert!(0 < b.data_top && b.data_bottom < image.height());
}

#[test]
fn luma_uses_bt601_weights() {
    assert_eq!(pixel_luma([255, 255, 255, 0]), 255);
    assert_eq!(pixel_luma([255, 0, 0, 255]), 76);
    assert_eq!(pixel_luma([0, 255, 0, 255]), 149);
    assert_eq!(pixel_luma([0, 0, 255, 255]), 29);
}

#[test]
fn spectrogram_storage_and_access() {
    assert!(Spectrogram::<u8>::from_storage(2, vec![0u8; 2 * TOTAL_BINS]).is_some());
    assert!(Spectrogram::<u8>::from_storage(2, vec![0u8; 2 * TOTAL_BINS - 1]).is_none());
    let mut s = Spectrogram::<u8>::new(2);
    assert_eq!(s.num_columns(), 2);
    s.set(1, 7, 9);
    assert_eq!(s.get(1, 7), 9);
    assert_eq!(s.column(1).unwrap()[7], 9);
    assert!(s.column(2).is_none());
    assert_eq!(s.column_or_panic(0).len(), TOTAL_BINS);
}

#[test]
fn error_messages_name_the_failure() {
    let image = Raster::from_luma(0, 10, &[]).unwrap();
    let err = detect_markers(&image).unwrap_err();
    assert_eq!(
        err.message(),
        "PhonoPaper marker bands not found in image: image has zero width"
    );
    let bounds = DataBounds {
        data_top: 0,
        data_bottom: 0,
    };
    let flat = Raster::from_luma(1, 1, &[0]).unwrap();
    let err = image_to_spectrogram(&flat, Some(bounds)).unwrap_err();
    assert!(err.message().starts_with("Invalid format: "));
}

#[test]
fn column_reader_error_messages() {
    let image = Raster::from_luma(2, 4, &[255u8; 8]).unwrap();
    let bounds = DataBounds {
        data_top: 1,
        data_bottom: 3,
    };
    match column_amplitudes_from_image(&image, Some(bounds), 2) {
        Err(PhonoPaperError::InvalidFormat(m)) => {
            assert_eq!(m, "col_x is out of range for image width");
        }
        _ => panic!("expected InvalidFormat"),
    }
    let empty = DataBounds {
        data_top: 2,
        data_bottom: 2,
    };
    match column_amplitudes_from_image(&image, Some(empty), 0) {
        Err(PhonoPaperError::InvalidFormat(m)) => {
            assert_eq!(m, "Data area has zero height after marker detection.");
        }
        _ => panic!("expected InvalidFormat"),
    }
}

#[test]
fn cluster_error_message() {
    let sparse = [(0, None), (10, None)];
    assert_eq!(
        select_consistent_cluster(&sparse).unwrap_err(),
        "No sufficiently wide `PhonoPaper` marker cluster found in the supplied image."
    );
}
