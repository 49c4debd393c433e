use phonopaper::cli::{
    default_output, format_for_extension, output_format, output_path, page_tenths_mm,
    paper_tenths_mm, PaperFormat,
};

#[test]
fn paper_sizes_in_tenths_of_millimetres() {
    assert_eq!(paper_tenths_mm(PaperFormat::A4), (2100, 2970));
    assert_eq!(paper_tenths_mm(PaperFormat::A3), (2970, 4200));
    assert_eq!(paper_tenths_mm(PaperFormat::Letter), (2159, 2794));
    assert_eq!(paper_tenths_mm(PaperFormat::Legal), (2159, 3556));
}

#[test]
fn landscape_puts_the_long_side_across() {
    assert_eq!(page_tenths_mm(PaperFormat::A4, false), (2970, 2100));
    assert_eq!(page_tenths_mm(PaperFormat::A4, true), (2100, 2970));
}

#[test]
fn output_path_parts() {
    assert_eq!(output_path("x", Some("code"), Some("dir"), "wav"), "dir/code.wav");
    assert_eq!(output_path("x", Some("code"), Some("."), "wav"), "code.wav");
    assert_eq!(output_path("x", Some("code"), Some(""), "wav"), "code.wav");
    assert_eq!(output_path("noext", None, None, "png"), "noext.png");
}

#[test]
fn default_output_swaps_the_extension() {
    assert_eq!(default_output("code.png", "wav"), "code.wav");
    assert_eq!(default_output("music/input.mp3", "png"), "music/input.png");
    assert_eq!(default_output("./a.b.c", "svg"), "a.b.svg");
}

#[test]
fn output_format_from_extension() {
    assert_eq!(output_format("out.SVG"), "svg");
    assert_eq!(output_format("out.pdf"), "pdf");
    assert_eq!(output_format("out.JPG"), "jpeg");
    assert_eq!(output_format("out.jpeg"), "jpeg");
    assert_eq!(output_format("out.png"), "png");
    assert_eq!(output_format("out"), "png");
    assert_eq!(output_format("out.tiff"), "png");
    assert_eq!(format_for_extension(Some("svg")), "svg");
    assert_eq!(format_for_extension(None), "png");
}

#[test]
fn plain_file_names_split_at_the_last_dot() {
    assert_eq!(default_output("song.tar.gz", "wav"), "song.tar.wav");
    assert_eq!(default_output(".hidden", "wav"), ".hidden.wav");
    assert_eq!(default_output("trailing.", "png"), "trailing.png");
    assert_eq!(output_format(".pdf"), "png");
    assert_eq!(output_format("scan.tar.PDF"), "pdf");
    assert_eq!(output_format("trailing."), "png");
}

#[test]
fn relative_paths_keep_their_directory() {
    assert_eq!(default_output("music/song.wav", "png"), "music/song.png");
    assert_eq!(default_output("a/b/c.tar.gz", "wav"), "a/b/c.tar.wav");
    assert_eq!(output_format("out/song.svg"), "svg");
    assert_eq!(output_format("out.d/song"), "png");
}
