//! Options and path rules of the `phonopaper` command-line tool.

use vstd::prelude::*;
use vstd::string::{StrSliceExecFns, StringExecFns};

verus! {

/// Supported paper formats of the blank template.
#[derive(Clone, Copy, Debug, PartialEq, Eq)]
pub enum PaperFormat {
    /// ISO A4 (210 × 297 mm)
    A4,
    /// ISO A3 (297 × 420 mm)
    A3,
    /// US Letter (215.9 × 279.4 mm)
    Letter,
    /// US Legal (215.9 × 355.6 mm)
    Legal,
}

/// Arguments of the `blank` sub-command.
#[derive(Debug)]
pub struct BlankArgs {
    /// Output PDF file path.
    pub output: String,
    /// Paper format.
    pub paper: PaperFormat,
    /// Use portrait orientation (default is landscape).
    pub portrait: bool,
}

/// PDF page size choices of the `encode` sub-command.
#[derive(Clone, Copy, Debug, PartialEq, Eq)]
pub enum PdfPageArg {
    /// A4 landscape — 297 × 210 mm (default).
    A4Landscape,
    /// A4 portrait — 210 × 297 mm.
    A4Portrait,
    /// A3 landscape — 420 × 297 mm.
    A3Landscape,
    /// A3 portrait — 297 × 420 mm.
    A3Portrait,
    /// US Letter landscape — 11 × 8.5 in.
    LetterLandscape,
    /// US Letter portrait — 8.5 × 11 in.
    LetterPortrait,
    /// No page framing: PDF page = image pixels (1 px = 1 pt).
    PixelPerfect,
}

/// The paper dimensions in tenths of a millimetre, `(short side, long
/// side)`.
pub open spec fn spec_paper_tenths_mm(format: PaperFormat) -> (u32, u32) {
    match format {
        PaperFormat::A4 => (2100, 2970),
        PaperFormat::A3 => (2970, 4200),
        PaperFormat::Letter => (2159, 2794),
        PaperFormat::Legal => (2159, 3556),
    }
}

/// The paper dimensions in tenths of a millimetre, `(short side, long
/// side)`.
pub fn paper_tenths_mm(format: PaperFormat) -> (r: (u32, u32))
    ensures
        r == spec_paper_tenths_mm(format),
{
    match format {
        PaperFormat::A4 => (2100, 2970),
        PaperFormat::A3 => (2970, 4200),
        PaperFormat::Letter => (2159, 2794),
        PaperFormat::Legal => (2159, 3556),
    }
}

/// The page `(width, height)` in tenths of a millimetre: the long side is
/// horizontal unless the page is portrait.
pub fn page_tenths_mm(format: PaperFormat, portrait: bool) -> (r: (u32, u32))
    ensures
        portrait ==> r == spec_paper_tenths_mm(format),
        !portrait ==> r == (spec_paper_tenths_mm(format).1, spec_paper_tenths_mm(format).0),
{
    let (short, long) = paper_tenths_mm(format);
    if portrait {
        (short, long)
    } else {
        (long, short)
    }
}

/// The output path derived from an input path: the input's stem (the
/// whole input when it has none) with the extension `ext`, placed in the
/// input's directory unless that directory is the current one (`.`, empty
/// or unknown).
pub open spec fn spec_output_path(
    input: Seq<char>,
    stem: Option<Seq<char>>,
    dir: Option<Seq<char>>,
    ext: Seq<char>,
) -> Seq<char> {
    let s = match stem {
        Some(s) => s,
        None => input,
    };
    let d = match dir {
        Some(d) => d,
        None => seq!['.'],
    };
    if d == seq!['.'] || d.len() == 0 {
        s + seq!['.'] + ext
    } else {
        d + seq!['/'] + s + seq!['.'] + ext
    }
}

/// The characters of an optional string.
pub open spec fn opt_chars(s: Option<&str>) -> Option<Seq<char>> {
    match s {
        Some(s) => Some(s@),
        None => None,
    }
}

/// The text is a single plain file name on every platform: it holds no
/// path separator or drive-prefix character (`/`, `\`, `:`) and is neither
/// `.` nor `..`.
pub open spec fn plain_file_name(s: Seq<char>) -> bool {
    &&& forall|i: int| 0 <= i < s.len() ==> #[trigger] s[i] != '/' && s[i] != '\\' && s[i] != ':'
    &&& s != seq!['.']
    &&& s != seq!['.', '.']
}

/// The position of the last `.` in the text.
pub open spec fn last_dot(s: Seq<char>) -> Option<int>
    decreases s.len(),
{
    if s.len() == 0 {
        None
    } else if s.last() == '.' {
        Some(s.len() - 1)
    } else {
        last_dot(s.drop_last())
    }
}

/// The extension of a file name: the text after its last `.`, except when
/// it has no `.` or begins with its only `.`.
pub open spec fn name_extension(name: Seq<char>) -> Option<Seq<char>> {
    match last_dot(name) {
        None => None,
        Some(i) => if i == 0 {
            None
        } else {
            Some(name.subrange(i + 1, name.len() as int))
        },
    }
}

/// The stem of a file name: the text before its last `.`, or the whole name
/// when it has no `.` or begins with its only `.`; none for an empty name.
pub open spec fn name_stem(name: Seq<char>) -> Option<Seq<char>> {
    if name.len() == 0 {
        None
    } else {
        match last_dot(name) {
            None => Some(name),
            Some(i) => if i == 0 {
                Some(name)
            } else {
                Some(name.subrange(0, i))
            },
        }
    }
}

/// The parent of a single file name: the empty path, or none for an empty
/// name.
pub open spec fn name_parent(name: Seq<char>) -> Option<Seq<char>> {
    if name.len() == 0 {
        None
    } else {
        Some(Seq::empty())
    }
}

/// The position of the last `/` in the text.
pub open spec fn last_slash(s: Seq<char>) -> Option<int>
    decreases s.len(),
{
    if s.len() == 0 {
        None
    } else if s.last() == '/' {
        Some(s.len() - 1)
    } else {
        last_slash(s.drop_last())
    }
}

/// `s[i..j]` is one component of a `/`-separated path.
pub open spec fn is_component(s: Seq<char>, i: int, j: int) -> bool {
    &&& 0 <= i <= j <= s.len()
    &&& (i == 0 || s[i - 1] == '/')
    &&& (j == s.len() || s[j] == '/')
    &&& forall|k: int| i <= k < j ==> s[k] != '/'
}

/// The text is a relative path that reads alike on every platform: file
/// names joined by single `/`, with no leading or trailing `/`, no `\` or
/// `:`, and no component that is `.` or `..`.
pub open spec fn simple_relative_path(s: Seq<char>) -> bool {
    &&& s.len() > 0
    &&& s[0] != '/'
    &&& s.last() != '/'
    &&& forall|k: int| 0 <= k < s.len() ==> #[trigger] s[k] != '\\' && s[k] != ':'
    &&& forall|k: int| 0 <= k < s.len() - 1 ==> !(#[trigger] s[k] == '/' && s[k + 1] == '/')
    &&& forall|i: int, j: int| #[trigger]
        is_component(s, i, j) ==> s.subrange(i, j) != seq!['.'] && s.subrange(i, j) != seq![
            '.',
            '.',
        ]
}

/// The last component of a `/`-separated path: the text after its last `/`.
pub open spec fn last_component(s: Seq<char>) -> Seq<char> {
    match last_slash(s) {
        None => s,
        Some(i) => s.subrange(i + 1, s.len() as int),
    }
}

/// The directory part of a `/`-separated path: the text before its last
/// `/`, or the empty path when there is none.
pub open spec fn directory_part(s: Seq<char>) -> Seq<char> {
    match last_slash(s) {
        None => Seq::empty(),
        Some(i) => s.subrange(0, i),
    }
}

/// The characters of an optional owned string.
pub open spec fn opt_text(s: Option<String>) -> Option<Seq<char>> {
    match s {
        Some(s) => Some(s@),
        None => None,
    }
}

/// `Path::file_stem` of a path, as UTF-8.  What it returns depends on the
/// platform's path syntax; the contract states only what the documentation
/// gives where every platform parses alike.  For a plain file name, whose
/// file name is the path itself: the whole name when it has no `.` or
/// begins with its only `.`, otherwise the text before the last `.`, and
/// nothing for an empty path.  For a simple relative path, whose file name
/// is its last component: the same rule on that component.
#[verifier::external_body]
fn path_file_stem(path: &str) -> (r: Option<String>)
    ensures
        plain_file_name(path@) ==> opt_text(r) == name_stem(path@),
        simple_relative_path(path@) ==> opt_text(r) == name_stem(last_component(path@)),
{
    match std::path::Path::new(path).file_stem() {
        Some(stem) => match stem.to_str() {
            Some(s) => Some(s.to_string()),
            None => None,
        },
        None => None,
    }
}

/// `Path::parent` of a path, as UTF-8.  What it returns depends on the
/// platform's path syntax; the contract states only what the documentation
/// gives where every platform parses alike: for a plain file name the empty
/// path, and nothing for the empty path itself; for a simple relative path
/// the path without its last component, which is the text before the last
/// `/` (or the empty path).
#[verifier::external_body]
fn path_parent(path: &str) -> (r: Option<String>)
    ensures
        plain_file_name(path@) ==> opt_text(r) == name_parent(path@),
        simple_relative_path(path@) ==> opt_text(r) == Some(directory_part(path@)),
{
    match std::path::Path::new(path).parent() {
        Some(dir) => match dir.to_str() {
            Some(s) => Some(s.to_string()),
            None => None,
        },
        None => None,
    }
}

/// `Path::extension` of a path, as UTF-8.  What it returns depends on the
/// platform's path syntax; the contract states only what the documentation
/// gives where every platform parses alike.  For a plain file name, whose
/// file name is the path itself: the text after the last `.`, and nothing
/// when there is no `.` or the name begins with its only `.`.  For a simple
/// relative path, whose file name is its last component: the same rule on
/// that component.
#[verifier::external_body]
fn path_extension(path: &str) -> (r: Option<String>)
    ensures
        plain_file_name(path@) ==> opt_text(r) == name_extension(path@),
        simple_relative_path(path@) ==> opt_text(r) == name_extension(last_component(path@)),
{
    match std::path::Path::new(path).extension() {
        Some(ext) => match ext.to_str() {
            Some(s) => Some(s.to_string()),
            None => None,
        },
        None => None,
    }
}

/// What `str::to_lowercase` returns for the given text.
pub uninterp spec fn lowercased(s: Seq<char>) -> Seq<char>;

/// `str::to_lowercase`.  The contract says that the result is the named
/// lowercase mapping.
#[verifier::external_body]
fn to_lowercase(s: &str) -> (r: String)
    ensures
        r@ == lowercased(s@),
{
    s.to_lowercase()
}

/// Whether the text is exactly `expected`.
fn same_text(s: &str, expected: &str) -> (r: bool)
    ensures
        r == (s@ == expected@),
{
    let n = s.unicode_len();
    if n != expected.unicode_len() {
        return false;
    }
    let mut i: usize = 0;
    while i < n
        invariant
            n == s@.len(),
            n == expected@.len(),
            i <= n,
            forall|j: int| 0 <= j < i ==> s@[j] == expected@[j],
        decreases n - i,
    {
        if s.get_char(i) != expected.get_char(i) {
            return false;
        }
        i += 1;
    }
    proof {
        assert(s@ =~= expected@);
    }
    true
}

/// Join the parts of an output path (see [`spec_output_path`]).
pub fn output_path(input: &str, stem: Option<&str>, dir: Option<&str>, ext: &str) -> (r: String)
    ensures
        r@ == spec_output_path(input@, opt_chars(stem), opt_chars(dir), ext@),
{
    proof {
        reveal_strlit(".");
        reveal_strlit("/");
        assert("."@ =~= seq!['.']);
        assert("/"@ =~= seq!['/']);
    }
    let s = match stem {
        Some(s) => s,
        None => input,
    };
    let d = match dir {
        Some(d) => d,
        None => ".",
    };
    let mut r: String;
    if same_text(d, ".") || d.unicode_len() == 0 {
        r = s.to_owned();
    } else {
        r = d.to_owned();
        r.append("/");
        r.append(s);
    }
    r.append(".");
    r.append(ext);
    r
}

/// Derive an output path from the input path by swapping the extension:
/// the input's file stem with extension `ext`, in the input's directory.
pub fn default_output(input: &str, ext: &str) -> (r: String)
    ensures
        exists|stem: Option<Seq<char>>, dir: Option<Seq<char>>|
            r@ == #[trigger] spec_output_path(input@, stem, dir, ext@),
        plain_file_name(input@) ==> r@ == spec_output_path(
            input@,
            name_stem(input@),
            name_parent(input@),
            ext@,
        ),
        simple_relative_path(input@) ==> r@ == spec_output_path(
            input@,
            name_stem(last_component(input@)),
            Some(directory_part(input@)),
            ext@,
        ),
{
    let stem = path_file_stem(input);
    let dir = path_parent(input);
    let stem_ref: Option<&str> = match &stem {
        Some(s) => Some(s.as_str()),
        None => None,
    };
    let dir_ref: Option<&str> = match &dir {
        Some(d) => Some(d.as_str()),
        None => None,
    };
    let r = output_path(input, stem_ref, dir_ref, ext);
    assert(r@ == spec_output_path(input@, opt_chars(stem_ref), opt_chars(dir_ref), ext@));
    r
}

/// The output format named by a lowercase file extension: `svg`, `pdf`,
/// `jpeg` for `jpg` or `jpeg`, and `png` for anything else.
pub open spec fn spec_format_for(ext: Option<Seq<char>>) -> Seq<char> {
    match ext {
        Some(e) => if e == seq!['s', 'v', 'g'] {
            seq!['s', 'v', 'g']
        } else if e == seq!['p', 'd', 'f'] {
            seq!['p', 'd', 'f']
        } else if e == seq!['j', 'p', 'g'] || e == seq!['j', 'p', 'e', 'g'] {
            seq!['j', 'p', 'e', 'g']
        } else {
            seq!['p', 'n', 'g']
        },
        None => seq!['p', 'n', 'g'],
    }
}

/// An optional extension, lowercased.
pub open spec fn lowered(ext: Option<Seq<char>>) -> Option<Seq<char>> {
    match ext {
        Some(e) => Some(lowercased(e)),
        None => None,
    }
}

/// The output format for a lowercase extension (see [`spec_format_for`]).
pub fn format_for_extension(ext: Option<&str>) -> (r: &'static str)
    ensures
        r@ == spec_format_for(opt_chars(ext)),
{
    proof {
        reveal_strlit("svg");
        reveal_strlit("pdf");
        reveal_strlit("jpg");
        reveal_strlit("jpeg");
        reveal_strlit("png");
        assert("svg"@ =~= seq!['s', 'v', 'g']);
        assert("pdf"@ =~= seq!['p', 'd', 'f']);
        assert("jpg"@ =~= seq!['j', 'p', 'g']);
        assert("jpeg"@ =~= seq!['j', 'p', 'e', 'g']);
        assert("png"@ =~= seq!['p', 'n', 'g']);
    }
    match ext {
        Some(e) => {
            if same_text(e, "svg") {
                "svg"
            } else if same_text(e, "pdf") {
                "pdf"
            } else if same_text(e, "jpg") || same_text(e, "jpeg") {
                "jpeg"
            } else {
                "png"
            }
        },
        None => "png",
    }
}

/// Infer the output format (`"svg"`, `"pdf"`, `"jpeg"` or `"png"`) from a
/// file path's extension, ignoring case.
pub fn output_format(path: &str) -> (r: &'static str)
    ensures
        exists|ext: Option<Seq<char>>| r@ == spec_format_for(#[trigger] lowered(ext)),
        plain_file_name(path@) ==> r@ == spec_format_for(lowered(name_extension(path@))),
        simple_relative_path(path@) ==> r@ == spec_format_for(
            lowered(name_extension(last_component(path@))),
        ),
{
    match path_extension(path) {
        Some(e) => {
            let lower = to_lowercase(e.as_str());
            let r = format_for_extension(Some(lower.as_str()));
            assert(r@ == spec_format_for(lowered(Some(e@))));
            r
        },
        None => {
            let r = format_for_extension(None);
            assert(r@ == spec_format_for(lowered(None)));
            r
        },
    }
}

} // verus!
