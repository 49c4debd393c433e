//! The error type of the library.

use vstd::prelude::*;
use vstd::string::StringExecFns;

verus! {

/// The error of the `image` crate, carried through unchanged.
#[verifier::external_type_specification]
#[verifier::external_body]
pub struct ExImageError(image::ImageError);

/// The error of the `hound` WAV crate, carried through unchanged.
#[verifier::external_type_specification]
#[verifier::external_body]
pub struct ExHoundError(hound::Error);

/// An I/O error, carried through unchanged.
#[verifier::external_type_specification]
#[verifier::external_body]
pub struct ExIoError(std::io::Error);

/// The unified error type for all operations in this library.
#[derive(Debug)]
pub enum PhonoPaperError {
    /// The PhonoPaper marker bands could not be found in the image; the text
    /// is a short reason.
    MarkerNotFound(&'static str),
    /// The image or audio data does not conform to the expected format.
    InvalidFormat(String),
    /// An error occurred while loading or saving an image.
    ImageError(image::ImageError),
    /// An error occurred while reading or writing a WAV file.
    AudioError(hound::Error),
    /// An I/O error occurred.
    IoError(std::io::Error),
}

/// The `Display` text of an `image` crate error.  Nothing is stated of
/// the text.
#[verifier::external_body]
fn image_error_text(e: &image::ImageError) -> String {
    format!("{e}")
}

/// The `Display` text of a `hound` error.  Nothing is stated of the text.
#[verifier::external_body]
fn hound_error_text(e: &hound::Error) -> String {
    format!("{e}")
}

/// The `Display` text of an I/O error.  Nothing is stated of the text.
#[verifier::external_body]
fn io_error_text(e: &std::io::Error) -> String {
    format!("{e}")
}

impl PhonoPaperError {
    /// The human-readable description of the error: a fixed prefix naming
    /// the kind of failure, then the reason or the underlying error's text.
    pub fn message(&self) -> (r: String)
        ensures
            self matches PhonoPaperError::MarkerNotFound(m) ==> r@
                == "PhonoPaper marker bands not found in image: "@ + m@,
            self matches PhonoPaperError::InvalidFormat(m) ==> r@ == "Invalid format: "@ + m@,
            self is ImageError ==> r@.len() >= "Image error: "@.len() && r@.subrange(
                0,
                "Image error: "@.len() as int,
            ) == "Image error: "@,
            self is AudioError ==> r@.len() >= "Audio error: "@.len() && r@.subrange(
                0,
                "Audio error: "@.len() as int,
            ) == "Audio error: "@,
            self is IoError ==> r@.len() >= "I/O error: "@.len() && r@.subrange(
                0,
                "I/O error: "@.len() as int,
            ) == "I/O error: "@,
    {
        match self {
            PhonoPaperError::MarkerNotFound(m) => {
                let mut r = "PhonoPaper marker bands not found in image: ".to_owned();
                r.append(m);
                r
            },
            PhonoPaperError::InvalidFormat(m) => {
                let mut r = "Invalid format: ".to_owned();
                r.append(m.as_str());
                r
            },
            PhonoPaperError::ImageError(e) => {
                let mut r = "Image error: ".to_owned();
                let text = image_error_text(e);
                r.append(text.as_str());
                assert(r@.subrange(0, "Image error: "@.len() as int) =~= "Image error: "@);
                r
            },
            PhonoPaperError::AudioError(e) => {
                let mut r = "Audio error: ".to_owned();
                let text = hound_error_text(e);
                r.append(text.as_str());
                assert(r@.subrange(0, "Audio error: "@.len() as int) =~= "Audio error: "@);
                r
            },
            PhonoPaperError::IoError(e) => {
                let mut r = "I/O error: ".to_owned();
                let text = io_error_text(e);
                r.append(text.as_str());
                assert(r@.subrange(0, "I/O error: "@.len() as int) =~= "I/O error: "@);
                r
            },
        }
    }
}

} // verus!
