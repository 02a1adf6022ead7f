use vstd::prelude::*;
use image::error::ImageError;
use vstd::string::to_string_from_display_ensures;

verus! {

#[verifier::external_type_specification]
#[verifier::external_body]
pub struct ExImageError(ImageError);

#[verifier::external_type_specification]
#[verifier::external_body]
pub struct ExIoError(std::io::Error);

/// Everything that can end a run.
#[derive(Debug)]
pub enum AppError {
    /// The image library could not decode, encode or compose an image.
    ImageError(ImageError),
    /// Reading or writing a file failed.
    IOError(std::io::Error),
    /// An input image cannot be used, such as a depth map of the wrong size.
    BadImage(String),
    /// A command-line value is malformed or out of range.
    ArgError(String),
}

pub type AppResult<T> = Result<T, AppError>;

impl AppError {
    /// A human-readable description: the image library's or the system's own
    /// text, or what was wrong with an image or an argument.
    pub fn message(&self) -> (r: String)
        ensures
            self matches AppError::ImageError(err) ==> to_string_from_display_ensures::<ImageError>(err, r),
            self matches AppError::IOError(err) ==> to_string_from_display_ensures::<std::io::Error>(err, r),
            self matches AppError::BadImage(what) ==> r@ == "Unusable image: "@ + what@,
            self matches AppError::ArgError(what) ==> r@ == "Bad argument: "@ + what@,
    {
        match self {
            AppError::ImageError(err) => err.to_string(),
            AppError::IOError(err) => err.to_string(),
            AppError::BadImage(what) => String::from_str("Unusable image: ").concat(what.as_str()),
            AppError::ArgError(what) => String::from_str("Bad argument: ").concat(what.as_str()),
        }
    }
}

impl From<ImageError> for AppError {
    fn from(error: ImageError) -> (r: AppError)
        ensures
            r == AppError::ImageError(error),
    {
        AppError::ImageError(error)
    }
}

impl vstd::std_specs::convert::FromSpecImpl<ImageError> for AppError {
    open spec fn obeys_from_spec() -> bool {
        true
    }

    open spec fn from_spec(error: ImageError) -> AppError {
        AppError::ImageError(error)
    }
}

impl From<std::io::Error> for AppError {
    fn from(error: std::io::Error) -> (r: AppError)
        ensures
            r == AppError::IOError(error),
    {
        AppError::IOError(error)
    }
}

impl vstd::std_specs::convert::FromSpecImpl<std::io::Error> for AppError {
    open spec fn obeys_from_spec() -> bool {
        true
    }

    open spec fn from_spec(error: std::io::Error) -> AppError {
        AppError::IOError(error)
    }
}

} // verus!
