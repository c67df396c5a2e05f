//! Error types of the import, compile and GPU layers, each with the
//! message its `Display` shows.
use vstd::prelude::*;

use crate::text::concat;

verus! {

/// Failure while decoding or validating raster bytes.
pub enum RasterError {
    Decode(String),
    Empty,
}

impl RasterError {
    /// The error's message.
    pub fn message(&self) -> (r: String)
        ensures
            r@ == match self {
                RasterError::Decode(e) => "image decode error: "@ + e@,
                RasterError::Empty => "image is empty"@,
            },
    {
        match self {
            RasterError::Decode(e) => concat("image decode error: ", e.as_str()),
            RasterError::Empty => "image is empty".to_string(),
        }
    }
}

/// Failure while parsing an SVG or converting it to path mobjects.
pub enum SvgError {
    Parse(String),
    Empty,
}

impl SvgError {
    /// The error's message.
    pub fn message(&self) -> (r: String)
        ensures
            r@ == match self {
                SvgError::Parse(e) => "svg parse error: "@ + e@,
                SvgError::Empty => "svg contained no visible paths or images"@,
            },
    {
        match self {
            SvgError::Parse(e) => concat("svg parse error: ", e.as_str()),
            SvgError::Empty => "svg contained no visible paths or images".to_string(),
        }
    }
}

/// Failure while setting up the headless GPU device.
pub enum GpuError {
    NoAdapter(String),
    NoDevice(String),
}

impl GpuError {
    /// The error's message.
    pub fn message(&self) -> (r: String)
        ensures
            r@ == match self {
                GpuError::NoAdapter(e) => "no suitable GPU adapter: "@ + e@,
                GpuError::NoDevice(e) => "failed to create GPU device: "@ + e@,
            },
    {
        match self {
            GpuError::NoAdapter(e) => concat("no suitable GPU adapter: ", e.as_str()),
            GpuError::NoDevice(e) => concat("failed to create GPU device: ", e.as_str()),
        }
    }
}

/// Failure while compiling Typst (or converting LaTeX to Typst).
pub enum TypstError {
    Compile(String),
    EmptyDocument,
    TexConvert(String),
}

impl TypstError {
    /// The error's message.
    pub fn message(&self) -> (r: String)
        ensures
            r@ == match self {
                TypstError::Compile(e) => "typst compile failed: "@ + e@,
                TypstError::EmptyDocument => "typst produced no pages"@,
                TypstError::TexConvert(e) => "mitex conversion failed: "@ + e@,
            },
    {
        match self {
            TypstError::Compile(e) => concat("typst compile failed: ", e.as_str()),
            TypstError::EmptyDocument => "typst produced no pages".to_string(),
            TypstError::TexConvert(e) => concat("mitex conversion failed: ", e.as_str()),
        }
    }
}

} // verus!
