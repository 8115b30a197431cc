//! A lossless encoder for the "quite OK" image format: row-major RGB or RGBA
//! bytes in, a 14-byte header followed by a stream of run, index, diff, luma
//! and literal chunks out.

pub mod encoder;
pub mod format;
pub mod laws;
pub mod pixel;

use crate::encoder::encode_image_data;
use crate::format::encoded_image;
use crate::pixel::pixels_of;
use vstd::prelude::*;

verus! {

/// Why an input was refused; `NoError` is the code for success.
#[derive(Clone, Copy, Debug, PartialEq, Eq, Structural)]
pub enum EncodeError {
    NoError,
    NullData,
    InvalidDimensions,
    InvalidChannels,
    InvalidColorspace,
}

/// The stable numeric code of each outcome.
pub open spec fn error_code(e: EncodeError) -> u8 {
    match e {
        EncodeError::NoError => 0,
        EncodeError::NullData => 1,
        EncodeError::InvalidDimensions => 2,
        EncodeError::InvalidChannels => 3,
        EncodeError::InvalidColorspace => 4,
    }
}

impl EncodeError {
    /// The numeric code of this outcome.
    pub fn code(&self) -> (code: u8)
        ensures
            code == error_code(*self),
    {
        match self {
            EncodeError::NoError => 0,
            EncodeError::NullData => 1,
            EncodeError::InvalidDimensions => 2,
            EncodeError::InvalidChannels => 3,
            EncodeError::InvalidColorspace => 4,
        }
    }
}

/// The first rule that an image descriptor breaks, checked in this order:
/// buffer present, dimensions non-zero, three or four channels, color space 0 or 1.
pub open spec fn input_error(
    has_data: bool,
    width: u32,
    height: u32,
    channels: u8,
    colorspace: u8,
) -> EncodeError {
    if !has_data {
        EncodeError::NullData
    } else if width == 0 || height == 0 {
        EncodeError::InvalidDimensions
    } else if channels != 3 && channels != 4 {
        EncodeError::InvalidChannels
    } else if colorspace > 1 {
        EncodeError::InvalidColorspace
    } else {
        EncodeError::NoError
    }
}

/// What `encode` hands back: the encoded bytes, their number, and the outcome's code.
pub struct EncodeResult {
    pub data: Vec<u8>,
    pub len: usize,
    pub error: u8,
}

/// Validates an image descriptor; `data` is `None` where the caller has no buffer.
pub fn check_for_invalid_input(
    data: Option<&[u8]>,
    width: u32,
    height: u32,
    channels: u8,
    colorspace: u8,
) -> (error: EncodeError)
    ensures
        error == input_error(data is Some, width, height, channels, colorspace),
{
    if data.is_none() {
        return EncodeError::NullData;
    }
    if width == 0 || height == 0 {
        return EncodeError::InvalidDimensions;
    }
    if channels < 3 || channels > 4 {
        return EncodeError::InvalidChannels;
    }
    if colorspace > 1 {
        return EncodeError::InvalidColorspace;
    }
    EncodeError::NoError
}

/// The result for a refused input: no bytes, and the error's code.
pub fn return_error(error: u8) -> (result: EncodeResult)
    ensures
        result.data@.len() == 0,
        result.len == 0,
        result.error == error,
{
    EncodeResult { data: Vec::new(), len: 0, error }
}

/// Encodes `width * height` pixels of `channels` bytes each, read row by row from
/// `data`, tagging the header with `colorspace`.
pub fn encode(data: Option<&[u8]>, width: u32, height: u32, channels: u8, colorspace: u8) -> (result:
    EncodeResult)
    requires
        match data {
            Some(d) => input_error(true, width, height, channels, colorspace) == EncodeError::NoError
                ==> d@.len() == width as int * height as int * channels as int,
            None => true,
        },
    ensures
        ({
            let e = input_error(data is Some, width, height, channels, colorspace);
            &&& result.error == error_code(e)
            &&& result.len == result.data@.len()
            &&& e != EncodeError::NoError ==> result.data@.len() == 0
            &&& e == EncodeError::NoError ==> result.data@ == encoded_image(
                pixels_of(data.unwrap()@, channels as int),
                width,
                height,
                channels,
                colorspace,
            ) && result.data@.len() > 0
        }),
{
    let error = check_for_invalid_input(data, width, height, channels, colorspace);
    if error != EncodeError::NoError {
        return return_error(error.code());
    }
    let pixels = match data {
        Some(d) => d,
        None => {
            return return_error(EncodeError::NullData.code());
        },
    };
    let out = encode_image_data(pixels, width, height, channels, colorspace);
    let len = out.len();
    EncodeResult { data: out, len, error: EncodeError::NoError.code() }
}

} // verus!
