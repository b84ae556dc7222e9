//! The checks that every filter makes, in a fixed order, before it reads or
//! writes a pixel.

use vstd::prelude::*;
use vstd::string::StringSliceAdditionalSpecFns;
use vstd::utf8::*;
use crate::layout::{buffer_len, BYTES_PER_PIXEL};

verus! {

/// Why a call is turned away at the boundary.
#[derive(Clone, Copy, Debug, PartialEq, Eq, Structural)]
pub enum Rejection {
    /// The pixel buffer or the parameter text is absent.
    MissingInput,
    /// The width or the height is zero.
    EmptyImage,
    /// `width * height * 4` does not fit the length type.
    SizeOverflow,
    /// The parameter text is not what the filter can decode.
    MalformedParams,
}

impl Rejection {
    /// The status that a filter reports for this rejection. Zero is kept
    /// for success.
    pub open spec fn status(self) -> int {
        match self {
            Rejection::MissingInput => 1,
            Rejection::EmptyImage => 2,
            Rejection::SizeOverflow => 3,
            Rejection::MalformedParams => 4,
        }
    }

    /// The status as a filter returns it.
    pub fn code(&self) -> (code: i32)
        ensures
            code == self.status(),
            code != 0,
    {
        match self {
            Rejection::MissingInput => 1,
            Rejection::EmptyImage => 2,
            Rejection::SizeOverflow => 3,
            Rejection::MalformedParams => 4,
        }
    }
}

/// Status of a call that ran to its end.
pub const STATUS_OK: i32 = 0;

/// What the boundary makes of a call's shape: the first check that fails,
/// in the order absent input, empty image, size overflow; or the buffer's
/// length in bytes.
pub open spec fn validated(width: u32, height: u32, has_buffer: bool, has_params: bool) -> Result<
    usize,
    Rejection,
> {
    if !has_buffer || !has_params {
        Err(Rejection::MissingInput)
    } else if width == 0 || height == 0 {
        Err(Rejection::EmptyImage)
    } else if buffer_len(width as int, height as int) > usize::MAX {
        Err(Rejection::SizeOverflow)
    } else {
        Ok(buffer_len(width as int, height as int) as usize)
    }
}

/// Runs the boundary's checks on a call's shape.
pub fn validate(width: u32, height: u32, has_buffer: bool, has_params: bool) -> (outcome: Result<
    usize,
    Rejection,
>)
    ensures
        outcome == validated(width, height, has_buffer, has_params),
{
    if !has_buffer || !has_params {
        return Err(Rejection::MissingInput);
    }
    if width == 0 || height == 0 {
        return Err(Rejection::EmptyImage);
    }
    let w: usize = width as usize;
    let h: usize = height as usize;
    match w.checked_mul(h) {
        None => {
            assert(width * height * 4 > usize::MAX) by (nonlinear_arith)
                requires
                    width * height > usize::MAX,
            ;
            Err(Rejection::SizeOverflow)
        },
        Some(pixels) => match pixels.checked_mul(BYTES_PER_PIXEL) {
            None => Err(Rejection::SizeOverflow),
            Some(len) => Ok(len),
        },
    }
}

/// The text that a filter reads from the parameter bytes: their UTF-8
/// decoding, or the empty text where they are not UTF-8.
pub open spec fn text_of(bytes: Seq<u8>) -> Seq<char> {
    if valid_utf8(bytes) {
        decode_utf8(bytes)
    } else {
        Seq::empty()
    }
}

/// `core::str::from_utf8`, with its error dropped: the bytes as text when
/// they are well-formed UTF-8, and nothing otherwise. The text's encoding is
/// the bytes themselves.
#[verifier::external_body]
fn utf8(bytes: &[u8]) -> (text: Option<&str>)
    ensures
        text is Some <==> valid_utf8(bytes@),
        text matches Some(s) ==> s.spec_bytes() == bytes@,
{
    core::str::from_utf8(bytes).ok()
}

/// Reads the parameter bytes as text. Bytes that are not UTF-8 read as the
/// empty text.
pub fn params_text(bytes: &[u8]) -> (text: &str)
    ensures
        text@ == text_of(bytes@),
{
    match utf8(bytes) {
        Some(s) => {
            proof {
                encode_utf8_decode_utf8(s@);
            }
            s
        },
        None => {
            proof {
                reveal_strlit("");
            }
            assert(""@ =~= Seq::<char>::empty());
            ""
        },
    }
}

} // verus!
