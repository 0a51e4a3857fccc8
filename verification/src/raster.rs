//! A decoded raster as the maze pipeline takes it in.

use crate::decimal::{decimal, decimal_text};
use crate::dimensions::Dimensions;
use crate::error::MazeError;
use vstd::prelude::*;
use vstd::slice::{slice_subrange, slice_to_vec};

verus! {

/// The bytes of one decoded frame, with the dimensions of the frame.
#[derive(Debug)]
pub struct Pnger {
    dimensions: Dimensions,
    bytes: Vec<u8>,
}

impl View for Pnger {
    type V = Seq<u8>;

    /// The bytes of the frame.
    closed spec fn view(&self) -> Seq<u8> {
        self.bytes@
    }
}

/// The summary of a frame of `dimensions`: its width and its height in
/// decimal.
pub open spec fn summary(dimensions: Dimensions) -> Seq<char> {
    "width "@ + decimal(dimensions.width as nat) + " * height "@ + decimal(dimensions.height as nat)
}

impl Pnger {
    /// The dimensions of the frame.
    pub closed spec fn spec_dimensions(&self) -> Dimensions {
        self.dimensions
    }

    /// Takes over a decoded frame: the first `frame_size` bytes of the
    /// buffer that the frame was decoded into. A buffer shorter than the
    /// frame is malformed.
    pub fn from_frame(dimensions: Dimensions, buffer: &[u8], frame_size: usize) -> (r: Result<
        Pnger,
        MazeError,
    >)
        ensures
            match r {
                Ok(image) => {
                    &&& frame_size <= buffer@.len()
                    &&& image.spec_dimensions() == dimensions
                    &&& image@ == buffer@.take(frame_size as int)
                },
                Err(e) => e == MazeError::MalformedInput && frame_size > buffer@.len(),
            },
    {
        if frame_size > buffer.len() {
            return Err(MazeError::MalformedInput);
        }
        let bytes = slice_to_vec(slice_subrange(buffer, 0, frame_size));
        Ok(Pnger { dimensions, bytes })
    }

    /// The height of the frame in cells.
    pub fn height(&self) -> (h: u32)
        ensures
            h == self.spec_dimensions().height,
    {
        self.dimensions.height
    }

    /// The width of the frame in cells.
    pub fn width(&self) -> (w: u32)
        ensures
            w == self.spec_dimensions().width,
    {
        self.dimensions.width
    }

    /// A copy of the bytes of the frame.
    pub fn get_bytes(&self) -> (bytes: Vec<u8>)
        ensures
            bytes@ == self@,
    {
        self.bytes.clone()
    }

    /// The dimensions of the frame.
    pub fn dimensions(&self) -> (d: Dimensions)
        ensures
            d == self.spec_dimensions(),
    {
        self.dimensions
    }

    /// One line on the size of the frame.
    pub fn summarize(&self) -> (text: String)
        ensures
            text@ == summary(self.spec_dimensions()),
    {
        let mut text = String::from_str("width ");
        text.append(decimal_text(self.width() as u64).as_str());
        text.append(" * height ");
        text.append(decimal_text(self.height() as u64).as_str());
        text
    }
}

} // verus!
