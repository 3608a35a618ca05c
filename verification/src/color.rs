use vstd::prelude::*;

verus! {

/// A color given by three 8-bit channels.
#[derive(Clone, Copy, Debug, PartialEq, Eq, Structural)]
pub struct RGBValue {
    pub r: u8,
    pub g: u8,
    pub b: u8,
}

/// How a drawn pixel is combined with the pixel already in the buffer.
#[derive(Clone, Copy, Debug, PartialEq, Eq, Structural)]
pub enum BlendMode {
    Overwrite,
    Add,
    Multiply,
    Subtract,
    AlphaBlend,
}

} // verus!
