//! PNG serialization of a decoded mip, through the outside png crate.
use vstd::prelude::*;
use crate::raster::MAX_DIM;

verus! {

/// The PNG stream that serializes a `w` by `h` RGBA raster.
pub uninterp spec fn png_of(w: nat, h: nat, data: Seq<u8>) -> Seq<u8>;

/// Relies on png::Encoder (8-bit RGBA, default settings): the stream it
/// writes is a function of the dimensions and pixel bytes alone, and
/// writing a full raster of the declared geometry to an in-memory buffer
/// cannot fail.
#[verifier::external_body]
pub fn png_encode_rgba(w: u32, h: u32, data: &Vec<u8>) -> (r: Vec<u8>)
    requires
        1 <= w <= MAX_DIM,
        1 <= h <= MAX_DIM,
        data@.len() == 4 * (w as nat) * (h as nat),
    ensures
        r@ == png_of(w as nat, h as nat, data@),
{
    let mut out: Vec<u8> = Vec::new();
    {
        let mut enc = png::Encoder::new(&mut out, w, h);
        enc.set_color(png::ColorType::Rgba);
        enc.set_depth(png::BitDepth::Eight);
        let mut writer = enc.write_header().unwrap();
        writer.write_image_data(data.as_slice()).unwrap();
        writer.finish().unwrap();
    }
    out
}

} // verus!
