//! A verified codec for the BLP mip-mapped texture container.
//!
//! The crate parses a BLP byte stream into a structured image, decodes
//! selected mip levels into RGBA rasters under a caller-supplied visibility
//! mask, encodes a source raster into a fresh BLP stream, and exports
//! decoded mips as PNG or embedded JPEG streams. The container layout,
//! palette reconstruction and the encoder are verified; JPEG and PNG
//! compression are performed by outside crates behind trusted wrappers.
pub mod error;
pub mod raster;
pub mod format;
pub mod palette;
pub mod jpeg;
pub mod png_export;
pub mod image;
pub mod quantize;
pub mod encode;
pub mod laws;

use vstd::prelude::*;

verus! {

/// Builds the visibility mask that requests the first `mip_count` mip
/// levels (capped at sixteen) and no others.
pub fn build_mip_visibility_from_count(mip_count: usize) -> (flags: Vec<bool>)
    ensures
        flags@.len() == 16,
        forall|i: int| 0 <= i < 16 ==> (flags@[i] <==> i < mip_count),
{
    let n = if mip_count < 16 {
        mip_count
    } else {
        16
    };
    let mut flags: Vec<bool> = Vec::new();
    let mut i: usize = 0;
    while i < 16
        invariant
            i <= 16,
            flags@.len() == i,
            n == if mip_count < 16 { mip_count } else { 16usize },
            forall|k: int| 0 <= k < i ==> (flags@[k] <==> k < mip_count),
        decreases 16 - i,
    {
        flags.push(i < n);
        i = i + 1;
    }
    flags
}

} // verus!
