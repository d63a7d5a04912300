//! Uncompressed RGBA rasters, mip-level geometry, and box-filter downsampling.
use vstd::prelude::*;
use vstd::arithmetic::power2::pow2;
use vstd::arithmetic::div_mod::lemma_div_denominator;
use vstd::arithmetic::power2::lemma_pow2_unfold;
use vstd::arithmetic::power2::lemma_pow2_pos;
use vstd::bits::lemma_u32_shr_is_div;

verus! {

/// Largest width or height the codec accepts: the JPEG variant stores mip
/// dimensions in 16-bit frame-header fields, and the bound is applied to
/// both variants so that any parsed image can be re-encoded either way.
pub const MAX_DIM: u32 = 65535;

/// Largest pixel count of one raster, so that its RGBA byte count
/// (`4 * MAX_PIXELS`) fits a `usize` and can be allocated.
pub const MAX_PIXELS: u64 = 268435456;

/// Mathematical model of an RGBA raster: row-major, four bytes per pixel.
pub struct GRaster {
    pub w: nat,
    pub h: nat,
    pub data: Seq<u8>,
}

/// An owned RGBA raster; `data` holds `4 * width * height` bytes, row-major.
pub struct Raster {
    pub width: u32,
    pub height: u32,
    pub data: Vec<u8>,
}

impl View for Raster {
    type V = GRaster;

    open spec fn view(&self) -> GRaster {
        GRaster { w: self.width as nat, h: self.height as nat, data: self.data@ }
    }
}

impl GRaster {
    /// A raster is well formed when both dimensions are positive, bounded by
    /// `MAX_DIM`, and the byte count matches the geometry.
    pub open spec fn wf(self) -> bool {
        &&& 0 < self.w <= MAX_DIM
        &&& 0 < self.h <= MAX_DIM
        &&& self.w * self.h <= MAX_PIXELS
        &&& self.data.len() == 4 * self.w * self.h
    }
}

impl Raster {
    /// Well-formedness of the executable raster is that of its model.
    pub open spec fn wf(&self) -> bool {
        self@.wf()
    }

    /// Builds a raster from its parts, checking the geometry at run time.
    pub fn new(width: u32, height: u32, data: Vec<u8>) -> (r: Result<Raster, crate::error::BlpError>)
        ensures
            match r {
                Ok(rr) => rr@ == (GRaster { w: width as nat, h: height as nat, data: data@ })
                    && rr@.wf(),
                Err(e) => e == crate::error::BlpError::InvalidInput
                    && !(GRaster { w: width as nat, h: height as nat, data: data@ }).wf(),
            },
    {
        if width == 0 || height == 0 || width > MAX_DIM || height > MAX_DIM {
            return Err(crate::error::BlpError::InvalidInput);
        }
    proof {
        assert((width as int) * (height as int) <= 65535 * 65535) by (nonlinear_arith)
            requires
                width <= 65535,
                height <= 65535,
        ;
    }
        if (width as u64) * (height as u64) > MAX_PIXELS {
            return Err(crate::error::BlpError::InvalidInput);
        }
        proof {
            assert((4 * ((width as int) * (height as int))) == 4 * (width as int) * (height
                as int)) by (nonlinear_arith);
        }
        let need: u64 = 4u64 * (width as u64) * (height as u64);
        if (data.len() as u64) != need {
            return Err(crate::error::BlpError::InvalidInput);
        }
        Ok(Raster { width, height, data })
    }
}

/// Channel `c` (0 red, 1 green, 2 blue, 3 alpha) of pixel `(x, y)` in a
/// row-major RGBA byte sequence of row width `w`.
pub open spec fn byte_at(data: Seq<u8>, w: nat, x: int, y: int, c: int) -> u8 {
    data[4 * (y * (w as int) + x) + c]
}

/// Pixel coordinates and channel packed into a flat byte index, inverted.
pub open spec fn ch_of(j: int) -> int {
    j % 4
}

pub open spec fn x_of(j: int, w: nat) -> int {
    (j / 4) % (w as int)
}

pub open spec fn y_of(j: int, w: nat) -> int {
    (j / 4) / (w as int)
}

/// Row-major RGBA byte sequence of a `w` by `h` raster whose byte at
/// `(x, y, c)` is `f(x, y, c)`.
pub open spec fn raster_data(w: nat, h: nat, f: spec_fn(int, int, int) -> u8) -> Seq<u8> {
    Seq::new(4 * w * h, |j: int| f(x_of(j, w), y_of(j, w), ch_of(j)))
}

/// The flat index of `(x, y, c)` is in range and inverts back to
/// `(x, y, c)`, so `raster_data(w, h, f)` holds `f(x, y, c)` there.
pub proof fn lemma_flat_index(w: nat, h: nat, x: int, y: int, c: int)
    requires
        0 <= x < w,
        0 <= y < h,
        0 <= c < 4,
    ensures
        0 <= 4 * (y * (w as int) + x) + c < 4 * w * h,
        x_of(4 * (y * (w as int) + x) + c, w) == x,
        y_of(4 * (y * (w as int) + x) + c, w) == y,
        ch_of(4 * (y * (w as int) + x) + c) == c,
{
    let j = 4 * (y * (w as int) + x) + c;
    assert(0 <= j < 4 * w * h && j / 4 == y * (w as int) + x && j % 4 == c) by (nonlinear_arith)
        requires
            0 <= x < w,
            0 <= y < h,
            0 <= c < 4,
            j == 4 * (y * (w as int) + x) + c,
    ;
    assert((y * (w as int) + x) % (w as int) == x && (y * (w as int) + x) / (w as int) == y)
        by (nonlinear_arith)
        requires
            0 <= x < w,
            0 <= y,
    ;
}

/// A flat byte index decomposes into pixel coordinates and a channel.
pub proof fn lemma_flat_index_inv(w: nat, h: nat, j: int)
    requires
        0 < w,
        0 < h,
        0 <= j < 4 * w * h,
    ensures
        0 <= x_of(j, w) < w,
        0 <= y_of(j, w) < h,
        0 <= ch_of(j) < 4,
        0 <= y_of(j, w) * (w as int) + x_of(j, w) < w * h,
        j == 4 * (y_of(j, w) * (w as int) + x_of(j, w)) + ch_of(j),
{
    assert(0 <= j % 4 < 4 && 0 <= (j / 4) % (w as int) < w && 0 <= (j / 4) / (w as int) < h && 0
        <= ((j / 4) / (w as int)) * (w as int) + (j / 4) % (w as int) < w * h && j == 4 * (((j / 4)
        / (w as int)) * (w as int) + (j / 4) % (w as int)) + j % 4) by (nonlinear_arith)
        requires
            0 < w,
            0 < h,
            0 <= j < 4 * w * h,
    ;
}

/// The mip dimension law: mip `i` of a base dimension `d` measures
/// `max(1, d >> i)`.
pub open spec fn mip_dim(d: u32, i: nat) -> nat {
    let q = (d as nat) / pow2(i);
    if q == 0 {
        1
    } else {
        q
    }
}

/// Law: the mip dimension in its shift reading — mip `i` of base
/// dimension `d` measures one pixel where `d >> i` vanishes and `d >> i`
/// otherwise.
pub proof fn lemma_mip_dim_shift(d: u32, i: u32)
    requires
        i < 32,
    ensures
        mip_dim(d, i as nat) == (if d >> i == 0 {
            1nat
        } else {
            (d >> i) as nat
        }),
{
    lemma_u32_shr_is_div(d, i);
}

/// One halving step, clamped to stay at least one pixel.
pub open spec fn half_dim(d: nat) -> nat {
    if d / 2 == 0 {
        1
    } else {
        d / 2
    }
}

/// Halving the dimension of mip `i` gives the dimension of mip `i + 1`.
pub proof fn lemma_mip_dim_step(d: u32, i: nat)
    ensures
        mip_dim(d, i + 1) == half_dim(mip_dim(d, i)),
{
    lemma_pow2_pos(i);
    lemma_pow2_unfold(i + 1);
    lemma_div_denominator(d as int, pow2(i) as int, 2);
    assert(pow2(i) * 2 == 2 * pow2(i)) by (nonlinear_arith);
}

/// Executable mip dimension.
pub fn mip_dim_exec(d: u32, i: usize) -> (r: u32)
    requires
        i < 16,
    ensures
        r == mip_dim(d, i as nat),
        r >= 1,
        r <= d || r == 1,
{
    let s = d >> (i as u32);
    proof {
        lemma_u32_shr_is_div(d, i as u32);
        lemma_pow2_pos(i as nat);
        vstd::arithmetic::div_mod::lemma_div_is_ordered_by_denominator(d as int, 1, pow2(i as nat) as int);
        vstd::arithmetic::div_mod::lemma_div_basics(d as int);
    }
    if s == 0 {
        1
    } else {
        s
    }
}

/// Clamps a sampling coordinate to the last row or column, replicating the
/// edge when the source dimension is odd or one.
pub open spec fn clamp_idx(v: int, bound: nat) -> int {
    if v >= bound {
        bound - 1
    } else {
        v
    }
}

/// The box filter: channel `c` of destination pixel `(x, y)` averages the
/// 2x2 source block at `(2x, 2y)`, edge rows and columns replicated.
pub open spec fn down_byte(r: GRaster, x: int, y: int, c: int) -> u8 {
    let x0 = clamp_idx(2 * x, r.w);
    let x1 = clamp_idx(2 * x + 1, r.w);
    let y0 = clamp_idx(2 * y, r.h);
    let y1 = clamp_idx(2 * y + 1, r.h);
    (((byte_at(r.data, r.w, x0, y0, c) as int) + (byte_at(r.data, r.w, x1, y0, c) as int)
        + (byte_at(r.data, r.w, x0, y1, c) as int) + (byte_at(r.data, r.w, x1, y1, c) as int))
        / 4) as u8
}

/// The raster one mip level below `r`: half the dimensions (clamped to one),
/// each byte the box-filter average.
pub open spec fn downsampled(r: GRaster) -> GRaster {
    GRaster {
        w: half_dim(r.w),
        h: half_dim(r.h),
        data: raster_data(half_dim(r.w), half_dim(r.h), |x: int, y: int, c: int| down_byte(r, x, y, c)),
    }
}

} // verus!
