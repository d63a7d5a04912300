//! The BLP container layout: magic, fixed header, mip table, palette or
//! shared-JPEG-header field, and the validation that `parse` performs.
use vstd::prelude::*;
use vstd::bytes::spec_u32_from_le_bytes;
use vstd::bytes::u32_from_le_bytes;
use vstd::slice::slice_subrange;
use vstd::slice::slice_index_get;
use crate::error::BlpError;
use crate::raster::MAX_DIM;
use crate::raster::MAX_PIXELS;
use crate::raster::Raster;
use crate::raster::mip_dim;
use crate::raster::mip_dim_exec;

verus! {

/// The two on-disk compression variants.
#[derive(Clone, Copy, Debug, PartialEq, Eq, Structural)]
pub enum Variant {
    Jpeg,
    Palette,
}

/// Size of the fixed part of the header: magic, width, height, variant tag,
/// alpha depth, and the sixteen-entry mip table.
pub const HEADER_FIXED: usize = 142;

/// Size of the shared palette table: 256 RGBA entries.
pub const PALETTE_BYTES: usize = 1024;

/// Full header size of the palette variant.
pub const HEADER_PALETTE: usize = 142 + 1024;

/// Full header size of the JPEG variant: the fixed part plus the length
/// field of the shared JPEG header.
pub const HEADER_JPEG: usize = 142 + 4;

/// The on-disk tag byte of each variant.
pub open spec fn variant_tag(v: Variant) -> u8 {
    match v {
        Variant::Jpeg => 0,
        Variant::Palette => 1,
    }
}

/// Little-endian 32-bit field at byte offset `off`.
pub open spec fn u32_at(b: Seq<u8>, off: int) -> u32 {
    spec_u32_from_le_bytes(b.subrange(off, off + 4))
}

/// The four magic bytes that open every BLP stream.
pub open spec fn magic_ok(b: Seq<u8>) -> bool {
    &&& b.len() >= 4
    &&& b[0] == 0x42u8
    &&& b[1] == 0x4cu8
    &&& b[2] == 0x50u8
    &&& b[3] == 0x31u8
}

pub open spec fn spec_width(b: Seq<u8>) -> u32 {
    u32_at(b, 4)
}

pub open spec fn spec_height(b: Seq<u8>) -> u32 {
    u32_at(b, 8)
}

pub open spec fn spec_variant(b: Seq<u8>) -> Variant {
    if b[12] == 1u8 {
        Variant::Palette
    } else {
        Variant::Jpeg
    }
}

pub open spec fn spec_depth(b: Seq<u8>) -> u8 {
    b[13]
}

/// Byte offset of mip `i`'s data, read from the mip table.
pub open spec fn mip_off(b: Seq<u8>, i: int) -> u32 {
    u32_at(b, 14 + 8 * i)
}

/// Byte length of mip `i`'s data; zero marks an absent mip.
pub open spec fn mip_len(b: Seq<u8>, i: int) -> u32 {
    u32_at(b, 18 + 8 * i)
}

/// Length of the shared JPEG header, stored after the mip table in the
/// JPEG variant; the header itself opens mip 0's data.
pub open spec fn spec_jpeg_hlen(b: Seq<u8>) -> u32 {
    u32_at(b, 142)
}

/// The palette table, stored right after the fixed header.
pub open spec fn spec_palette(b: Seq<u8>) -> Seq<u8> {
    b.subrange(142, 1166)
}

pub open spec fn header_size(v: Variant) -> int {
    match v {
        Variant::Palette => 1166int,
        Variant::Jpeg => 146int,
    }
}

/// The alpha depths each variant admits: the palette variant packs alpha at
/// 1, 4 or 8 bits per pixel (0 meaning fully opaque); the JPEG variant
/// either has no alpha plane or one byte per pixel.
pub open spec fn depth_ok(v: Variant, d: u8) -> bool {
    match v {
        Variant::Palette => d == 0 || d == 1 || d == 4 || d == 8,
        Variant::Jpeg => d == 0 || d == 8,
    }
}

/// Bytes of an alpha plane for `n` pixels packed at `depth` bits per pixel.
pub open spec fn alpha_plane_len(n: nat, depth: u8) -> nat {
    ((n * depth + 7) / 8) as nat
}

/// Pixel count of mip `i` for a base geometry.
pub open spec fn mip_px(w: u32, h: u32, i: int) -> nat {
    mip_dim(w, i as nat) * mip_dim(h, i as nat)
}

/// Bytes mip `i` of the palette variant must hold: the index plane, one
/// byte per pixel, then the packed alpha plane.
pub open spec fn palette_mip_need(w: u32, h: u32, depth: u8, i: int) -> nat {
    mip_px(w, h, i) + alpha_plane_len(mip_px(w, h, i), depth)
}

/// Length of the JPEG part of mip `i`'s data, before the trailing alpha
/// plane when the alpha flag is set.
pub open spec fn jpart_len(b: Seq<u8>, w: u32, h: u32, depth: u8, i: int) -> int {
    mip_len(b, i) - (if depth == 8 { mip_px(w, h, i) as int } else { 0 })
}

/// Validity of one mip-table entry against the buffer it points into.
pub open spec fn mip_entry_ok(b: Seq<u8>, v: Variant, w: u32, h: u32, depth: u8, i: int) -> bool {
    mip_len(b, i) == 0 || {
        &&& header_size(v) <= mip_off(b, i)
        &&& mip_off(b, i) + mip_len(b, i) <= b.len()
        &&& (v is Palette ==> mip_len(b, i) >= palette_mip_need(w, h, depth, i))
        &&& (v is Jpeg && depth == 8 ==> mip_len(b, i) >= mip_px(w, h, i))
    }
}

pub open spec fn mip_table_ok(b: Seq<u8>, v: Variant, w: u32, h: u32, depth: u8) -> bool {
    forall|i: int| 0 <= i < 16 ==> mip_entry_ok(b, v, w, h, depth, i)
}

/// JPEG-variant coherence: any present mip beyond 0 needs mip 0 (the owner
/// of the shared header), and the shared header must fit inside mip 0's
/// JPEG part.
pub open spec fn jpeg_table_ok(b: Seq<u8>, w: u32, h: u32, depth: u8) -> bool {
    &&& (exists|i: int| 1 <= i < 16 && mip_len(b, i) > 0) ==> mip_len(b, 0) > 0
    &&& (mip_len(b, 0) > 0 ==> spec_jpeg_hlen(b) <= jpart_len(b, w, h, depth, 0))
}

/// The exact condition under which `parse` succeeds.
pub open spec fn parse_ok(b: Seq<u8>) -> bool {
    &&& b.len() >= 142
    &&& magic_ok(b)
    &&& 1 <= spec_width(b) <= MAX_DIM
    &&& 1 <= spec_height(b) <= MAX_DIM
    &&& spec_width(b) * spec_height(b) <= MAX_PIXELS
    &&& (b[12] == 0u8 || b[12] == 1u8)
    &&& depth_ok(spec_variant(b), spec_depth(b))
    &&& b.len() >= header_size(spec_variant(b))
    &&& mip_table_ok(b, spec_variant(b), spec_width(b), spec_height(b), spec_depth(b))
    &&& (spec_variant(b) is Jpeg ==> jpeg_table_ok(b, spec_width(b), spec_height(b), spec_depth(b)))
}

/// One slot of the mip pyramid.
pub enum MipEntry {
    /// The mip table holds no data for this level.
    Absent,
    /// Data is present in the source buffer but was not requested yet.
    Pending { offset: u32, length: u32 },
    /// Data was decoded into an owned RGBA raster.
    Decoded { offset: u32, length: u32, raster: Raster },
}

/// A parsed BLP image: header fields, shared tables, and the mip pyramid.
pub struct BlpImage {
    pub width: u32,
    pub height: u32,
    pub variant: Variant,
    pub alpha_depth: u8,
    /// 256 RGBA entries for the palette variant; empty for the JPEG variant.
    pub palette: Vec<u8>,
    /// Length of the shared JPEG header for the JPEG variant; zero otherwise.
    pub jpeg_header_len: u32,
    pub mips: Vec<MipEntry>,
}

impl BlpImage {
    /// Well-formedness of one pyramid slot: a decoded raster carries the
    /// exact mip geometry of its level.
    pub open spec fn mip_wf(&self, i: int) -> bool {
        match self.mips@[i] {
            MipEntry::Absent => true,
            MipEntry::Pending { offset, length } => length > 0,
            MipEntry::Decoded { offset, length, raster } => {
                &&& length > 0
                &&& raster@.wf()
                &&& raster@.w == mip_dim(self.width, i as nat)
                &&& raster@.h == mip_dim(self.height, i as nat)
            },
        }
    }

    /// The image invariant, established by `parse` and preserved by
    /// `decode`.
    pub open spec fn wf(&self) -> bool {
        &&& 1 <= self.width <= MAX_DIM
        &&& 1 <= self.height <= MAX_DIM
        &&& self.width * self.height <= 268435456
        &&& depth_ok(self.variant, self.alpha_depth)
        &&& self.mips@.len() == 16
        &&& (self.variant is Palette ==> self.palette@.len() == 1024 && self.jpeg_header_len == 0)
        &&& (self.variant is Jpeg ==> self.palette@.len() == 0)
        &&& forall|i: int| 0 <= i < 16 ==> self.mip_wf(i)
    }

    /// What `parse` promises of the image it returns: every field is the
    /// corresponding function of the input bytes.
    pub open spec fn is_parsed_from(&self, b: Seq<u8>) -> bool {
        &&& self.width == spec_width(b)
        &&& self.height == spec_height(b)
        &&& self.variant == spec_variant(b)
        &&& self.alpha_depth == spec_depth(b)
        &&& self.palette@ == (if spec_variant(b) is Palette {
            spec_palette(b)
        } else {
            Seq::<u8>::empty()
        })
        &&& self.jpeg_header_len == (if spec_variant(b) is Jpeg {
            spec_jpeg_hlen(b)
        } else {
            0u32
        })
        &&& self.mips@.len() == 16
        &&& forall|i: int| 0 <= i < 16 ==> self.mips@[i] == (if mip_len(b, i) == 0 {
            MipEntry::Absent
        } else {
            (MipEntry::Pending { offset: mip_off(b, i), length: mip_len(b, i) })
        })
    }
}

/// Reads the little-endian 32-bit field at `off`.
fn read_u32_at(bytes: &[u8], off: usize) -> (r: u32)
    requires
        off + 4 <= bytes@.len(),
    ensures
        r == u32_at(bytes@, off as int),
{
    // Reading the length ties it to a machine word, so `off + 4` cannot wrap.
    let total: usize = bytes.len();
    let s = slice_subrange(bytes, off, off + 4);
    u32_from_le_bytes(s)
}

/// Computes the byte count mip `i` of the palette variant must hold.
pub(crate) fn palette_mip_need_exec(w: u32, h: u32, depth: u8, i: usize) -> (r: u64)
    requires
        1 <= w <= MAX_DIM,
        1 <= h <= MAX_DIM,
        (w as int) * (h as int) <= 268435456,
        i < 16,
        depth == 0 || depth == 1 || depth == 4 || depth == 8,
    ensures
        r == palette_mip_need(w, h, depth, i as int),
{
    let wi = mip_dim_exec(w, i);
    let hi = mip_dim_exec(h, i);
    proof {
        assert((wi as int) * (hi as int) <= 268435456) by (nonlinear_arith)
            requires
                0 <= wi <= w,
                0 <= hi <= h,
                (w as int) * (h as int) <= 268435456,
        ;
    }
    let n: u64 = (wi as u64) * (hi as u64);
    proof {
        assert(n * (depth as u64) <= 268435456 * 8) by (nonlinear_arith)
            requires
                0 <= n <= 268435456,
                0 <= depth <= 8,
        ;
    }
    n + (n * (depth as u64) + 7) / 8
}

/// Parses and validates a BLP byte stream.
///
/// Succeeds exactly on buffers that satisfy `parse_ok`: recognizable magic,
/// positive dimensions, a known variant tag and alpha depth, and a mip
/// table whose present entries lie inside the buffer and are long enough
/// for their level's geometry. Dimensions are bounded per axis by
/// `MAX_DIM` (the 16-bit frame-header fields of the JPEG variant, applied
/// to both variants so any parsed image can be re-encoded either way) and
/// in product by `MAX_PIXELS` (the allocation budget of one decoded RGBA
/// raster). The returned image has every present mip `Pending` and none
/// decoded.
pub fn parse(bytes: &[u8]) -> (r: Result<BlpImage, BlpError>)
    ensures
        r is Ok <==> parse_ok(bytes@),
        r is Err ==> r == Err::<BlpImage, BlpError>(BlpError::ParseError),
        r is Ok ==> r->Ok_0.is_parsed_from(bytes@) && r->Ok_0.wf(),
{
    if bytes.len() < HEADER_FIXED {
        return Err(BlpError::ParseError);
    }
    if !(*slice_index_get(bytes, 0) == 0x42u8 && *slice_index_get(bytes, 1) == 0x4cu8
        && *slice_index_get(bytes, 2) == 0x50u8 && *slice_index_get(bytes, 3) == 0x31u8) {
        return Err(BlpError::ParseError);
    }
    let width = read_u32_at(bytes, 4);
    let height = read_u32_at(bytes, 8);
    if width == 0 || width > MAX_DIM || height == 0 || height > MAX_DIM {
        return Err(BlpError::ParseError);
    }
    proof {
        assert((width as int) * (height as int) <= 65535 * 65535) by (nonlinear_arith)
            requires
                width <= 65535,
                height <= 65535,
        ;
    }
    if (width as u64) * (height as u64) > MAX_PIXELS {
        return Err(BlpError::ParseError);
    }
    let tag = *slice_index_get(bytes, 12);
    if !(tag == 0 || tag == 1) {
        return Err(BlpError::ParseError);
    }
    let variant = if tag == 1 {
        Variant::Palette
    } else {
        Variant::Jpeg
    };
    let depth = *slice_index_get(bytes, 13);
    let depth_valid = match variant {
        Variant::Palette => depth == 0 || depth == 1 || depth == 4 || depth == 8,
        Variant::Jpeg => depth == 0 || depth == 8,
    };
    if !depth_valid {
        return Err(BlpError::ParseError);
    }
    let hsize: usize = match variant {
        Variant::Palette => HEADER_PALETTE,
        Variant::Jpeg => HEADER_JPEG,
    };
    if bytes.len() < hsize {
        return Err(BlpError::ParseError);
    }

    let mut mips: Vec<MipEntry> = Vec::new();
    let mut i: usize = 0;
    while i < 16
        invariant
            i <= 16,
            mips@.len() == i,
            bytes@.len() >= 142,
            width == spec_width(bytes@),
            height == spec_height(bytes@),
            1 <= width <= MAX_DIM,
            1 <= height <= MAX_DIM,
            (width as int) * (height as int) <= 268435456,
            variant == spec_variant(bytes@),
            depth == spec_depth(bytes@),
            depth_ok(variant, depth),
            hsize as int == header_size(variant),
            bytes@.len() >= hsize,
            forall|k: int| 0 <= k < i ==> mip_entry_ok(bytes@, variant, width, height, depth, k),
            forall|k: int| 0 <= k < i ==> mips@[k] == (if mip_len(bytes@, k) == 0 {
                MipEntry::Absent
            } else {
                (MipEntry::Pending { offset: mip_off(bytes@, k), length: mip_len(bytes@, k) })
            }),
        decreases 16 - i,
    {
        let off = read_u32_at(bytes, 14 + 8 * i);
        let len = read_u32_at(bytes, 18 + 8 * i);
        if len == 0 {
            mips.push(MipEntry::Absent);
        } else {
            if (off as usize) < hsize || (off as u64) + (len as u64) > (bytes.len() as u64) {
                proof {
                    assert(!mip_entry_ok(bytes@, variant, width, height, depth, i as int));
                }
                return Err(BlpError::ParseError);
            }
            if matches!(variant, Variant::Palette) {
                let need = palette_mip_need_exec(width, height, depth, i);
                if (len as u64) < need {
                    proof {
                        assert(!mip_entry_ok(bytes@, variant, width, height, depth, i as int));
                    }
                    return Err(BlpError::ParseError);
                }
            }
            if matches!(variant, Variant::Jpeg) && depth == 8 {
                let wi = mip_dim_exec(width, i);
                let hi = mip_dim_exec(height, i);
                proof {
                    assert((wi as int) * (hi as int) <= 268435456) by (nonlinear_arith)
                        requires
                            0 <= wi <= width,
                            0 <= hi <= height,
                            (width as int) * (height as int) <= 268435456,
                    ;
                }
                if (len as u64) < (wi as u64) * (hi as u64) {
                    proof {
                        assert(!mip_entry_ok(bytes@, variant, width, height, depth, i as int));
                    }
                    return Err(BlpError::ParseError);
                }
            }
            mips.push(MipEntry::Pending { offset: off, length: len });
        }
        i = i + 1;
    }

    let mut palette: Vec<u8> = Vec::new();
    let mut jpeg_header_len: u32 = 0;
    match variant {
        Variant::Palette => {
            let mut k: usize = 0;
            while k < PALETTE_BYTES
                invariant
                    k <= 1024,
                    palette@.len() == k,
                    bytes@.len() >= 142 + 1024,
                    forall|j: int| 0 <= j < k ==> palette@[j] == bytes@[142 + j],
                decreases 1024 - k,
            {
                palette.push(*slice_index_get(bytes, HEADER_FIXED + k));
                k = k + 1;
            }
            proof {
                assert(palette@ =~= spec_palette(bytes@));
            }
        },
        Variant::Jpeg => {
            jpeg_header_len = read_u32_at(bytes, HEADER_FIXED);
            // The shared header must lie inside mip 0's JPEG part, and any
            // deeper mip needs mip 0 to be present.
            let len0 = read_u32_at(bytes, 18);
            if len0 == 0 {
                let mut any: bool = false;
                let mut k: usize = 1;
                while k < 16
                    invariant
                        1 <= k <= 16,
                        any <==> exists|j: int| 1 <= j < k && mip_len(bytes@, j) > 0,
                        bytes@.len() >= 142,
                    decreases 16 - k,
                {
                    let lk = read_u32_at(bytes, 18 + 8 * k);
                    if lk > 0 {
                        any = true;
                        proof {
                            assert(mip_len(bytes@, k as int) > 0 && 1 <= k as int);
                        }
                    }
                    k = k + 1;
                }
                if any {
                    return Err(BlpError::ParseError);
                }
            } else {
                let mut alpha0: u64 = 0;
                if depth == 8 {
                    let w0 = mip_dim_exec(width, 0);
                    let h0 = mip_dim_exec(height, 0);
                    proof {
                        assert((w0 as int) * (h0 as int) <= 268435456) by (nonlinear_arith)
                            requires
                                0 <= w0 <= width,
                                0 <= h0 <= height,
                                (width as int) * (height as int) <= 268435456,
                        ;
                    }
                    alpha0 = (w0 as u64) * (h0 as u64);
                }
                if (jpeg_header_len as u64) + alpha0 > (len0 as u64) {
                    return Err(BlpError::ParseError);
                }
            }
        },
    }

    let img = BlpImage { width, height, variant, alpha_depth: depth, palette, jpeg_header_len, mips };
    proof {
        assert(parse_ok(bytes@));
        assert(img.wf());
    }
    Ok(img)
}

} // verus!
