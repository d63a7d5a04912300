//! The JPEG variant: trusted wrappers around the outside JPEG codec
//! crates, and the verified scan that splits a stream at its frame header.
use vstd::prelude::*;
use vstd::slice::slice_index_get;
use crate::raster::MAX_DIM;
use crate::raster::Raster;
use crate::raster::lemma_flat_index;
use crate::raster::raster_data;
use crate::error::BlpError;

verus! {

/// Whether a byte stream decodes as a non-lossless JPEG image with 8-bit
/// RGB output.
pub uninterp spec fn jpeg_ok(b: Seq<u8>) -> bool;

/// Width of the image a JPEG stream decodes to.
pub uninterp spec fn jpeg_width(b: Seq<u8>) -> u16;

/// Height of the image a JPEG stream decodes to.
pub uninterp spec fn jpeg_height(b: Seq<u8>) -> u16;

/// Relies on jpeg_decoder::Decoder (decode, then info): whether a stream
/// decodes, and the dimensions the frame header reports, depend on the
/// bytes alone; a non-lossless 8-bit RGB decode yields three bytes per
/// pixel of those dimensions. Lossless frames are rejected here because
/// they may carry two bytes per sample, and the pixel values themselves
/// are deliberately not named: the decoder picks SIMD paths at run time,
/// so only their count is pinned.
#[verifier::external_body]
fn jpeg_decode_rgb(stream: &Vec<u8>) -> (r: Option<(u16, u16, Vec<u8>)>)
    ensures
        r is Some <==> jpeg_ok(stream@),
        r is Some ==> (r->Some_0.0 == jpeg_width(stream@) && r->Some_0.1 == jpeg_height(stream@)
            && r->Some_0.2@.len() == 3 * (jpeg_width(stream@) as nat) * (jpeg_height(stream@)
            as nat)),
{
    let mut dec = jpeg_decoder::Decoder::new(stream.as_slice());
    match (dec.decode(), dec.info()) {
        (Ok(px), Some(i)) => match (i.pixel_format, i.coding_process) {
            (jpeg_decoder::PixelFormat::RGB24, jpeg_decoder::CodingProcess::DctSequential)
            | (jpeg_decoder::PixelFormat::RGB24, jpeg_decoder::CodingProcess::DctProgressive) => {
                Some((i.width, i.height, px))
            },
            _ => None,
        },
        _ => None,
    }
}

/// Relies on jpeg_encoder::Encoder::encode with RGBA input: every stream
/// it writes opens with the two SOI marker bytes; any failure of the
/// compressor is reported as `None`.
#[verifier::external_body]
pub(crate) fn jpeg_encode_rgba(data: &Vec<u8>, w: u16, h: u16, quality: u8) -> (r: Option<Vec<u8>>)
    requires
        1 <= w,
        1 <= h,
        data@.len() == 4 * (w as nat) * (h as nat),
    ensures
        r is Some ==> r->Some_0@.len() >= 2 && r->Some_0@[0] == 0xffu8 && r->Some_0@[1] == 0xd8u8,
{
    let mut out: Vec<u8> = Vec::new();
    let enc = jpeg_encoder::Encoder::new(&mut out, quality);
    match enc.encode(data.as_slice(), w, h, jpeg_encoder::ColorType::Rgba) {
        Ok(()) => Some(out),
        Err(_) => None,
    }
}

/// The markers that open a frame header segment (SOF), distinguished from
/// the other `0xffc0`-block markers (Huffman tables, arithmetic coding).
pub open spec fn is_sof_marker(m: u8) -> bool {
    0xc0u8 <= m <= 0xcfu8 && m != 0xc4u8 && m != 0xc8u8 && m != 0xccu8
}

/// Walks the segment chain from byte `i` and returns the offset of the
/// first frame header marker, skipping each non-SOF segment by its
/// big-endian length field.
pub open spec fn sof_scan(b: Seq<u8>, i: int) -> Option<int>
    decreases b.len() - i,
{
    if i < 2 || i + 3 >= b.len() {
        None
    } else if b[i] != 0xffu8 {
        None
    } else if is_sof_marker(b[i + 1]) {
        Some(i)
    } else {
        let seglen = 256 * (b[i + 2] as int) + (b[i + 3] as int);
        if seglen < 2 {
            None
        } else if i + 2 + seglen + 3 >= b.len() {
            None
        } else {
            sof_scan(b, i + 2 + seglen)
        }
    }
}

/// Offset of the frame header in a JPEG stream; everything before it is
/// the header segment shared across the mips of one image.
pub open spec fn sof_split(b: Seq<u8>) -> Option<int> {
    if b.len() >= 2 && b[0] == 0xffu8 && b[1] == 0xd8u8 {
        sof_scan(b, 2)
    } else {
        None
    }
}

fn is_sof_marker_exec(m: u8) -> (r: bool)
    ensures
        r == is_sof_marker(m),
{
    0xc0u8 <= m && m <= 0xcfu8 && m != 0xc4u8 && m != 0xc8u8 && m != 0xccu8
}

/// Finds the frame-header offset of a JPEG stream, exactly as `sof_split`
/// describes.
pub fn find_sof(b: &[u8]) -> (r: Option<usize>)
    ensures
        match r {
            Some(i) => sof_split(b@) == Some(i as int),
            None => sof_split(b@) is None,
        },
{
    let total: usize = b.len();
    if total < 2 || *slice_index_get(b, 0) != 0xffu8 || *slice_index_get(b, 1) != 0xd8u8 {
        return None;
    }
    let mut i: usize = 2;
    loop
        invariant
            2 <= i,
            b@.len() == total,
            total >= 2,
            b@[0] == 0xffu8 && b@[1] == 0xd8u8,
            sof_split(b@) == sof_scan(b@, i as int),
        decreases b@.len() - i,
    {
        if i >= total || total - i < 4 {
            return None;
        }
        if *slice_index_get(b, i) != 0xffu8 {
            return None;
        }
        let m = *slice_index_get(b, i + 1);
        if is_sof_marker_exec(m) {
            return Some(i);
        }
        let seglen: usize = 256 * (*slice_index_get(b, i + 2) as usize) + (*slice_index_get(
            b,
            i + 3,
        ) as usize);
        if seglen < 2 {
            return None;
        }
        if seglen + 5 >= total - i {
            return None;
        }
        i = i + 2 + seglen;
    }
}

/// A found frame-header offset lies inside the stream with room for the
/// marker and its length field.
pub proof fn lemma_sof_scan_bounds(b: Seq<u8>, j: int, i: int)
    requires
        sof_scan(b, j) == Some(i),
    ensures
        2 <= j <= i,
        i + 3 < b.len(),
    decreases b.len() - j,
{
    if !(j < 2 || j + 3 >= b.len()) && b[j] == 0xffu8 && !is_sof_marker(b[j + 1]) {
        let seglen = 256 * (b[j + 2] as int) + (b[j + 3] as int);
        if seglen >= 2 && j + 2 + seglen + 3 < b.len() {
            lemma_sof_scan_bounds(b, j + 2 + seglen, i);
        }
    }
}

/// The RGBA bytes of a decoded JPEG mip: RGB from the decoded stream, the
/// alpha channel from the trailing plane when the alpha flag is set, and
/// opaque otherwise.
pub open spec fn rgba_from_rgb_alpha(rgb: Seq<u8>, alpha: Seq<u8>, w: nat, h: nat, depth: u8) -> Seq<u8> {
    raster_data(
        w,
        h,
        |x: int, y: int, c: int|
            {
                let p = y * (w as int) + x;
                if c < 3 {
                    rgb[3 * p + c]
                } else if depth == 8 {
                    alpha[p]
                } else {
                    255u8
                }
            },
    )
}

/// Decodes one JPEG-variant mip: the reassembled stream must decode to an
/// RGB image of exactly the mip's geometry; `alpha` is the trailing alpha
/// plane when the alpha flag is set. The RGB samples come from the outside
/// decoder, so the result's color bytes are pinned only through the
/// interleaving: some RGB sequence of the right length fills them, while
/// the alpha channel is exactly the given plane (or opaque).
pub fn decode_jpeg_mip_exec(stream: &Vec<u8>, alpha: &[u8], w: u32, h: u32, depth: u8) -> (r: Result<
    Raster,
    BlpError,
>)
    requires
        1 <= w <= MAX_DIM,
        1 <= h <= MAX_DIM,
        (w as int) * (h as int) <= 268435456,
        depth == 0 || depth == 8,
        depth == 8 ==> alpha@.len() == (w as int) * (h as int),
    ensures
        r is Ok <==> (jpeg_ok(stream@) && jpeg_width(stream@) == w && jpeg_height(stream@) == h),
        r is Ok ==> r->Ok_0@.w == w as nat && r->Ok_0@.h == h as nat && r->Ok_0@.wf(),
        r is Ok ==> (exists|rgb: Seq<u8>|
            rgb.len() == 3 * ((w as int) * (h as int)) && r->Ok_0@.data
                == #[trigger] rgba_from_rgb_alpha(rgb, alpha@, w as nat, h as nat, depth)),
        r is Err ==> r == Err::<Raster, BlpError>(BlpError::ParseError),
{
    let decoded = jpeg_decode_rgb(stream);
    match decoded {
        None => Err(BlpError::ParseError),
        Some((jw, jh, rgb)) => {
            if !(jw as u32 == w && jh as u32 == h) {
                return Err(BlpError::ParseError);
            }
            proof {
                assert((w as int) * (h as int) >= 1) by (nonlinear_arith)
                    requires
                        1 <= w,
                        1 <= h,
                ;
                assert((3 * ((w as int) * (h as int))) == 3 * (w as int) * (h as int))
                    by (nonlinear_arith);
                assert((4 * ((w as int) * (h as int))) == 4 * (w as int) * (h as int))
                    by (nonlinear_arith);
            }
            let n: usize = (w as usize) * (h as usize);
            let ghost target = rgba_from_rgb_alpha(rgb@, alpha@, w as nat, h as nat, depth);
            let mut out: Vec<u8> = Vec::new();
            let mut y: usize = 0;
            while y < (h as usize)
                invariant
                    1 <= w <= MAX_DIM,
                    1 <= h <= MAX_DIM,
                    depth == 0 || depth == 8,
                    depth == 8 ==> alpha@.len() == (w as int) * (h as int),
                    n == (w as int) * (h as int),
                    n <= 268435456,
                    rgb@.len() == 3 * n,
                    target == rgba_from_rgb_alpha(rgb@, alpha@, w as nat, h as nat, depth),
                    target.len() == 4 * n,
                    y <= h,
                    out@.len() == 4 * ((y as int) * (w as int)),
                    forall|j: int| 0 <= j < out@.len() ==> out@[j] == target[j],
                decreases h - y,
            {
                let mut x: usize = 0;
                while x < (w as usize)
                    invariant
                        1 <= w <= MAX_DIM,
                        1 <= h <= MAX_DIM,
                        depth == 0 || depth == 8,
                        depth == 8 ==> alpha@.len() == (w as int) * (h as int),
                        n == (w as int) * (h as int),
                        n <= 268435456,
                        rgb@.len() == 3 * n,
                        target == rgba_from_rgb_alpha(rgb@, alpha@, w as nat, h as nat, depth),
                        target.len() == 4 * n,
                        y < h,
                        x <= w,
                        out@.len() == 4 * ((y as int) * (w as int) + x as int),
                        forall|j: int| 0 <= j < out@.len() ==> out@[j] == target[j],
                    decreases w - x,
                {
                    proof {
                        assert((y as int) * (w as int) + x < n && (y as int) * (w as int) >= 0)
                            by (nonlinear_arith)
                            requires
                                0 <= x < w,
                                0 <= y < h,
                                n == (w as int) * (h as int),
                        ;
                    }
                    let p: usize = y * (w as usize) + x;
                    let a: u8 = if depth == 8 {
                        *slice_index_get(alpha, p)
                    } else {
                        255u8
                    };
                    proof {
                        lemma_flat_index(w as nat, h as nat, x as int, y as int, 0);
                        lemma_flat_index(w as nat, h as nat, x as int, y as int, 1);
                        lemma_flat_index(w as nat, h as nat, x as int, y as int, 2);
                        lemma_flat_index(w as nat, h as nat, x as int, y as int, 3);
                    }
                    out.push(rgb[3 * p]);
                    out.push(rgb[3 * p + 1]);
                    out.push(rgb[3 * p + 2]);
                    out.push(a);
                    x = x + 1;
                }
                y = y + 1;
                proof {
                    assert((y as int) * (w as int) == ((y - 1) as int) * (w as int) + (w as int))
                        by (nonlinear_arith);
                }
            }
            proof {
                assert((h as int) * (w as int) == (w as int) * (h as int)) by (nonlinear_arith);
                assert(out@ =~= target);
            }
            let res = Raster { width: w, height: h, data: out };
            proof {
                assert(res@.data == rgba_from_rgb_alpha(rgb@, alpha@, w as nat, h as nat, depth));
            }
            Ok(res)
        },
    }
}

} // verus!
