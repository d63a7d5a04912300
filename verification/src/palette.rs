//! The palette variant: index-plane and alpha-plane reconstruction.
use vstd::prelude::*;
use vstd::slice::slice_index_get;
use crate::format::alpha_plane_len;
use crate::raster::GRaster;
use crate::raster::MAX_DIM;
use crate::raster::Raster;
use crate::raster::lemma_flat_index;
use crate::raster::raster_data;

verus! {

/// Alpha of pixel `p` read from a plane packed at `depth` bits per pixel,
/// scaled to the full byte range; depth 0 means fully opaque.
pub open spec fn alpha_from_plane(plane: Seq<u8>, p: int, depth: u8) -> u8 {
    if depth == 8 {
        plane[p]
    } else if depth == 4 {
        let sh: u8 = if p % 2 == 1 {
            4u8
        } else {
            0u8
        };
        ((((plane[p / 2] >> sh) & 0x0fu8) as int) * 17) as u8
    } else if depth == 1 {
        let sh: u8 = (p % 8) as u8;
        ((((plane[p / 8] >> sh) & 0x01u8) as int) * 255) as u8
    } else {
        255u8
    }
}

/// Channel `c` of pixel `(x, y)` of a decoded palette mip: RGB through the
/// shared 256-entry palette, alpha from the packed plane.
pub open spec fn palette_byte(
    pal: Seq<u8>,
    idxs: Seq<u8>,
    plane: Seq<u8>,
    w: nat,
    depth: u8,
    x: int,
    y: int,
    c: int,
) -> u8 {
    let p = y * (w as int) + x;
    if c < 3 {
        pal[4 * (idxs[p] as int) + c]
    } else {
        alpha_from_plane(plane, p, depth)
    }
}

/// The RGBA bytes a palette mip decodes to: `data` is the mip's raw bytes,
/// an index plane of `w * h` bytes followed by the packed alpha plane.
pub open spec fn decode_palette_mip(pal: Seq<u8>, data: Seq<u8>, w: nat, h: nat, depth: u8) -> Seq<
    u8,
> {
    let n = w * h;
    let idxs = data.subrange(0, n as int);
    let plane = data.subrange(n as int, (n + alpha_plane_len(n, depth)) as int);
    raster_data(
        w,
        h,
        |x: int, y: int, c: int| palette_byte(pal, idxs, plane, w, depth, x, y, c),
    )
}

/// Reads the alpha byte of pixel `p` from the packed plane that follows the
/// `n`-byte index plane in a palette mip's data.
fn read_alpha(data: &[u8], n: usize, p: usize, depth: u8) -> (a: u8)
    requires
        p < n,
        n <= 268435456,
        depth == 0 || depth == 1 || depth == 4 || depth == 8,
        data@.len() >= n + alpha_plane_len(n as nat, depth),
    ensures
        a == alpha_from_plane(
            data@.subrange(n as int, n + alpha_plane_len(n as nat, depth)),
            p as int,
            depth,
        ),
{
    let ghost plane = data@.subrange(n as int, n + alpha_plane_len(n as nat, depth));
    if depth == 8 {
        proof {
            assert((n * 8 + 7) / 8 == n as int) by (nonlinear_arith);
        }
        *slice_index_get(data, n + p)
    } else if depth == 4 {
        proof {
            assert(p as int / 2 < (n * 4 + 7) / 8) by (nonlinear_arith)
                requires
                    0 <= p < n,
            ;
            assert(p / 2 < alpha_plane_len(n as nat, 4));
        }
        let b = *slice_index_get(data, n + p / 2);
        let sh: u8 = if p % 2 == 1 {
            4u8
        } else {
            0u8
        };
        let nib = (b >> sh) & 0x0fu8;
        proof {
            assert(((b >> sh) & 0x0fu8) <= 15) by (bit_vector);
            assert(b == plane[p as int / 2]);
            assert(p as int % 2 == (p % 2) as int);
        }
        nib * 17
    } else if depth == 1 {
        proof {
            assert(p as int / 8 < (n * 1 + 7) / 8) by (nonlinear_arith)
                requires
                    0 <= p < n,
            ;
            assert(p / 8 < alpha_plane_len(n as nat, 1));
        }
        let b = *slice_index_get(data, n + p / 8);
        let sh: u8 = (p % 8) as u8;
        let bit = (b >> sh) & 0x01u8;
        proof {
            assert(((b >> sh) & 0x01u8) <= 1) by (bit_vector);
            assert(b == plane[p as int / 8]);
        }
        bit * 255
    } else {
        255u8
    }
}

/// Decodes one palette-variant mip into an owned RGBA raster.
pub fn decode_palette_mip_exec(pal: &[u8], data: &[u8], w: u32, h: u32, depth: u8) -> (r: Raster)
    requires
        pal@.len() == 1024,
        1 <= w <= MAX_DIM,
        1 <= h <= MAX_DIM,
        (w as int) * (h as int) <= 268435456,
        depth == 0 || depth == 1 || depth == 4 || depth == 8,
        data@.len() >= w * h + alpha_plane_len((w * h) as nat, depth),
    ensures
        r@ == (GRaster {
            w: w as nat,
            h: h as nat,
            data: decode_palette_mip(pal@, data@, w as nat, h as nat, depth),
        }),
        r@.wf(),
{
    proof {
        assert((w as int) * (h as int) >= 1) by (nonlinear_arith)
            requires
                1 <= w,
                1 <= h,
        ;
    }
    let n: usize = (w as usize) * (h as usize);
    let ghost target = decode_palette_mip(pal@, data@, w as nat, h as nat, depth);
    let ghost idxs = data@.subrange(0, n as int);
    let ghost plane = data@.subrange(n as int, n + alpha_plane_len(n as nat, depth));
    proof {
        assert((4 * ((w as int) * (h as int))) == 4 * (w as int) * (h as int)) by (nonlinear_arith);
    }
    let mut out: Vec<u8> = Vec::new();
    let mut y: usize = 0;
    while y < (h as usize)
        invariant
            pal@.len() == 1024,
            1 <= w <= MAX_DIM,
            1 <= h <= MAX_DIM,
            depth == 0 || depth == 1 || depth == 4 || depth == 8,
            n == (w as int) * (h as int),
            n <= 268435456,
            data@.len() >= n + alpha_plane_len(n as nat, depth),
            idxs == data@.subrange(0, n as int),
            plane == data@.subrange(n as int, n + alpha_plane_len(n as nat, depth)),
            target == decode_palette_mip(pal@, data@, w as nat, h as nat, depth),
            target.len() == 4 * n,
            y <= h,
            out@.len() == 4 * ((y as int) * (w as int)),
            forall|j: int| 0 <= j < out@.len() ==> out@[j] == target[j],
        decreases h - y,
    {
        let mut x: usize = 0;
        while x < (w as usize)
            invariant
                pal@.len() == 1024,
                1 <= w <= MAX_DIM,
                1 <= h <= MAX_DIM,
                depth == 0 || depth == 1 || depth == 4 || depth == 8,
                n == (w as int) * (h as int),
                n <= 268435456,
                data@.len() >= n + alpha_plane_len(n as nat, depth),
                idxs == data@.subrange(0, n as int),
                plane == data@.subrange(n as int, n + alpha_plane_len(n as nat, depth)),
                target == decode_palette_mip(pal@, data@, w as nat, h as nat, depth),
                target.len() == 4 * n,
                y < h,
                x <= w,
                out@.len() == 4 * ((y as int) * (w as int) + x as int),
                forall|j: int| 0 <= j < out@.len() ==> out@[j] == target[j],
            decreases w - x,
        {
            proof {
                assert((y as int) * (w as int) + x < n && (y as int) * (w as int) >= 0)
                    by (nonlinear_arith)
                    requires
                        0 <= x < w,
                        0 <= y < h,
                        n == (w as int) * (h as int),
                ;
            }
            let p: usize = y * (w as usize) + x;
            let idx = *slice_index_get(data, p);
            let base: usize = 4 * (idx as usize);
            let alpha: u8 = read_alpha(data, n, p, depth);
            proof {
                lemma_flat_index(w as nat, h as nat, x as int, y as int, 0);
                lemma_flat_index(w as nat, h as nat, x as int, y as int, 1);
                lemma_flat_index(w as nat, h as nat, x as int, y as int, 2);
                lemma_flat_index(w as nat, h as nat, x as int, y as int, 3);
                assert(idxs[p as int] == data@[p as int]);
                assert(alpha == alpha_from_plane(plane, p as int, depth));
            }
            out.push(*slice_index_get(pal, base));
            out.push(*slice_index_get(pal, base + 1));
            out.push(*slice_index_get(pal, base + 2));
            out.push(alpha);
            x = x + 1;
        }
        y = y + 1;
        proof {
            assert((y as int) * (w as int) == ((y - 1) as int) * (w as int) + (w as int))
                by (nonlinear_arith);
        }
    }
    proof {
        assert((h as int) * (w as int) == (w as int) * (h as int)) by (nonlinear_arith);
        assert(out@ =~= target);
    }
    Raster { width: w, height: h, data: out }
}

} // verus!
