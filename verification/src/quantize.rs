//! The palette encoder's building blocks: box-filter downsampling, the
//! shared 256-color palette, and nearest-entry quantization.
use vstd::prelude::*;
use crate::raster::GRaster;
use crate::raster::MAX_DIM;
use crate::raster::Raster;
use crate::raster::byte_at;
use crate::raster::down_byte;
use crate::raster::downsampled;
use crate::raster::half_dim;
use crate::raster::lemma_flat_index;

verus! {

/// The RGB triple of pixel `p` in an RGBA byte sequence.
pub open spec fn rgb_at(data: Seq<u8>, p: int) -> (u8, u8, u8) {
    (data[4 * p], data[4 * p + 1], data[4 * p + 2])
}

/// The distinct RGB colors among the first `n` pixels, in order of first
/// appearance.
pub open spec fn distinct_colors(data: Seq<u8>, n: int) -> Seq<(u8, u8, u8)>
    decreases n,
{
    if n <= 0 {
        Seq::empty()
    } else {
        let prev = distinct_colors(data, n - 1);
        if prev.contains(rgb_at(data, n - 1)) {
            prev
        } else {
            prev.push(rgb_at(data, n - 1))
        }
    }
}

/// Entry `j` of the shared palette built from the first `n` pixels: the
/// first 256 distinct colors, padded with black.
pub open spec fn pal_color(data: Seq<u8>, n: int, j: int) -> (u8, u8, u8) {
    let dc = distinct_colors(data, n);
    if 0 <= j < dc.len() && j < 256 {
        dc[j]
    } else {
        (0u8, 0u8, 0u8)
    }
}

/// The palette as 256 colors.
pub open spec fn pal_seq(data: Seq<u8>, n: int) -> Seq<(u8, u8, u8)> {
    Seq::new(256, |j: int| pal_color(data, n, j))
}

/// The palette's on-disk form: 256 RGBA entries, alpha 255.
pub open spec fn palette_table_bytes(data: Seq<u8>, n: int) -> Seq<u8> {
    Seq::new(
        1024,
        |k: int|
            {
                let col = pal_color(data, n, k / 4);
                if k % 4 == 0 {
                    col.0
                } else if k % 4 == 1 {
                    col.1
                } else if k % 4 == 2 {
                    col.2
                } else {
                    255u8
                }
            },
    )
}

/// Squared RGB distance.
pub open spec fn dist2(a: (u8, u8, u8), b: (u8, u8, u8)) -> int {
    (a.0 - b.0) * (a.0 - b.0) + (a.1 - b.1) * (a.1 - b.1) + (a.2 - b.2) * (a.2 - b.2)
}

/// Index of the entry among the first `k` of `pal` nearest to `c`; the
/// earliest entry wins ties.
pub open spec fn nearest_idx(pal: Seq<(u8, u8, u8)>, c: (u8, u8, u8), k: int) -> int
    decreases k,
{
    if k <= 1 {
        0
    } else {
        let b = nearest_idx(pal, c, k - 1);
        if dist2(pal[k - 1], c) < dist2(pal[b], c) {
            k - 1
        } else {
            b
        }
    }
}

/// The nearest entry is within range and at least as close as every entry.
pub proof fn lemma_nearest_is_best(pal: Seq<(u8, u8, u8)>, c: (u8, u8, u8), k: int)
    requires
        1 <= k,
    ensures
        0 <= nearest_idx(pal, c, k) < k,
        forall|j: int| 0 <= j < k ==> dist2(pal[nearest_idx(pal, c, k)], c) <= dist2(#[trigger] pal[j], c),
    decreases k,
{
    if k > 1 {
        lemma_nearest_is_best(pal, c, k - 1);
    }
}

/// The index plane of one mip: each pixel's nearest palette entry.
pub open spec fn index_plane(pal: Seq<(u8, u8, u8)>, data: Seq<u8>, n: int) -> Seq<u8> {
    Seq::new(n as nat, |p: int| nearest_idx(pal, rgb_at(data, p), 256) as u8)
}

/// The eight-bit alpha plane of one mip: each pixel's alpha byte.
pub open spec fn alpha8_plane(data: Seq<u8>, n: int) -> Seq<u8> {
    Seq::new(n as nat, |p: int| data[4 * p + 3])
}

/// Whether any of the first `n` pixels is not fully opaque.
pub open spec fn has_alpha(data: Seq<u8>, n: int) -> bool {
    exists|p: int| 0 <= p < n && #[trigger] data[4 * p + 3] != 255
}

/// The mip pyramid of a source raster: level 0 is the raster itself, each
/// deeper level the box-filter downsample of the one above.
pub open spec fn mip_raster(g: GRaster, i: nat) -> GRaster
    decreases i,
{
    if i == 0 {
        g
    } else {
        downsampled(mip_raster(g, (i - 1) as nat))
    }
}

/// Every color drawn from the pixels is collected by `distinct_colors`.
pub proof fn lemma_distinct_colors_complete(data: Seq<u8>, n: int, p: int)
    requires
        0 <= p < n,
    ensures
        distinct_colors(data, n).contains(rgb_at(data, p)),
    decreases n,
{
    if p < n - 1 {
        lemma_distinct_colors_complete(data, n - 1, p);
        let prev = distinct_colors(data, n - 1);
        let c = rgb_at(data, p);
        let j = choose|j: int| 0 <= j < prev.len() && prev[j] == c;
        if !prev.contains(rgb_at(data, n - 1)) {
            assert(prev.push(rgb_at(data, n - 1))[j] == c);
        }
    } else {
        let prev = distinct_colors(data, n - 1);
        let c = rgb_at(data, n - 1);
        if !prev.contains(c) {
            assert(prev.push(c)[prev.len() as int] == c);
        }
    }
}

/// Executable box-filter downsample.
pub fn downsample_exec(src: &Raster) -> (r: Raster)
    requires
        src@.wf(),
    ensures
        r@ == downsampled(src@),
        r@.wf(),
{
    let w = src.width;
    let h = src.height;
    let nw: u32 = if w / 2 == 0 {
        1
    } else {
        w / 2
    };
    let nh: u32 = if h / 2 == 0 {
        1
    } else {
        h / 2
    };
    proof {
        assert((nw as int) * (nh as int) <= 268435456 && 1 <= (nw as int) * (nh as int))
            by (nonlinear_arith)
            requires
                1 <= nw <= src.width,
                1 <= nh <= src.height,
                (src.width as int) * (src.height as int) <= 268435456,
        ;
        assert((4 * ((nw as int) * (nh as int))) == 4 * (nw as int) * (nh as int))
            by (nonlinear_arith);
    }
    let ghost target = downsampled(src@);
    let mut out: Vec<u8> = Vec::new();
    let mut y: usize = 0;
    while y < (nh as usize)
        invariant
            src@.wf(),
            w == src.width,
            h == src.height,
            nw == half_dim(src@.w),
            nh == half_dim(src@.h),
            1 <= nw <= MAX_DIM,
            1 <= nh <= MAX_DIM,
            target == downsampled(src@),
            target.data.len() == 4 * ((nw as int) * (nh as int)),
            y <= nh,
            out@.len() == 4 * ((y as int) * (nw as int)),
            forall|j: int| 0 <= j < out@.len() ==> out@[j] == target.data[j],
        decreases nh - y,
    {
        let mut x: usize = 0;
        while x < (nw as usize)
            invariant
                src@.wf(),
                w == src.width,
                h == src.height,
                nw == half_dim(src@.w),
                nh == half_dim(src@.h),
                1 <= nw <= MAX_DIM,
                1 <= nh <= MAX_DIM,
                target == downsampled(src@),
                target.data.len() == 4 * ((nw as int) * (nh as int)),
                y < nh,
                x <= nw,
                out@.len() == 4 * ((y as int) * (nw as int) + x as int),
                forall|j: int| 0 <= j < out@.len() ==> out@[j] == target.data[j],
            decreases nw - x,
        {
            let x0: u32 = if 2 * (x as u32) >= w {
                w - 1
            } else {
                2 * (x as u32)
            };
            let x1: u32 = if 2 * (x as u32) + 1 >= w {
                w - 1
            } else {
                2 * (x as u32) + 1
            };
            let y0: u32 = if 2 * (y as u32) >= h {
                h - 1
            } else {
                2 * (y as u32)
            };
            let y1: u32 = if 2 * (y as u32) + 1 >= h {
                h - 1
            } else {
                2 * (y as u32) + 1
            };
            let mut c: usize = 0;
            while c < 4
                invariant
                    src@.wf(),
                    w == src.width,
                    h == src.height,
                    nw == half_dim(src@.w),
                    nh == half_dim(src@.h),
                    1 <= nw <= MAX_DIM,
                    1 <= nh <= MAX_DIM,
                    target == downsampled(src@),
                    target.data.len() == 4 * ((nw as int) * (nh as int)),
                    y < nh,
                    x < nw,
                    x0 == crate::raster::clamp_idx(2 * (x as int), src@.w),
                    x1 == crate::raster::clamp_idx(2 * (x as int) + 1, src@.w),
                    y0 == crate::raster::clamp_idx(2 * (y as int), src@.h),
                    y1 == crate::raster::clamp_idx(2 * (y as int) + 1, src@.h),
                    c <= 4,
                    out@.len() == 4 * ((y as int) * (nw as int) + x as int) + c as int,
                    forall|j: int| 0 <= j < out@.len() ==> out@[j] == target.data[j],
                decreases 4 - c,
            {
                let a = fetch(src, x0, y0, c);
                let b = fetch(src, x1, y0, c);
                let d = fetch(src, x0, y1, c);
                let e = fetch(src, x1, y1, c);
                let avg: u8 = (((a as u32) + (b as u32) + (d as u32) + (e as u32)) / 4) as u8;
                proof {
                    lemma_flat_index(nw as nat, nh as nat, x as int, y as int, c as int);
                    assert(avg == down_byte(src@, x as int, y as int, c as int));
                    assert(target.data[4 * ((y as int) * (nw as int) + x as int) + c as int]
                        == down_byte(src@, x as int, y as int, c as int));
                }
                out.push(avg);
                c = c + 1;
            }
            x = x + 1;
        }
        y = y + 1;
        proof {
            assert((y as int) * (nw as int) == ((y - 1) as int) * (nw as int) + (nw as int))
                by (nonlinear_arith);
        }
    }
    proof {
        assert((nh as int) * (nw as int) == (nw as int) * (nh as int)) by (nonlinear_arith);
        assert(out@ =~= target.data);
    }
    Raster { width: nw, height: nh, data: out }
}

/// Reads channel `c` of pixel `(x, y)` of a raster.
fn fetch(src: &Raster, x: u32, y: u32, c: usize) -> (r: u8)
    requires
        src@.wf(),
        x < src.width,
        y < src.height,
        c < 4,
    ensures
        r == byte_at(src@.data, src@.w, x as int, y as int, c as int),
{
    proof {
        lemma_flat_index(src@.w, src@.h, x as int, y as int, c as int);
        assert(4 * (src@.w as int) * (src@.h as int) <= 1073741824) by (nonlinear_arith)
            requires
                1 <= src@.w,
                1 <= src@.h,
                (src@.w as int) * (src@.h as int) <= 268435456,
        ;
    }
    let idx: usize = 4 * ((y as usize) * (src.width as usize) + (x as usize)) + c;
    src.data[idx]
}

/// Whether the color list already holds `c`.
fn contains_color(colors: &Vec<(u8, u8, u8)>, c: (u8, u8, u8)) -> (r: bool)
    ensures
        r == colors@.contains(c),
{
    let mut k: usize = 0;
    while k < colors.len()
        invariant
            k <= colors@.len(),
            forall|j: int| 0 <= j < k ==> colors@[j] != c,
        decreases colors@.len() - k,
    {
        let e = colors[k];
        if e.0 == c.0 && e.1 == c.1 && e.2 == c.2 {
            proof {
                assert(colors@[k as int] == c);
            }
            return true;
        }
        k = k + 1;
    }
    proof {
        assert(forall|j: int| 0 <= j < colors@.len() ==> colors@[j] != c);
    }
    false
}

/// Builds the shared palette of a mip-0 raster: its first 256 distinct
/// colors in order of first appearance, padded with black to 256 entries.
pub fn build_palette(src: &Raster) -> (pal: Vec<(u8, u8, u8)>)
    requires
        src@.wf(),
    ensures
        pal@ == pal_seq(src@.data, (src@.w * src@.h) as int),
{
    proof {
        assert(1 <= (src.width as int) * (src.height as int) <= 268435456) by (nonlinear_arith)
            requires
                1 <= src.width,
                1 <= src.height,
                (src.width as int) * (src.height as int) <= 268435456,
        ;
    }
    proof {
        assert((4 * ((src.width as int) * (src.height as int))) == 4 * (src.width as int) * (
        src.height as int)) by (nonlinear_arith);
    }
    let n: usize = (src.width as usize) * (src.height as usize);
    let ghost data = src@.data;
    let mut colors: Vec<(u8, u8, u8)> = Vec::new();
    let mut p: usize = 0;
    while p < n
        invariant
            src@.wf(),
            n == (src@.w * src@.h) as int,
            n <= 268435456,
            data == src@.data,
            data.len() == 4 * n,
            p <= n,
            colors@.len() <= 256,
            colors@ == (if distinct_colors(data, p as int).len() <= 256 {
                distinct_colors(data, p as int)
            } else {
                distinct_colors(data, p as int).take(256)
            }),
        decreases n - p,
    {
        proof {
            assert(4 * (p as int) + 3 < 4 * n);
        }
        let c: (u8, u8, u8) = (src.data[4 * p], src.data[4 * p + 1], src.data[4 * p + 2]);
        let ghost dcp = distinct_colors(data, p as int);
        let ghost dcn = distinct_colors(data, p as int + 1);
        let already = contains_color(&colors, c);
        if !already {
            if colors.len() < 256 {
                colors.push(c);
                proof {
                    assert(colors@.len() <= 256);
                    assert(!dcp.contains(c)) by {
                        if dcp.contains(c) {
                            let j = choose|j: int| 0 <= j < dcp.len() && dcp[j] == c;
                            assert(dcp.len() <= 256);
                            assert(colors@.drop_last()[j] == c);
                            assert(colors@.drop_last().contains(c));
                        }
                    }
                    assert(dcn == dcp.push(c));
                    assert(colors@ =~= dcn);
                }
            } else {
                proof {
                    assert(dcp.len() >= 256);
                    if dcn.len() <= 256 {
                        assert(dcn =~= colors@);
                    } else {
                        assert(dcn.take(256) =~= dcp.take(256));
                    }
                }
            }
        } else {
            proof {
                let j = choose|j: int| 0 <= j < colors@.len() && colors@[j] == c;
                if dcp.len() <= 256 {
                    assert(dcp[j] == c);
                } else {
                    assert(dcp.take(256)[j] == c);
                    assert(dcp[j] == c);
                }
                assert(dcp.contains(c));
                assert(dcn == dcp);
            }
        }
        p = p + 1;
    }
    // Pad with black to exactly 256 entries.
    let ghost dc = distinct_colors(data, n as int);
    while colors.len() < 256
        invariant
            colors@.len() <= 256,
            dc == distinct_colors(data, n as int),
            forall|j: int|
                0 <= j < colors@.len() ==> colors@[j] == pal_color(data, n as int, j),
            colors@.len() >= 256 || colors@.len() >= dc.len(),
        decreases 256 - colors@.len(),
    {
        colors.push((0u8, 0u8, 0u8));
    }
    proof {
        assert(colors@ =~= pal_seq(data, n as int));
    }
    colors
}

/// The index of the palette entry nearest to `c`, searched over all 256
/// entries, earliest entry winning ties.
pub fn nearest_exec(pal: &Vec<(u8, u8, u8)>, c: (u8, u8, u8)) -> (r: u8)
    requires
        pal@.len() == 256,
    ensures
        r as int == nearest_idx(pal@, c, 256),
{
    let mut best: usize = 0;
    let mut best_d: u32 = dist2_exec(pal[0], c);
    let mut k: usize = 1;
    while k < 256
        invariant
            pal@.len() == 256,
            1 <= k <= 256,
            best as int == nearest_idx(pal@, c, k as int),
            best < k,
            best_d == dist2(pal@[best as int], c),
        decreases 256 - k,
    {
        let d = dist2_exec(pal[k], c);
        if d < best_d {
            best = k;
            best_d = d;
        }
        k = k + 1;
    }
    best as u8
}

/// Squared RGB distance, executable.
fn dist2_exec(a: (u8, u8, u8), b: (u8, u8, u8)) -> (r: u32)
    ensures
        r == dist2(a, b),
{
    let dr: i32 = (a.0 as i32) - (b.0 as i32);
    let dg: i32 = (a.1 as i32) - (b.1 as i32);
    let db: i32 = (a.2 as i32) - (b.2 as i32);
    proof {
        assert(0 <= dr * dr <= 65025 && 0 <= dg * dg <= 65025 && 0 <= db * db <= 65025)
            by (nonlinear_arith)
            requires
                -255 <= dr <= 255,
                -255 <= dg <= 255,
                -255 <= db <= 255,
        ;
    }
    ((dr * dr) + (dg * dg) + (db * db)) as u32
}

/// Emits the index plane of one mip against the shared palette.
pub fn quantize_plane(pal: &Vec<(u8, u8, u8)>, mip: &Raster) -> (r: Vec<u8>)
    requires
        pal@.len() == 256,
        mip@.wf(),
    ensures
        r@ == index_plane(pal@, mip@.data, (mip@.w * mip@.h) as int),
{
    proof {
        assert(1 <= (mip.width as int) * (mip.height as int) <= 268435456) by (nonlinear_arith)
            requires
                1 <= mip.width,
                1 <= mip.height,
                (mip.width as int) * (mip.height as int) <= 268435456,
        ;
    }
    proof {
        assert((4 * ((mip.width as int) * (mip.height as int))) == 4 * (mip.width as int) * (
        mip.height as int)) by (nonlinear_arith);
    }
    let n: usize = (mip.width as usize) * (mip.height as usize);
    let mut out: Vec<u8> = Vec::new();
    let mut p: usize = 0;
    while p < n
        invariant
            pal@.len() == 256,
            mip@.wf(),
            n == (mip@.w * mip@.h) as int,
            n <= 268435456,
            mip@.data.len() == 4 * n,
            p <= n,
            out@.len() == p,
            forall|j: int|
                0 <= j < p ==> out@[j] == index_plane(pal@, mip@.data, n as int)[j],
        decreases n - p,
    {
        proof {
            assert(4 * (p as int) + 3 < 4 * n);
        }
        let c: (u8, u8, u8) = (mip.data[4 * p], mip.data[4 * p + 1], mip.data[4 * p + 2]);
        let idx = nearest_exec(pal, c);
        out.push(idx);
        p = p + 1;
    }
    proof {
        assert(out@ =~= index_plane(pal@, mip@.data, n as int));
    }
    out
}

/// Emits the eight-bit alpha plane of one mip.
pub fn alpha_plane_exec(mip: &Raster) -> (r: Vec<u8>)
    requires
        mip@.wf(),
    ensures
        r@ == alpha8_plane(mip@.data, (mip@.w * mip@.h) as int),
{
    proof {
        assert(1 <= (mip.width as int) * (mip.height as int) <= 268435456) by (nonlinear_arith)
            requires
                1 <= mip.width,
                1 <= mip.height,
                (mip.width as int) * (mip.height as int) <= 268435456,
        ;
    }
    proof {
        assert((4 * ((mip.width as int) * (mip.height as int))) == 4 * (mip.width as int) * (
        mip.height as int)) by (nonlinear_arith);
    }
    let n: usize = (mip.width as usize) * (mip.height as usize);
    let mut out: Vec<u8> = Vec::new();
    let mut p: usize = 0;
    while p < n
        invariant
            mip@.wf(),
            n == (mip@.w * mip@.h) as int,
            n <= 268435456,
            mip@.data.len() == 4 * n,
            p <= n,
            out@.len() == p,
            forall|j: int| 0 <= j < p ==> out@[j] == alpha8_plane(mip@.data, n as int)[j],
        decreases n - p,
    {
        proof {
            assert(4 * (p as int) + 3 < 4 * n);
        }
        out.push(mip.data[4 * p + 3]);
        p = p + 1;
    }
    proof {
        assert(out@ =~= alpha8_plane(mip@.data, n as int));
    }
    out
}

/// Whether any pixel of the raster is not fully opaque.
pub fn has_alpha_exec(mip: &Raster) -> (r: bool)
    requires
        mip@.wf(),
    ensures
        r == has_alpha(mip@.data, (mip@.w * mip@.h) as int),
{
    proof {
        assert(1 <= (mip.width as int) * (mip.height as int) <= 268435456) by (nonlinear_arith)
            requires
                1 <= mip.width,
                1 <= mip.height,
                (mip.width as int) * (mip.height as int) <= 268435456,
        ;
    }
    proof {
        assert((4 * ((mip.width as int) * (mip.height as int))) == 4 * (mip.width as int) * (
        mip.height as int)) by (nonlinear_arith);
    }
    let n: usize = (mip.width as usize) * (mip.height as usize);
    let mut p: usize = 0;
    while p < n
        invariant
            mip@.wf(),
            n == (mip@.w * mip@.h) as int,
            n <= 268435456,
            mip@.data.len() == 4 * n,
            p <= n,
            forall|j: int| 0 <= j < p ==> #[trigger] mip@.data[4 * j + 3] == 255,
        decreases n - p,
    {
        proof {
            assert(4 * (p as int) + 3 < 4 * n);
        }
        if mip.data[4 * p + 3] != 255 {
            return true;
        }
        p = p + 1;
    }
    false
}

} // verus!
