//! The codec's laws: palette round-trip exactness and decode idempotence.
use vstd::prelude::*;
use crate::encode::enc_depth;
use crate::encode::palette_blob;
use crate::encode::palette_encoded;
use crate::format::BlpImage;
use crate::format::MipEntry;
use crate::format::alpha_plane_len;
use crate::format::mip_len;
use crate::format::mip_off;
use crate::palette::decode_palette_mip;
use crate::quantize::alpha8_plane;
use crate::quantize::dist2;
use crate::quantize::distinct_colors;
use crate::quantize::has_alpha;
use crate::quantize::index_plane;
use crate::quantize::lemma_distinct_colors_complete;
use crate::quantize::lemma_nearest_is_best;
use crate::quantize::mip_raster;
use crate::quantize::nearest_idx;
use crate::quantize::pal_color;
use crate::quantize::pal_seq;
use crate::quantize::palette_table_bytes;
use crate::quantize::rgb_at;
use crate::raster::GRaster;
use crate::raster::ch_of;
use crate::raster::lemma_flat_index_inv;
use crate::raster::mip_dim;
use crate::raster::x_of;
use crate::raster::y_of;

verus! {

/// Law: quantizing a raster whose distinct colors fit one 256-entry
/// palette loses nothing — decoding the emitted index and alpha planes
/// against the emitted palette reproduces the source bytes exactly.
pub proof fn lemma_palette_quantize_exact(src: GRaster)
    requires
        src.wf(),
        distinct_colors(src.data, (src.w * src.h) as int).len() <= 256,
    ensures
        decode_palette_mip(
            palette_table_bytes(src.data, (src.w * src.h) as int),
            palette_blob(src, 0),
            src.w,
            src.h,
            enc_depth(src),
        ) == src.data,
{
    let w = src.w;
    let h = src.h;
    let data = src.data;
    let n = (w * h) as int;
    let d = enc_depth(src);
    let pal = pal_seq(data, n);
    let ptab = palette_table_bytes(data, n);
    let blob = palette_blob(src, 0);
    let dc = distinct_colors(data, n);
    assert(mip_raster(src, 0) == src);
    let ip = index_plane(pal, data, n);
    assert((n * 8 + 7) / 8 == n && (n * 0 + 7) / 8 == 0) by (nonlinear_arith)
        requires
            n >= 0,
    ;
    let idxs = blob.subrange(0, n);
    let plane = blob.subrange(n, n + alpha_plane_len(n as nat, d) as int);
    assert(idxs =~= ip);
    if d == 8 {
        assert(plane =~= alpha8_plane(data, n));
    }
    let out = decode_palette_mip(ptab, blob, w, h, d);
    assert(out.len() == 4 * w * h);
    assert(data.len() == 4 * w * h);
    assert forall|j: int| 0 <= j < 4 * w * h implies out[j] == data[j] by {
        lemma_flat_index_inv(w, h, j);
        let x = x_of(j, w);
        let y = y_of(j, w);
        let c = ch_of(j);
        let p = y * (w as int) + x;
        if c < 3 {
            let col = rgb_at(data, p);
            let best = nearest_idx(pal, col, 256);
            assert(idxs[p] == best as u8);
            lemma_distinct_colors_complete(data, n, p);
            let j0 = choose|j0: int| 0 <= j0 < dc.len() && dc[j0] == col;
            assert(pal[j0] == col);
            lemma_nearest_is_best(pal, col, 256);
            assert(dist2(pal[best], col) <= dist2(pal[j0], col));
            assert(dist2(col, col) == 0) by (nonlinear_arith);
            let pb = pal[best];
            assert(pb == col) by {
                assert(dist2(pb, col) <= 0);
                assert((pb.0 - col.0) * (pb.0 - col.0) >= 0 && (pb.1 - col.1) * (pb.1 - col.1)
                    >= 0 && (pb.2 - col.2) * (pb.2 - col.2) >= 0) by (nonlinear_arith);
                assert(pb.0 == col.0 && pb.1 == col.1 && pb.2 == col.2) by (nonlinear_arith)
                    requires
                        (pb.0 - col.0) * (pb.0 - col.0) + (pb.1 - col.1) * (pb.1 - col.1) + (pb.2
                            - col.2) * (pb.2 - col.2) <= 0,
                ;
            }
            let k = 4 * best + c;
            assert(k / 4 == best && k % 4 == c) by (nonlinear_arith)
                requires
                    0 <= c < 4,
                    0 <= best,
                    k == 4 * best + c,
            ;
            assert(pal[best] == pal_color(data, n, best));
            assert(out[j] == ptab[4 * (idxs[p] as int) + c]);
            assert(data[j] == (if c == 0 {
                col.0
            } else if c == 1 {
                col.1
            } else {
                col.2
            }));
        } else {
            if d == 8 {
                assert(out[j] == plane[p]);
                assert(plane[p] == data[4 * p + 3]);
            } else {
                assert(out[j] == 255u8);
                assert(!has_alpha(data, n));
                assert(data[4 * p + 3] == 255);
            }
        }
    }
    assert(out =~= data);
}

/// Law: a buffer produced by a palette encode that emitted the base level
/// parses back to an image whose mip 0 is decodable and decodes to exactly
/// the source pixels, when the source's distinct colors fit one palette.
pub proof fn lemma_palette_roundtrip(src: GRaster, emit: Seq<bool>, b: Seq<u8>, img: BlpImage)
    requires
        src.wf(),
        distinct_colors(src.data, (src.w * src.h) as int).len() <= 256,
        emit[0],
        palette_encoded(src, emit, b),
        img.is_parsed_from(b),
    ensures
        img.mips@[0] is Pending,
        img.mip_decodable(b, 0),
        img.decoded_mip(b, 0).w == src.w,
        img.decoded_mip(b, 0).h == src.h,
        img.decoded_mip(b, 0).data == src.data,
{
    let n = (src.w * src.h) as int;
    assert((src.w * src.h) as int >= 1) by (nonlinear_arith)
        requires
            src.w >= 1,
            src.h >= 1,
    ;
    assert(mip_len(b, 0) == palette_blob(src, 0).len());
    assert(palette_blob(src, 0).len() > 0) by {
        assert(mip_raster(src, 0) == src);
    }
    assert(img.mips@[0] == (MipEntry::Pending { offset: mip_off(b, 0), length: mip_len(b, 0) }));
    assert(img.entry_off(0) == mip_off(b, 0) && img.entry_len(0) == mip_len(b, 0));
    assert(crate::format::mip_entry_ok(
        b,
        crate::format::spec_variant(b),
        crate::format::spec_width(b),
        crate::format::spec_height(b),
        crate::format::spec_depth(b),
        0,
    ));
    assert(mip_dim(img.width, 0) == src.w && mip_dim(img.height, 0) == src.h) by {
        vstd::arithmetic::power2::lemma2_to64();
        vstd::arithmetic::div_mod::lemma_div_basics(src.w as int);
        vstd::arithmetic::div_mod::lemma_div_basics(src.h as int);
    }
    assert(img.mip_decodable(b, 0));
    assert(img.mip_data(b, 0) == palette_blob(src, 0));
    assert(img.palette@ == palette_table_bytes(src.data, n));
    lemma_palette_quantize_exact(src);
    assert(img.decoded_mip(b, 0).data == src.data);
}

/// Law: decoding is idempotent. After one successful decode nothing is
/// left pending among the requested levels, so a second decode against the
/// same buffer and mask succeeds and changes no slot.
pub proof fn lemma_decode_idempotent(
    s0: BlpImage,
    b: Seq<u8>,
    m: Seq<bool>,
    s1: BlpImage,
    s2: BlpImage,
)
    requires
        BlpImage::decode_post(s0, b, m, s1),
        BlpImage::decode_post(s1, b, m, s2),
    ensures
        forall|i: int| 0 <= i < 16 ==> !s1.requested(m, i),
        s2.width == s1.width,
        s2.height == s1.height,
        s2.variant == s1.variant,
        s2.alpha_depth == s1.alpha_depth,
        s2.palette == s1.palette,
        s2.jpeg_header_len == s1.jpeg_header_len,
        forall|i: int| 0 <= i < 16 ==> s2.mips@[i] == s1.mips@[i],
{
    assert forall|i: int| 0 <= i < 16 implies !s1.requested(m, i) by {
        assert(BlpImage::mip_post(s0, b, m, s1, i));
        if s0.requested(m, i) {
            assert(s1.mips@[i] is Decoded);
        } else {
            assert(s1.mips@[i] == s0.mips@[i]);
        }
    }
    assert forall|i: int| 0 <= i < 16 implies s2.mips@[i] == s1.mips@[i] by {
        assert(BlpImage::mip_post(s1, b, m, s2, i));
        assert(!s1.requested(m, i));
    }
}

} // verus!
