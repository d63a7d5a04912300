//! The encoder: palette or JPEG mip pyramids serialized into a fresh BLP
//! stream.
use vstd::prelude::*;
use vstd::bytes::spec_u32_to_le_bytes;
use vstd::bytes::spec_u32_from_le_bytes;
use vstd::bytes::u32_to_le_bytes;
use vstd::bytes::lemma_auto_spec_u32_to_from_le_bytes;
use crate::error::BlpError;
use crate::format::Variant;
use crate::format::magic_ok;
use crate::format::mip_entry_ok;
use crate::format::mip_len;
use crate::format::mip_off;
use crate::format::mip_px;
use crate::format::parse_ok;
use crate::format::spec_depth;
use crate::format::spec_height;
use crate::format::spec_jpeg_hlen;
use crate::format::spec_palette;
use crate::format::spec_variant;
use crate::format::spec_width;
use crate::quantize::alpha8_plane;
use crate::quantize::alpha_plane_exec;
use crate::quantize::build_palette;
use crate::quantize::downsample_exec;
use crate::quantize::has_alpha;
use crate::quantize::has_alpha_exec;
use crate::quantize::index_plane;
use crate::quantize::mip_raster;
use crate::quantize::pal_seq;
use crate::quantize::palette_table_bytes;
use crate::quantize::quantize_plane;
use crate::raster::GRaster;
use crate::raster::MAX_DIM;
use crate::raster::Raster;
use crate::raster::half_dim;
use crate::raster::lemma_mip_dim_step;
use crate::raster::mip_dim;

verus! {

/// The alpha depth the encoder chooses: eight bits when any source pixel
/// is not fully opaque, none otherwise.
pub open spec fn enc_depth(g: GRaster) -> u8 {
    if has_alpha(g.data, (g.w * g.h) as int) {
        8u8
    } else {
        0u8
    }
}

/// The bytes of one palette-variant mip: the index plane against the shared
/// palette, then the eight-bit alpha plane when the alpha flag is set.
pub open spec fn mip_blob(pal: Seq<(u8, u8, u8)>, m: GRaster, depth: u8) -> Seq<u8> {
    let n = (m.w * m.h) as int;
    if depth == 8 {
        index_plane(pal, m.data, n) + alpha8_plane(m.data, n)
    } else {
        index_plane(pal, m.data, n)
    }
}

/// The bytes of palette-variant mip `i` of a source raster.
pub open spec fn palette_blob(src: GRaster, i: nat) -> Seq<u8> {
    mip_blob(pal_seq(src.data, (src.w * src.h) as int), mip_raster(src, i), enc_depth(src))
}

/// The visibility mask that requests the first `mc` levels.
pub open spec fn count_mask(mc: int) -> Seq<bool> {
    Seq::new(16, |i: int| i < mc)
}

/// Byte offset where blob `k` starts, after a header of `hsize` bytes and
/// the blobs before it.
pub open spec fn cum_off(bl: Seq<Seq<u8>>, hsize: int, k: int) -> int
    decreases k,
{
    if k <= 0 {
        hsize
    } else {
        cum_off(bl, hsize, k - 1) + bl[k - 1].len()
    }
}

proof fn lemma_cum_off_mono(bl: Seq<Seq<u8>>, hsize: int, k1: int, k2: int)
    requires
        0 <= k1 <= k2,
    ensures
        cum_off(bl, hsize, k1) <= cum_off(bl, hsize, k2),
    decreases k2 - k1,
{
    if k1 < k2 {
        lemma_cum_off_mono(bl, hsize, k1, k2 - 1);
    }
}

/// Mip `i` of a well-formed raster is well formed and has the mip geometry
/// of its level.
pub proof fn lemma_mip_raster_dims(g: GRaster, i: nat)
    requires
        g.wf(),
    ensures
        mip_raster(g, i).wf(),
        mip_raster(g, i).w == mip_dim(g.w as u32, i),
        mip_raster(g, i).h == mip_dim(g.h as u32, i),
    decreases i,
{
    vstd::arithmetic::power2::lemma2_to64();
    if i == 0 {
        assert(mip_dim(g.w as u32, 0) == g.w) by {
            vstd::arithmetic::div_mod::lemma_div_basics(g.w as int);
        }
        assert(mip_dim(g.h as u32, 0) == g.h) by {
            vstd::arithmetic::div_mod::lemma_div_basics(g.h as int);
        }
    } else {
        lemma_mip_raster_dims(g, (i - 1) as nat);
        lemma_mip_dim_step(g.w as u32, (i - 1) as nat);
        lemma_mip_dim_step(g.h as u32, (i - 1) as nat);
        let prev = mip_raster(g, (i - 1) as nat);
        assert(mip_raster(g, i) == crate::raster::downsampled(prev));
        assert((4 * ((half_dim(prev.w) * half_dim(prev.h)) as int)) == 4 * half_dim(prev.w)
            * half_dim(prev.h)) by (nonlinear_arith);
        assert(half_dim(prev.w) * half_dim(prev.h) <= prev.w * prev.h) by (nonlinear_arith)
            requires
                1 <= half_dim(prev.w) <= prev.w,
                1 <= half_dim(prev.h) <= prev.h,
        ;
    }
}

/// Serializes header fields, the variant's shared table, and sixteen mip
/// blobs into one BLP stream; an empty blob marks an absent level. Fails
/// exactly when the stream would outgrow the 32-bit offsets of the mip
/// table.
fn serialize_blp(width: u32, height: u32, tag: u8, depth: u8, extra: &Vec<u8>, blobs: &Vec<
    Vec<u8>,
>) -> (r: Result<Vec<u8>, BlpError>)
    requires
        blobs@.len() == 16,
        extra@.len() == 1024 || extra@.len() == 4,
        forall|i: int| 0 <= i < 16 ==> (#[trigger] blobs@[i])@.len() <= 0x40000000,
    ensures
        r is Err ==> r == Err::<Vec<u8>, BlpError>(BlpError::EncodeError),
        r is Ok <==> cum_off(blobs@.map_values(|v: Vec<u8>| v@), 142 + extra@.len() as int, 16)
            <= u32::MAX,
        r is Ok ==> ({
            let b = r->Ok_0@;
            &&& b.len() == cum_off(blobs@.map_values(|v: Vec<u8>| v@), 142 + extra@.len() as int, 16)
            &&& magic_ok(b)
            &&& spec_width(b) == width
            &&& spec_height(b) == height
            &&& b[12] == tag
            &&& b[13] == depth
            &&& b.subrange(142, 142 + extra@.len() as int) == extra@
            &&& forall|i: int| 0 <= i < 16 ==> mip_len(b, i) == (#[trigger] blobs@[i])@.len()
            &&& forall|i: int|
                0 <= i < 16 && (#[trigger] blobs@[i])@.len() > 0 ==> (mip_off(b, i) >= 142
                    + extra@.len() && mip_off(b, i) + mip_len(b, i) <= b.len() && b.subrange(
                    mip_off(b, i) as int,
                    mip_off(b, i) + mip_len(b, i),
                ) == blobs@[i]@)
        }),
{
    proof {
        lemma_auto_spec_u32_to_from_le_bytes();
    }
    let ghost bl = blobs@.map_values(|v: Vec<u8>| v@);
    let hsize: usize = 142 + extra.len();
    let mut offs: Vec<u32> = Vec::new();
    let mut lens32: Vec<u32> = Vec::new();
    let mut acc: u64 = hsize as u64;
    let mut i: usize = 0;
    while i < 16
        invariant
            blobs@.len() == 16,
            bl == blobs@.map_values(|v: Vec<u8>| v@),
            forall|k: int| 0 <= k < 16 ==> (#[trigger] blobs@[k])@.len() <= 0x40000000,
            hsize == 142 + extra@.len(),
            i <= 16,
            offs@.len() == i,
            lens32@.len() == i,
            acc == cum_off(bl, hsize as int, i as int),
            acc <= u32::MAX,
            forall|k: int| 0 <= k < i ==> offs@[k] == cum_off(bl, hsize as int, k),
            forall|k: int| 0 <= k < i ==> lens32@[k] == (#[trigger] blobs@[k])@.len(),
        decreases 16 - i,
    {
        let blen: usize = blobs[i].len();
        proof {
            assert(bl[i as int] == blobs@[i as int]@);
        }
        if acc + (blen as u64) > 0xffffffffu64 {
            proof {
                lemma_cum_off_mono(bl, hsize as int, i as int + 1, 16);
            }
            return Err(BlpError::EncodeError);
        }
        offs.push(acc as u32);
        lens32.push(blen as u32);
        acc = acc + (blen as u64);
        i = i + 1;
    }
    // The mip table bytes: offset then length, little endian, per level.
    let mut tbl: Vec<u8> = Vec::new();
    let mut i: usize = 0;
    while i < 16
        invariant
            offs@.len() == 16,
            lens32@.len() == 16,
            i <= 16,
            tbl@.len() == 8 * i,
            forall|k: int|
                0 <= k < i ==> #[trigger] tbl@.subrange(8 * k, 8 * k + 4) == spec_u32_to_le_bytes(
                    offs@[k],
                ),
            forall|k: int|
                0 <= k < i ==> #[trigger] tbl@.subrange(8 * k + 4, 8 * k + 8)
                    == spec_u32_to_le_bytes(lens32@[k]),
        decreases 16 - i,
    {
        let ghost tbl0 = tbl@;
        let mut ob = u32_to_le_bytes(offs[i]);
        tbl.append(&mut ob);
        let mut lb = u32_to_le_bytes(lens32[i]);
        tbl.append(&mut lb);
        proof {
            lemma_auto_spec_u32_to_from_le_bytes();
            assert forall|k: int| 0 <= k < i + 1 implies #[trigger] tbl@.subrange(8 * k, 8 * k + 4)
                == spec_u32_to_le_bytes(offs@[k]) by {
                if k < i {
                    assert(tbl@.subrange(8 * k, 8 * k + 4) =~= tbl0.subrange(8 * k, 8 * k + 4));
                } else {
                    assert(tbl@.subrange(8 * k, 8 * k + 4) =~= spec_u32_to_le_bytes(offs@[k]));
                }
            }
            assert forall|k: int| 0 <= k < i + 1 implies #[trigger] tbl@.subrange(
                8 * k + 4,
                8 * k + 8,
            ) == spec_u32_to_le_bytes(lens32@[k]) by {
                if k < i {
                    assert(tbl@.subrange(8 * k + 4, 8 * k + 8) =~= tbl0.subrange(
                        8 * k + 4,
                        8 * k + 8,
                    ));
                } else {
                    assert(tbl@.subrange(8 * k + 4, 8 * k + 8) =~= spec_u32_to_le_bytes(
                        lens32@[k],
                    ));
                }
            }
        }
        i = i + 1;
    }
    // Assemble: magic, dimensions, tags, table, shared table, blobs.
    let mut out: Vec<u8> = Vec::new();
    out.push(0x42u8);
    out.push(0x4cu8);
    out.push(0x50u8);
    out.push(0x31u8);
    let mut wb = u32_to_le_bytes(width);
    out.append(&mut wb);
    let mut hb = u32_to_le_bytes(height);
    out.append(&mut hb);
    out.push(tag);
    out.push(depth);
    let ghost head = out@;
    proof {
        assert(head.len() == 14);
    }
    let mut k: usize = 0;
    while k < tbl.len()
        invariant
            k <= tbl@.len(),
            out@ == head + tbl@.subrange(0, k as int),
        decreases tbl@.len() - k,
    {
        out.push(tbl[k]);
        proof {
            assert(out@ =~= head + tbl@.subrange(0, k as int + 1));
        }
        k = k + 1;
    }
    proof {
        assert(tbl@.subrange(0, tbl@.len() as int) =~= tbl@);
    }
    let mut k: usize = 0;
    while k < extra.len()
        invariant
            k <= extra@.len(),
            tbl@.len() == 128,
            out@ == head + tbl@ + extra@.subrange(0, k as int),
        decreases extra@.len() - k,
    {
        out.push(extra[k]);
        proof {
            assert(out@ =~= head + tbl@ + extra@.subrange(0, k as int + 1));
        }
        k = k + 1;
    }
    proof {
        assert(extra@.subrange(0, extra@.len() as int) =~= extra@);
    }
    let ghost fixed = head + tbl@ + extra@;
    let mut i: usize = 0;
    while i < 16
        invariant
            blobs@.len() == 16,
            bl == blobs@.map_values(|v: Vec<u8>| v@),
            offs@.len() == 16,
            lens32@.len() == 16,
            hsize == 142 + extra@.len(),
            forall|k: int| 0 <= k < 16 ==> offs@[k] == cum_off(bl, hsize as int, k),
            forall|k: int| 0 <= k < 16 ==> lens32@[k] == (#[trigger] blobs@[k])@.len(),
            cum_off(bl, hsize as int, 16) <= u32::MAX,
            fixed == head + tbl@ + extra@,
            fixed.len() == hsize,
            i <= 16,
            out@.len() == cum_off(bl, hsize as int, i as int),
            hsize <= out@.len(),
            out@.subrange(0, hsize as int) == fixed,
            forall|k: int|
                0 <= k < i ==> #[trigger] out@.subrange(
                    cum_off(bl, hsize as int, k),
                    cum_off(bl, hsize as int, k + 1),
                ) == bl[k],
        decreases 16 - i,
    {
        let ghost out0 = out@;
        let blen: usize = blobs[i].len();
        crate::image::push_range(&mut out, blobs[i].as_slice(), 0, blen);
        proof {
            lemma_cum_off_mono(bl, hsize as int, 0, i as int);
            lemma_cum_off_mono(bl, hsize as int, 0, i as int + 1);
            assert(bl[i as int] == blobs@[i as int]@);
            assert(blobs@[i as int]@.subrange(0, blen as int) =~= bl[i as int]);
            assert(out@.subrange(0, hsize as int) =~= fixed);
            assert forall|k: int| 0 <= k < i + 1 implies #[trigger] out@.subrange(
                cum_off(bl, hsize as int, k),
                cum_off(bl, hsize as int, k + 1),
            ) == bl[k] by {
                lemma_cum_off_mono(bl, hsize as int, 0, k);
                if k < i {
                    lemma_cum_off_mono(bl, hsize as int, k + 1, i as int);
                    assert(out@.subrange(
                        cum_off(bl, hsize as int, k),
                        cum_off(bl, hsize as int, k + 1),
                    ) =~= out0.subrange(
                        cum_off(bl, hsize as int, k),
                        cum_off(bl, hsize as int, k + 1),
                    ));
                } else {
                    assert(out@.subrange(
                        cum_off(bl, hsize as int, k),
                        cum_off(bl, hsize as int, k + 1),
                    ) =~= bl[k]);
                }
            }
        }
        i = i + 1;
    }
    proof {
        lemma_auto_spec_u32_to_from_le_bytes();
        lemma_cum_off_mono(bl, hsize as int, 0, 16);
        let b = out@;
        assert(b.len() >= hsize);
        assert forall|j: int| 0 <= j < hsize implies b[j] == fixed[j] by {
            assert(b[j] == b.subrange(0, hsize as int)[j]);
        }
        assert(b.subrange(4, 8) =~= spec_u32_to_le_bytes(width));
        assert(b.subrange(8, 12) =~= spec_u32_to_le_bytes(height));
        assert(b.subrange(142, 142 + extra@.len() as int) =~= extra@);
        assert forall|i2: int| 0 <= i2 < 16 implies mip_off(b, i2) == cum_off(
            bl,
            hsize as int,
            i2,
        ) && mip_len(b, i2) == (#[trigger] blobs@[i2])@.len() by {
            assert(b.subrange(14 + 8 * i2, 18 + 8 * i2) =~= tbl@.subrange(8 * i2, 8 * i2 + 4));
            assert(b.subrange(18 + 8 * i2, 22 + 8 * i2) =~= tbl@.subrange(8 * i2 + 4, 8 * i2 + 8));
            assert(spec_u32_from_le_bytes(spec_u32_to_le_bytes(offs@[i2])) == offs@[i2]);
            assert(spec_u32_from_le_bytes(spec_u32_to_le_bytes(lens32@[i2])) == lens32@[i2]);
            assert(bl[i2] == blobs@[i2]@);
        }
        assert forall|i2: int|
            0 <= i2 < 16 && (#[trigger] blobs@[i2])@.len() > 0 implies (mip_off(b, i2) >= 142
                + extra@.len() && mip_off(b, i2) + mip_len(b, i2) <= b.len() && b.subrange(
                mip_off(b, i2) as int,
                mip_off(b, i2) + mip_len(b, i2),
            ) == blobs@[i2]@) by {
            lemma_cum_off_mono(bl, hsize as int, 0, i2);
            lemma_cum_off_mono(bl, hsize as int, i2 + 1, 16);
            assert(bl[i2] == blobs@[i2]@);
            assert(b.subrange(cum_off(bl, hsize as int, i2), cum_off(bl, hsize as int, i2 + 1))
                == bl[i2]);
        }
    }
    Ok(out)
}


/// Builds the stored bytes of one palette-variant mip.
fn make_palette_blob(pal: &Vec<(u8, u8, u8)>, m: &Raster, depth: u8) -> (r: Vec<u8>)
    requires
        pal@.len() == 256,
        m@.wf(),
        depth == 0 || depth == 8,
    ensures
        r@ == mip_blob(pal@, m@, depth),
        r@.len() <= 0x40000000,
{
    proof {
        assert((m@.w * m@.h) as int <= 268435456);
    }
    let mut ip = quantize_plane(pal, m);
    if depth == 8 {
        let mut ap = alpha_plane_exec(m);
        ip.append(&mut ap);
    }
    ip
}

/// What a successful palette-variant encode guarantees of its output
/// bytes `b` for a source raster and an emission mask: a parseable stream
/// with the source geometry, the quantization palette of the source, and,
/// per emitted level, exactly the quantized planes of that mip.
pub open spec fn palette_encoded(src: GRaster, emit: Seq<bool>, b: Seq<u8>) -> bool {
    &&& parse_ok(b)
    &&& spec_width(b) == src.w
    &&& spec_height(b) == src.h
    &&& spec_variant(b) is Palette
    &&& spec_depth(b) == enc_depth(src)
    &&& spec_palette(b) == palette_table_bytes(src.data, (src.w * src.h) as int)
    &&& forall|i: int|
        0 <= i < 16 ==> mip_len(b, i) == (if emit[i] {
            palette_blob(src, i as nat).len()
        } else {
            0
        })
    &&& forall|i: int|
        0 <= i < 16 && emit[i] ==> b.subrange(
            mip_off(b, i) as int,
            mip_off(b, i) + mip_len(b, i),
        ) == palette_blob(src, i as nat)
}

/// The sixteen stored blobs of a palette encode, empty where not emitted.
pub open spec fn palette_blob_seq(src: GRaster, emit: Seq<bool>) -> Seq<Seq<u8>> {
    Seq::new(16, |i: int| if emit[i] { palette_blob(src, i as nat) } else { Seq::<u8>::empty() })
}

/// Encodes the palette variant for an emission mask; fails only when the
/// stream would outgrow the mip table's 32-bit offsets.
fn encode_palette_masked(src: &Raster, emit: &Vec<bool>) -> (r: Result<Vec<u8>, BlpError>)
    requires
        src@.wf(),
        emit@.len() == 16,
    ensures
        r is Err ==> r == Err::<Vec<u8>, BlpError>(BlpError::EncodeError),
        r is Ok <==> (cum_off(palette_blob_seq(src@, emit@), 1166, 16) <= u32::MAX),
        r is Ok ==> (palette_encoded(src@, emit@, r->Ok_0@)),
{
    let depth: u8 = if has_alpha_exec(src) {
        8
    } else {
        0
    };
    let pal = build_palette(src);
    let ghost n0 = (src@.w * src@.h) as int;
    // The palette's 1024 on-disk bytes.
    let mut ptab: Vec<u8> = Vec::new();
    let mut j: usize = 0;
    while j < 256
        invariant
            pal@.len() == 256,
            pal@ == pal_seq(src@.data, n0),
            j <= 256,
            ptab@.len() == 4 * j,
            forall|k: int| 0 <= k < 4 * j ==> ptab@[k] == palette_table_bytes(src@.data, n0)[k],
        decreases 256 - j,
    {
        let c = pal[j];
        proof {
            assert((4 * (j as int) + 0) / 4 == j && (4 * (j as int) + 0) % 4 == 0 && (4 * (
            j as int) + 1) / 4 == j && (4 * (j as int) + 1) % 4 == 1 && (4 * (j as int) + 2) / 4
                == j && (4 * (j as int) + 2) % 4 == 2 && (4 * (j as int) + 3) / 4 == j && (4 * (
            j as int) + 3) % 4 == 3) by (nonlinear_arith)
                requires
                    0 <= j,
            ;
        }
        ptab.push(c.0);
        ptab.push(c.1);
        ptab.push(c.2);
        ptab.push(255u8);
        j = j + 1;
    }
    // The sixteen blobs, deepest mips computed by repeated downsampling.
    let ghost blspec = palette_blob_seq(src@, emit@);
    let mut blobs: Vec<Vec<u8>> = Vec::new();
    if emit[0] {
        blobs.push(make_palette_blob(&pal, src, depth));
    } else {
        blobs.push(Vec::new());
    }
    let mut cur: Raster = downsample_exec(src);
    proof {
        assert(mip_raster(src@, 0) == src@);
        assert(mip_raster(src@, 1) == crate::raster::downsampled(mip_raster(src@, 0)));
    }
    let mut i: usize = 1;
    while i < 16
        invariant
            src@.wf(),
            pal@.len() == 256,
            pal@ == pal_seq(src@.data, n0),
            n0 == (src@.w * src@.h) as int,
            emit@.len() == 16,
            depth == enc_depth(src@),
            blspec == palette_blob_seq(src@, emit@),
            1 <= i <= 16,
            blobs@.len() == i,
            cur@ == mip_raster(src@, i as nat),
            cur@.wf(),
            forall|k: int| 0 <= k < i ==> (#[trigger] blobs@[k])@ == blspec[k],
            forall|k: int| 0 <= k < i ==> (#[trigger] blobs@[k])@.len() <= 0x40000000,
        decreases 16 - i,
    {
        proof {
            lemma_mip_raster_dims(src@, i as nat);
        }
        if emit[i] {
            blobs.push(make_palette_blob(&pal, &cur, depth));
        } else {
            blobs.push(Vec::new());
        }
        let nxt = downsample_exec(&cur);
        cur = nxt;
        i = i + 1;
    }
    match serialize_blp(src.width, src.height, 1u8, depth, &ptab, &blobs) {
        Err(_) => {
            proof {
                assert(blobs@.map_values(|v: Vec<u8>| v@) =~= blspec);
                assert(ptab@.len() == 1024);
            }
            Err(BlpError::EncodeError)
        },
        Ok(out) => {
            proof {
                assert(blobs@.map_values(|v: Vec<u8>| v@) =~= blspec);
                assert(ptab@ =~= palette_table_bytes(src@.data, n0));
                let b = out@;
                lemma_cum_off_mono(blspec, 1166, 0, 16);
                assert(b.len() >= 1166);
                assert(spec_variant(b) is Palette);
                assert forall|i2: int| 0 <= i2 < 16 implies mip_entry_ok(
                    b,
                    spec_variant(b),
                    spec_width(b),
                    spec_height(b),
                    spec_depth(b),
                    i2,
                ) by {
                    lemma_mip_raster_dims(src@, i2 as nat);
                    let m = mip_raster(src@, i2 as nat);
                    let ni = (m.w * m.h) as int;
                    if emit@[i2] {
                        assert(blobs@[i2]@ == blspec[i2]);
                        assert(mip_len(b, i2) == blspec[i2].len());
                        assert((ni * 8 + 7) / 8 == ni && (ni * 0 + 7) / 8 == 0)
                            by (nonlinear_arith)
                            requires
                                ni >= 0,
                        ;
                        assert(mip_px(spec_width(b), spec_height(b), i2) == ni);
                    } else {
                        assert(blobs@[i2]@ == blspec[i2]);
                        assert(mip_len(b, i2) == 0);
                    }
                }
                assert(parse_ok(b));
                assert forall|i2: int| 0 <= i2 < 16 implies mip_len(b, i2) == (if emit@[i2] {
                    palette_blob(src@, i2 as nat).len()
                } else {
                    0
                }) by {
                    assert(blobs@[i2]@ == blspec[i2]);
                }
                assert forall|i2: int| 0 <= i2 < 16 && emit@[i2] implies b.subrange(
                    mip_off(b, i2) as int,
                    mip_off(b, i2) + mip_len(b, i2),
                ) == palette_blob(src@, i2 as nat) by {
                    assert(blobs@[i2]@ == blspec[i2]);
                    lemma_mip_raster_dims(src@, i2 as nat);
                    let m = mip_raster(src@, i2 as nat);
                    assert((m.w * m.h) as int >= 1) by (nonlinear_arith)
                        requires
                            m.w >= 1,
                            m.h >= 1,
                    ;
                    assert(blobs@[i2]@.len() > 0);
                }
            }
            Ok(out)
        },
    }
}

/// The trailing bytes of a stored JPEG mip blob are the eight-bit alpha
/// plane of that level's raster.
pub open spec fn alpha_tail_ok(src: GRaster, w: u32, h: u32, blob: Seq<u8>, k: int) -> bool {
    blob.skip(blob.len() - mip_px(w, h, k) as int) == alpha8_plane(
        mip_raster(src, k as nat).data,
        mip_px(w, h, k) as int,
    )
}

/// What a successful JPEG-variant encode guarantees of its output bytes:
/// a parseable JPEG-variant stream with the source geometry whose present
/// mips are exactly the emitted levels.
pub open spec fn jpeg_encoded(src: GRaster, emit: Seq<bool>, b: Seq<u8>) -> bool {
    &&& parse_ok(b)
    &&& spec_width(b) == src.w
    &&& spec_height(b) == src.h
    &&& spec_variant(b) is Jpeg
    &&& spec_depth(b) == enc_depth(src)
    &&& forall|i: int| 0 <= i < 16 ==> (mip_len(b, i) > 0 <==> emit[i])
    &&& (enc_depth(src) == 8 ==> forall|i: int|
        0 <= i < 16 && emit[i] ==> b.subrange(
            mip_off(b, i) + mip_len(b, i) - mip_px(src.w as u32, src.h as u32, i) as int,
            mip_off(b, i) + mip_len(b, i),
        ) == alpha8_plane(
            mip_raster(src, i as nat).data,
            mip_px(src.w as u32, src.h as u32, i) as int,
        ))
}

/// Encodes the JPEG variant for an emission mask: every emitted mip is
/// compressed at the given quality, the streams' common leading segment is
/// stored once, and each deeper mip keeps only its own frame data. Fails
/// with `EncodeError` when the underlying compressor fails or the streams
/// do not share their header.
fn encode_jpeg_masked(src: &Raster, quality: u8, emit: &Vec<bool>) -> (r: Result<Vec<u8>, BlpError>)
    requires
        src@.wf(),
        emit@.len() == 16,
        emit@[0],
    ensures
        r is Err ==> r == Err::<Vec<u8>, BlpError>(BlpError::EncodeError),
        r is Ok ==> (jpeg_encoded(src@, emit@, r->Ok_0@)),
{
    let depth: u8 = if has_alpha_exec(src) {
        8
    } else {
        0
    };
    proof {
        assert((4 * ((src@.w * src@.h) as int)) == 4 * (src@.w as int) * (src@.h as int))
            by (nonlinear_arith);
        assert(mip_raster(src@, 0) == src@);
        lemma_mip_raster_dims(src@, 0);
    }
    let s0 = match crate::jpeg::jpeg_encode_rgba(&src.data, src.width as u16, src.height as u16, quality) {
        Some(v) => v,
        None => {
            return Err(BlpError::EncodeError);
        },
    };
    if s0.len() > 0x20000000 {
        return Err(BlpError::EncodeError);
    }
    let hl: usize = match crate::jpeg::find_sof(s0.as_slice()) {
        Some(v) => v,
        None => {
            return Err(BlpError::EncodeError);
        },
    };
    proof {
        crate::jpeg::lemma_sof_scan_bounds(s0@, 2, hl as int);
    }
    let ghost s0v = s0@;
    let mut hdr: Vec<u8> = Vec::new();
    crate::image::push_range(&mut hdr, s0.as_slice(), 0, hl);
    let mut b0 = s0;
    if depth == 8 {
        let mut ap = alpha_plane_exec(src);
        b0.append(&mut ap);
    }
    let ghost a0: int = if depth == 8 {
        mip_px(src.width, src.height, 0) as int
    } else {
        0
    };
    proof {
        assert((src@.w * src@.h) as int <= 268435456);
        assert(mip_px(src.width, src.height, 0) == (src@.w * src@.h) as int);
    }
    let mut blobs: Vec<Vec<u8>> = Vec::new();
    blobs.push(b0);
    proof {
        if depth == 8 {
            assert(blobs@[0]@ =~= s0v + alpha8_plane(src@.data, (src@.w * src@.h) as int));
            assert(blobs@[0]@.skip(blobs@[0]@.len() - mip_px(src.width, src.height, 0) as int)
                =~= alpha8_plane(mip_raster(src@, 0).data, mip_px(src.width, src.height, 0) as int));
            assert(alpha_tail_ok(src@, src.width, src.height, blobs@[0]@, 0));
        }
    }
    let mut cur: Raster = downsample_exec(src);
    proof {
        assert(mip_raster(src@, 1) == crate::raster::downsampled(mip_raster(src@, 0)));
    }
    let mut i: usize = 1;
    while i < 16
        invariant
            src@.wf(),
            emit@.len() == 16,
            emit@[0],
            depth == enc_depth(src@),
            depth == 0 || depth == 8,
            1 <= i <= 16,
            blobs@.len() == i,
            cur@ == mip_raster(src@, i as nat),
            cur@.wf(),
            hl + 3 < s0v.len(),
            s0v.len() <= 0x20000000,
            hdr@ == s0v.subrange(0, hl as int),
            a0 == (if depth == 8 { mip_px(src.width, src.height, 0) as int } else { 0 }),
            blobs@[0]@.len() == s0v.len() + a0,
            forall|k: int| 1 <= k < i ==> ((#[trigger] blobs@[k])@.len() > 0 <==> emit@[k]),
            forall|k: int|
                1 <= k < i && emit@[k] ==> (#[trigger] blobs@[k])@.len() >= (if depth == 8 {
                    mip_px(src.width, src.height, k) as int
                } else {
                    0
                }) + 1,
            forall|k: int| 0 <= k < i ==> (#[trigger] blobs@[k])@.len() <= 0x40000000,
            depth == 8 ==> forall|k: int|
                0 <= k < i && #[trigger] emit@[k] ==> alpha_tail_ok(
                    src@,
                    src.width,
                    src.height,
                    blobs@[k]@,
                    k,
                ),
        decreases 16 - i,
    {
        proof {
            lemma_mip_raster_dims(src@, i as nat);
            assert((4 * ((cur@.w * cur@.h) as int)) == 4 * (cur@.w as int) * (cur@.h as int))
                by (nonlinear_arith);
            assert((cur@.w * cur@.h) as int <= 268435456);
            assert(mip_px(src.width, src.height, i as int) == (cur@.w * cur@.h) as int);
        }
        if emit[i] {
            let si = match crate::jpeg::jpeg_encode_rgba(&cur.data, cur.width as u16, cur.height as u16, quality) {
                Some(v) => v,
                None => {
                    return Err(BlpError::EncodeError);
                },
            };
            if si.len() > 0x20000000 {
                return Err(BlpError::EncodeError);
            }
            let sofi: usize = match crate::jpeg::find_sof(si.as_slice()) {
                Some(v) => v,
                None => {
                    return Err(BlpError::EncodeError);
                },
            };
            if sofi != hl {
                return Err(BlpError::EncodeError);
            }
            proof {
                crate::jpeg::lemma_sof_scan_bounds(si@, 2, sofi as int);
            }
            let mut k: usize = 0;
            while k < hl
                invariant
                    k <= hl,
                    hl + 3 < si@.len(),
                    hdr@.len() == hl,
                decreases hl - k,
            {
                if si[k] != hdr[k] {
                    return Err(BlpError::EncodeError);
                }
                k = k + 1;
            }
            let mut bi: Vec<u8> = Vec::new();
            let silen: usize = si.len();
            crate::image::push_range(&mut bi, si.as_slice(), hl, silen);
            if depth == 8 {
                let mut ap = alpha_plane_exec(&cur);
                bi.append(&mut ap);
                proof {
                    assert(bi@.skip(bi@.len() - mip_px(src.width, src.height, i as int) as int)
                        =~= alpha8_plane(
                        mip_raster(src@, i as nat).data,
                        mip_px(src.width, src.height, i as int) as int,
                    ));
                    assert(alpha_tail_ok(src@, src.width, src.height, bi@, i as int));
                }
            }
            blobs.push(bi);
        } else {
            blobs.push(Vec::new());
        }
        let nxt = downsample_exec(&cur);
        cur = nxt;
        i = i + 1;
    }
    let extra = u32_to_le_bytes(hl as u32);
    match serialize_blp(src.width, src.height, 0u8, depth, &extra, &blobs) {
        Err(_) => Err(BlpError::EncodeError),
        Ok(out) => {
            proof {
                lemma_auto_spec_u32_to_from_le_bytes();
                let b = out@;
                let bl = blobs@.map_values(|v: Vec<u8>| v@);
                lemma_cum_off_mono(bl, 146, 0, 16);
                assert(b.len() >= 146);
                assert(spec_variant(b) is Jpeg);
                assert(spec_jpeg_hlen(b) == hl as u32) by {
                    assert(b.subrange(142, 146) == extra@);
                }
                assert(mip_len(b, 0) == blobs@[0]@.len());
                assert forall|i2: int| 0 <= i2 < 16 implies mip_entry_ok(
                    b,
                    spec_variant(b),
                    spec_width(b),
                    spec_height(b),
                    spec_depth(b),
                    i2,
                ) by {
                    assert(mip_len(b, i2) == (#[trigger] blobs@[i2])@.len());
                    if i2 == 0 {
                        lemma_mip_raster_dims(src@, 0);
                    }
                }
                assert(crate::format::jpeg_table_ok(b, spec_width(b), spec_height(b), spec_depth(b))) by {
                    assert(mip_len(b, 0) == blobs@[0]@.len() && blobs@[0]@.len() > 0);
                    assert(crate::format::jpart_len(b, spec_width(b), spec_height(b), spec_depth(b), 0)
                        == s0v.len());
                }
                assert(parse_ok(b));
                assert forall|i2: int| 0 <= i2 < 16 implies (mip_len(b, i2) > 0 <==> emit@[i2]) by {
                    assert(mip_len(b, i2) == (#[trigger] blobs@[i2])@.len());
                }
                if depth == 8 {
                    assert forall|i2: int| 0 <= i2 < 16 && emit@[i2] implies b.subrange(
                        mip_off(b, i2) + mip_len(b, i2) - mip_px(src@.w as u32, src@.h as u32, i2) as int,
                        mip_off(b, i2) + mip_len(b, i2),
                    ) == alpha8_plane(
                        mip_raster(src@, i2 as nat).data,
                        mip_px(src@.w as u32, src@.h as u32, i2) as int,
                    ) by {
                        let off = mip_off(b, i2) as int;
                        let ln = mip_len(b, i2) as int;
                        let np = mip_px(src.width, src.height, i2) as int;
                        assert(mip_len(b, i2) == (#[trigger] blobs@[i2])@.len());
                        assert(alpha_tail_ok(src@, src.width, src.height, blobs@[i2]@, i2));
                        assert(b.subrange(off, off + ln) == blobs@[i2]@);
                        assert forall|j: int| 0 <= j < np implies #[trigger] b[off + ln - np + j]
                            == blobs@[i2]@[ln - np + j] by {
                            assert(b[off + ln - np + j] == b.subrange(off, off + ln)[ln - np + j]);
                        }
                        assert(b.subrange(off + ln - np, off + ln) =~= blobs@[i2]@.skip(ln - np));
                    }
                }
            }
            Ok(out)
        },
    }
}

/// Encodes a source raster into a fresh BLP stream holding its first
/// `mip_count` mip levels. Arguments outside their ranges are rejected as
/// `InvalidInput` before any pixel is read; the palette variant then fails
/// only when the stream would outgrow the format's 32-bit offsets, and the
/// JPEG variant when the underlying compressor fails.
///
/// The quality parameter drives the JPEG compressor alone: the palette
/// quantizer always searches every entry of the shared palette, which is
/// exact whenever the source holds at most 256 distinct colors.
pub fn encode(src: &Raster, variant: Variant, quality: u8, mip_count: usize) -> (r: Result<
    Vec<u8>,
    BlpError,
>)
    ensures
        (r == Err::<Vec<u8>, BlpError>(BlpError::InvalidInput)) <==> (mip_count == 0 || mip_count
            > 16 || quality > 100 || !src@.wf()),
        r is Ok && variant is Palette ==> (palette_encoded(
            src@,
            count_mask(mip_count as int),
            r->Ok_0@,
        )),
        r is Ok && variant is Jpeg ==> (jpeg_encoded(src@, count_mask(mip_count as int), r->Ok_0@)),
        variant is Palette && src@.wf() && 1 <= mip_count <= 16 && quality <= 100 ==> (r is Ok
            <==> cum_off(palette_blob_seq(src@, count_mask(mip_count as int)), 1166, 16)
            <= u32::MAX),
        r is Err ==> (r == Err::<Vec<u8>, BlpError>(BlpError::InvalidInput) || r == Err::<
            Vec<u8>,
            BlpError,
        >(BlpError::EncodeError)),
{
    if mip_count == 0 || mip_count > 16 || quality > 100 {
        return Err(BlpError::InvalidInput);
    }
    if src.width == 0 || src.height == 0 || src.width > MAX_DIM || src.height > MAX_DIM {
        return Err(BlpError::InvalidInput);
    }
    proof {
        assert((src.width as int) * (src.height as int) <= 65535 * 65535) by (nonlinear_arith)
            requires
                src.width <= 65535,
                src.height <= 65535,
        ;
    }
    if (src.width as u64) * (src.height as u64) > crate::raster::MAX_PIXELS {
        return Err(BlpError::InvalidInput);
    }
    proof {
        assert((4 * ((src.width as int) * (src.height as int))) == 4 * (src.width as int) * (
        src.height as int)) by (nonlinear_arith);
    }
    if (src.data.len() as u64) != 4u64 * (src.width as u64) * (src.height as u64) {
        return Err(BlpError::InvalidInput);
    }
    let emit = crate::build_mip_visibility_from_count(mip_count);
    proof {
        assert(emit@ =~= count_mask(mip_count as int));
    }
    match variant {
        Variant::Palette => encode_palette_masked(src, &emit),
        Variant::Jpeg => encode_jpeg_masked(src, quality, &emit),
    }
}

/// The mask the encoder works from when the caller hands explicit flags:
/// the JPEG variant always includes mip 0, which owns the shared header
/// every deeper mip needs; the palette variant honors the flags exactly.
pub open spec fn eff_mask(f: Seq<bool>, v: Variant) -> Seq<bool> {
    if v is Jpeg {
        Seq::new(16, |i: int| i == 0 || f[i])
    } else {
        f
    }
}

/// Encodes a source raster with an explicit per-level visibility mask; the
/// mask is adjusted as `eff_mask` describes before any work is done.
pub fn encode_with_flags(src: &Raster, variant: Variant, quality: u8, flags: &Vec<bool>) -> (r:
    Result<Vec<u8>, BlpError>)
    requires
        flags@.len() == 16,
    ensures
        (r == Err::<Vec<u8>, BlpError>(BlpError::InvalidInput)) <==> (quality > 100 || !src@.wf()),
        r is Ok && variant is Palette ==> (palette_encoded(
            src@,
            eff_mask(flags@, variant),
            r->Ok_0@,
        )),
        r is Ok && variant is Jpeg ==> (jpeg_encoded(src@, eff_mask(flags@, variant), r->Ok_0@)),
        variant is Palette && src@.wf() && quality <= 100 ==> (r is Ok <==> cum_off(
            palette_blob_seq(src@, eff_mask(flags@, variant)),
            1166,
            16,
        ) <= u32::MAX),
        r is Err ==> (r == Err::<Vec<u8>, BlpError>(BlpError::InvalidInput) || r == Err::<
            Vec<u8>,
            BlpError,
        >(BlpError::EncodeError)),
{
    if quality > 100 {
        return Err(BlpError::InvalidInput);
    }
    if src.width == 0 || src.height == 0 || src.width > MAX_DIM || src.height > MAX_DIM {
        return Err(BlpError::InvalidInput);
    }
    proof {
        assert((src.width as int) * (src.height as int) <= 65535 * 65535) by (nonlinear_arith)
            requires
                src.width <= 65535,
                src.height <= 65535,
        ;
    }
    if (src.width as u64) * (src.height as u64) > crate::raster::MAX_PIXELS {
        return Err(BlpError::InvalidInput);
    }
    proof {
        assert((4 * ((src.width as int) * (src.height as int))) == 4 * (src.width as int) * (
        src.height as int)) by (nonlinear_arith);
    }
    if (src.data.len() as u64) != 4u64 * (src.width as u64) * (src.height as u64) {
        return Err(BlpError::InvalidInput);
    }
    let jpeg = matches!(variant, Variant::Jpeg);
    let mut emit: Vec<bool> = Vec::new();
    let mut k: usize = 0;
    while k < 16
        invariant
            flags@.len() == 16,
            jpeg == (variant is Jpeg),
            k <= 16,
            emit@.len() == k,
            forall|j: int| 0 <= j < k ==> emit@[j] == eff_mask(flags@, variant)[j],
        decreases 16 - k,
    {
        let v: bool = if jpeg {
            k == 0 || flags[k]
        } else {
            flags[k]
        };
        emit.push(v);
        k = k + 1;
    }
    proof {
        assert(emit@ =~= eff_mask(flags@, variant));
    }
    match variant {
        Variant::Palette => encode_palette_masked(src, &emit),
        Variant::Jpeg => encode_jpeg_masked(src, quality, &emit),
    }
}

} // verus!
