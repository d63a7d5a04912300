//! Selective decoding of the mip pyramid, and the mip exports.
use vstd::prelude::*;
use vstd::slice::slice_subrange;
use crate::error::BlpError;
use crate::format::BlpImage;
use crate::format::MipEntry;
use crate::format::Variant;
use crate::format::mip_px;
use crate::format::palette_mip_need;
use crate::palette::decode_palette_mip;
use crate::palette::decode_palette_mip_exec;
use crate::jpeg::decode_jpeg_mip_exec;
use crate::jpeg::jpeg_height;
use crate::jpeg::jpeg_ok;
use crate::jpeg::jpeg_width;
use crate::jpeg::rgba_from_rgb_alpha;
use crate::png_export::png_encode_rgba;
use crate::png_export::png_of;
use crate::raster::GRaster;
use crate::raster::Raster;
use crate::raster::mip_dim;
use crate::raster::mip_dim_exec;

verus! {

impl BlpImage {
    /// Whether the mip table holds data for level `i`.
    pub open spec fn entry_present(&self, i: int) -> bool {
        !(self.mips@[i] is Absent)
    }

    /// Byte offset of mip `i`'s data in the source buffer.
    pub open spec fn entry_off(&self, i: int) -> u32 {
        match self.mips@[i] {
            MipEntry::Absent => 0,
            MipEntry::Pending { offset, length } => offset,
            MipEntry::Decoded { offset, length, raster } => offset,
        }
    }

    /// Byte length of mip `i`'s data in the source buffer.
    pub open spec fn entry_len(&self, i: int) -> u32 {
        match self.mips@[i] {
            MipEntry::Absent => 0,
            MipEntry::Pending { offset, length } => length,
            MipEntry::Decoded { offset, length, raster } => length,
        }
    }

    /// The decoded raster held at slot `i`.
    pub open spec fn entry_raster(&self, i: int) -> GRaster {
        match self.mips@[i] {
            MipEntry::Decoded { offset, length, raster } => raster@,
            _ => arbitrary(),
        }
    }

    /// The raw bytes of mip `i` inside the source buffer.
    pub open spec fn mip_data(&self, b: Seq<u8>, i: int) -> Seq<u8> {
        b.subrange(self.entry_off(i) as int, self.entry_off(i) + self.entry_len(i))
    }

    /// Length of mip `i`'s JPEG part, before the trailing alpha plane.
    pub open spec fn jpart_n(&self, i: int) -> int {
        self.entry_len(i) - (if self.alpha_depth == 8 {
            mip_px(self.width, self.height, i) as int
        } else {
            0
        })
    }

    /// The self-contained JPEG stream of mip `i`: mip 0 carries the shared
    /// header itself; deeper mips are prefixed with mip 0's leading
    /// `jpeg_header_len` bytes.
    pub open spec fn jstream(&self, b: Seq<u8>, i: int) -> Seq<u8> {
        if i == 0 {
            self.mip_data(b, 0).take(self.jpart_n(0))
        } else {
            self.mip_data(b, 0).take(self.jpeg_header_len as int) + self.mip_data(b, i).take(
                self.jpart_n(i),
            )
        }
    }

    /// The trailing alpha plane of a JPEG mip.
    pub open spec fn jalpha(&self, b: Seq<u8>, i: int) -> Seq<u8> {
        self.mip_data(b, i).skip(self.jpart_n(i))
    }

    /// Exactly when decoding the present mip `i` against buffer `b`
    /// succeeds: its data lies inside the buffer and is long enough for the
    /// level's geometry, and, for the JPEG variant, the reassembled stream
    /// decodes to an RGB image of that geometry.
    pub open spec fn mip_decodable(&self, b: Seq<u8>, i: int) -> bool {
        &&& self.entry_off(i) + self.entry_len(i) <= b.len()
        &&& match self.variant {
            Variant::Palette => self.entry_len(i) >= palette_mip_need(
                self.width,
                self.height,
                self.alpha_depth,
                i,
            ),
            Variant::Jpeg => {
                &&& self.entry_len(i) >= (if self.alpha_depth == 8 {
                    mip_px(self.width, self.height, i) as int
                } else {
                    0
                })
                &&& self.entry_present(0)
                &&& self.entry_off(0) + self.entry_len(0) <= b.len()
                &&& self.jpeg_header_len <= self.jpart_n(0)
                &&& jpeg_ok(self.jstream(b, i))
                &&& jpeg_width(self.jstream(b, i)) == mip_dim(self.width, i as nat)
                &&& jpeg_height(self.jstream(b, i)) == mip_dim(self.height, i as nat)
            },
        }
    }

    /// The exact RGBA bytes a palette-variant mip decodes to.
    pub open spec fn decoded_mip_data(&self, b: Seq<u8>, i: int) -> Seq<u8> {
        decode_palette_mip(
            self.palette@,
            self.mip_data(b, i),
            mip_dim(self.width, i as nat),
            mip_dim(self.height, i as nat),
            self.alpha_depth,
        )
    }

    /// The raster a palette-variant mip decodes to.
    pub open spec fn decoded_mip(&self, b: Seq<u8>, i: int) -> GRaster {
        GRaster {
            w: mip_dim(self.width, i as nat),
            h: mip_dim(self.height, i as nat),
            data: self.decoded_mip_data(b, i),
        }
    }

    /// What holds of the raster stored for mip `i` after decoding: the
    /// level's exact geometry, and, for the palette variant, exactly the
    /// bytes `decode_palette_mip` describes. For the JPEG variant the RGB
    /// samples come from the outside decoder, which is pinned only in
    /// count, so the color bytes are some RGB sequence of the right
    /// length; the alpha channel is exactly the stored trailing plane (or
    /// opaque).
    pub open spec fn decoded_raster_ok(&self, b: Seq<u8>, i: int, r: GRaster) -> bool {
        &&& r.wf()
        &&& r.w == mip_dim(self.width, i as nat)
        &&& r.h == mip_dim(self.height, i as nat)
        &&& match self.variant {
            Variant::Palette => r.data == self.decoded_mip_data(b, i),
            Variant::Jpeg => (exists|rgb: Seq<u8>|
                rgb.len() == 3 * mip_px(self.width, self.height, i) && r.data
                    == #[trigger] rgba_from_rgb_alpha(
                    rgb,
                    self.jalpha(b, i),
                    mip_dim(self.width, i as nat),
                    mip_dim(self.height, i as nat),
                    self.alpha_depth,
                )),
        }
    }

    /// Whether the visibility mask requests work on slot `i`: the slot is
    /// masked in and still awaiting its decode.
    pub open spec fn requested(&self, m: Seq<bool>, i: int) -> bool {
        m[i] && self.mips@[i] is Pending
    }

    /// What `decode` leaves in slot `i`: a requested pending mip becomes
    /// `Decoded` with its exact raster; every other slot is untouched.
    pub open spec fn mip_post(old_img: BlpImage, b: Seq<u8>, m: Seq<bool>, new_img: BlpImage, i: int) -> bool {
        if old_img.requested(m, i) {
            &&& new_img.mips@[i] is Decoded
            &&& new_img.entry_off(i) == old_img.entry_off(i)
            &&& new_img.entry_len(i) == old_img.entry_len(i)
            &&& old_img.decoded_raster_ok(b, i, new_img.entry_raster(i))
        } else {
            new_img.mips@[i] == old_img.mips@[i]
        }
    }

    /// The full relation between the pyramid before and after a successful
    /// `decode`: header fields and shared tables are unchanged, and every
    /// slot obeys `mip_post`.
    pub open spec fn decode_post(old_img: BlpImage, b: Seq<u8>, m: Seq<bool>, new_img: BlpImage) -> bool {
        &&& new_img.width == old_img.width
        &&& new_img.height == old_img.height
        &&& new_img.variant == old_img.variant
        &&& new_img.alpha_depth == old_img.alpha_depth
        &&& new_img.palette == old_img.palette
        &&& new_img.jpeg_header_len == old_img.jpeg_header_len
        &&& new_img.mips@.len() == 16
        &&& forall|i: int| 0 <= i < 16 ==> BlpImage::mip_post(old_img, b, m, new_img, i)
    }
}

/// Decodes the pending mip `i` of `img` against `bytes`, succeeding exactly
/// when `mip_decodable` holds of the slot.
fn decode_one(img: &BlpImage, bytes: &[u8], i: usize) -> (r: Result<Raster, BlpError>)
    requires
        img.wf(),
        i < 16,
        img.mips@[i as int] is Pending,
    ensures
        r is Ok <==> img.mip_decodable(bytes@, i as int),
        r is Ok ==> img.decoded_raster_ok(bytes@, i as int, r->Ok_0@),
        r is Err ==> r == Err::<Raster, BlpError>(BlpError::ParseError),
{
    let (off, len): (u32, u32) = match &self_entry(img, i) {
        MipEntry::Pending { offset, length } => (*offset, *length),
        _ => (0, 0),
    };
    let total: usize = bytes.len();
    if (off as u64) + (len as u64) > (total as u64) {
        return Err(BlpError::ParseError);
    }
    let wi = mip_dim_exec(img.width, i);
    let hi = mip_dim_exec(img.height, i);
    proof {
        assert((wi as int) * (hi as int) <= 268435456 && 1 <= (wi as int) * (hi as int))
            by (nonlinear_arith)
            requires
                1 <= wi <= img.width,
                1 <= hi <= img.height,
                (img.width as int) * (img.height as int) <= 268435456,
        ;
    }
    let ni: u64 = (wi as u64) * (hi as u64);
    let data = slice_subrange(bytes, off as usize, off as usize + len as usize);
    match img.variant {
        Variant::Palette => {
            let need = crate::format::palette_mip_need_exec(img.width, img.height, img.alpha_depth, i);
            if (len as u64) < need {
                return Err(BlpError::ParseError);
            }
            let r = decode_palette_mip_exec(
                img.palette.as_slice(),
                data,
                wi,
                hi,
                img.alpha_depth,
            );
            proof {
                assert(img.decoded_raster_ok(bytes@, i as int, r@));
            }
            Ok(r)
        },
        Variant::Jpeg => {
            let alpha_i: u64 = if img.alpha_depth == 8 {
                ni
            } else {
                0
            };
            if (len as u64) < alpha_i {
                return Err(BlpError::ParseError);
            }
            let (off0, len0): (u32, u32) = match &self_entry(img, 0) {
                MipEntry::Absent => {
                    return Err(BlpError::ParseError);
                },
                MipEntry::Pending { offset, length } => (*offset, *length),
                MipEntry::Decoded { offset, length, raster } => (*offset, *length),
            };
            if (off0 as u64) + (len0 as u64) > (total as u64) {
                return Err(BlpError::ParseError);
            }
            let alpha_0: u64 = if img.alpha_depth == 8 {
                let w0 = mip_dim_exec(img.width, 0);
                let h0 = mip_dim_exec(img.height, 0);
                proof {
                    assert((w0 as int) * (h0 as int) <= 268435456) by (nonlinear_arith)
                        requires
                            0 <= w0 <= img.width,
                            0 <= h0 <= img.height,
                            (img.width as int) * (img.height as int) <= 268435456,
                    ;
                }
                (w0 as u64) * (h0 as u64)
            } else {
                0
            };
            if (len0 as u64) < alpha_0 || (img.jpeg_header_len as u64) > (len0 as u64) - alpha_0 {
                return Err(BlpError::ParseError);
            }
            let jlen: usize = (len as usize) - (alpha_i as usize);
            let mut stream: Vec<u8> = Vec::new();
            if i != 0 {
                push_range(&mut stream, bytes, off0 as usize, off0 as usize + img.jpeg_header_len as usize);
            }
            push_range(&mut stream, bytes, off as usize, off as usize + jlen);
            proof {
                assert(stream@ =~= img.jstream(bytes@, i as int));
            }
            let alpha = slice_subrange(bytes, off as usize + jlen, off as usize + len as usize);
            proof {
                assert(alpha@ =~= img.jalpha(bytes@, i as int));
            }
            match decode_jpeg_mip_exec(&stream, alpha, wi, hi, img.alpha_depth) {
                Ok(ra) => {
                    proof {
                        let rr = choose|rgb: Seq<u8>|
                            rgb.len() == 3 * ((wi as int) * (hi as int)) && ra@.data
                                == #[trigger] rgba_from_rgb_alpha(
                                rgb,
                                alpha@,
                                wi as nat,
                                hi as nat,
                                img.alpha_depth,
                            );
                        assert(ra@.data == rgba_from_rgb_alpha(
                            rr,
                            img.jalpha(bytes@, i as int),
                            mip_dim(img.width, i as nat),
                            mip_dim(img.height, i as nat),
                            img.alpha_depth,
                        ));
                        assert(img.decoded_raster_ok(bytes@, i as int, ra@));
                    }
                    Ok(ra)
                },
                Err(e) => Err(e),
            }
        },
    }
}

/// Borrows slot `i` of the pyramid.
fn self_entry(img: &BlpImage, i: usize) -> (r: &MipEntry)
    requires
        img.mips@.len() == 16,
        i < 16,
    ensures
        *r == img.mips@[i as int],
{
    &img.mips[i]
}

/// Appends `src[from..to]` to `out`.
pub(crate) fn push_range(out: &mut Vec<u8>, src: &[u8], from: usize, to: usize)
    requires
        from <= to <= src@.len(),
    ensures
        final(out)@ == old(out)@ + src@.subrange(from as int, to as int),
{
    let mut k: usize = from;
    while k < to
        invariant
            from <= k <= to <= src@.len(),
            out@ == old(out)@ + src@.subrange(from as int, k as int),
        decreases to - k,
    {
        out.push(*vstd::slice::slice_index_get(src, k));
        proof {
            assert(out@ =~= old(out)@ + src@.subrange(from as int, k as int + 1));
        }
        k = k + 1;
    }
    proof {
        assert(out@ =~= old(out)@ + src@.subrange(from as int, to as int));
    }
}

impl BlpImage {
    /// Decodes every requested, still-pending mip level against `bytes`,
    /// committing the new rasters only when all of them succeed; on any
    /// failure the pyramid is left exactly as it was.
    pub fn decode(&mut self, bytes: &[u8], mask: &Vec<bool>) -> (r: Result<(), BlpError>)
        requires
            old(self).wf(),
            mask@.len() == 16,
        ensures
            final(self).wf(),
            r is Ok <==> (bytes@.len() > 0 && forall|i: int|
                0 <= i < 16 && old(self).requested(mask@, i) ==> old(self).mip_decodable(
                    bytes@,
                    i,
                )),
            r is Ok ==> BlpImage::decode_post(*old(self), bytes@, mask@, *final(self)),
            r is Err ==> *final(self) == *old(self),
            bytes@.len() == 0 ==> r == Err::<(), BlpError>(BlpError::InvalidInput),
            r is Err && bytes@.len() > 0 ==> r == Err::<(), BlpError>(BlpError::ParseError),
    {
        if bytes.len() == 0 {
            return Err(BlpError::InvalidInput);
        }
        let mut rasters: Vec<Option<Raster>> = Vec::new();
        let mut i: usize = 0;
        while i < 16
            invariant
                *self == *old(self),
                self.wf(),
                mask@.len() == 16,
                bytes@.len() > 0,
                i <= 16,
                rasters@.len() == i,
                forall|k: int|
                    0 <= k < i && self.requested(mask@, k) ==> (rasters@[k] is Some
                        && self.mip_decodable(bytes@, k) && self.decoded_raster_ok(
                        bytes@,
                        k,
                        rasters@[k]->Some_0@,
                    )),
                forall|k: int|
                    0 <= k < i && !self.requested(mask@, k) ==> rasters@[k] is None,
            decreases 16 - i,
        {
            let want = mask[i] && matches!(self_entry(self, i), MipEntry::Pending { .. });
            if want {
                match decode_one(self, bytes, i) {
                    Ok(ra) => {
                        rasters.push(Some(ra));
                    },
                    Err(_) => {
                        return Err(BlpError::ParseError);
                    },
                }
            } else {
                rasters.push(None);
            }
            i = i + 1;
        }
        // All requested mips decoded; commit the pyramid.
        let ghost m0 = self.mips@;
        let ghost rs0 = rasters@;
        let mut rev: Vec<MipEntry> = Vec::new();
        while self.mips.len() > 0
            invariant
                rev@.len() + self.mips@.len() == 16,
                self.mips@ == m0.take(self.mips@.len() as int),
                forall|j: int| 0 <= j < rev@.len() ==> rev@[j] == m0[15 - j],
                m0.len() == 16,
                self.width == old(self).width,
                self.height == old(self).height,
                self.variant == old(self).variant,
                self.alpha_depth == old(self).alpha_depth,
                self.palette == old(self).palette,
                self.jpeg_header_len == old(self).jpeg_header_len,
            decreases self.mips@.len(),
        {
            let e = self.mips.pop().unwrap();
            rev.push(e);
        }
        let mut i: usize = 0;
        while i < 16
            invariant
                old(self).wf(),
                mask@.len() == 16,
                m0 == old(self).mips@,
                m0.len() == 16,
                rs0.len() == 16,
                forall|k: int|
                    0 <= k < 16 && old(self).requested(mask@, k) ==> (rs0[k] is Some
                        && old(self).mip_decodable(bytes@, k) && old(self).decoded_raster_ok(
                        bytes@,
                        k,
                        rs0[k]->Some_0@,
                    )),
                forall|k: int| 0 <= k < 16 && !old(self).requested(mask@, k) ==> rs0[k] is None,
                i <= 16,
                rasters@ == rs0.skip(i as int),
                rev@.len() == 16 - i,
                forall|j: int| 0 <= j < rev@.len() ==> rev@[j] == m0[15 - j],
                self.mips@.len() == i,
                forall|k: int| 0 <= k < i ==> BlpImage::mip_post(*old(self), bytes@, mask@, *self, k),
                forall|k: int| 0 <= k < i ==> self.mip_wf(k),
                self.width == old(self).width,
                self.height == old(self).height,
                self.variant == old(self).variant,
                self.alpha_depth == old(self).alpha_depth,
                self.palette == old(self).palette,
                self.jpeg_header_len == old(self).jpeg_header_len,
            decreases 16 - i,
        {
            let ghost snap = *self;
            let e = rev.pop().unwrap();
            proof {
                assert(e == m0[i as int]);
            }
            let d = rasters.remove(0);
            proof {
                assert(rs0.skip(i as int)[0] == rs0[i as int]);
                assert(d == rs0[i as int]);
                assert(rasters@ =~= rs0.skip(i as int + 1));
            }
            match d {
                Some(ra) => {
                    proof {
                        if !(old(self).requested(mask@, i as int)) {
                            assert(rs0[i as int] is None);
                        }
                        assert(old(self).requested(mask@, i as int));
                        assert(m0[i as int] is Pending);
                    }
                    match e {
                        MipEntry::Pending { offset, length } => {
                            self.mips.push(
                                MipEntry::Decoded { offset, length, raster: ra },
                            );
                            proof {
                                assert(self.mips@[i as int] == (MipEntry::Decoded {
                                    offset,
                                    length,
                                    raster: ra,
                                }));
                                assert(BlpImage::mip_post(
                                    *old(self),
                                    bytes@,
                                    mask@,
                                    *self,
                                    i as int,
                                ));
                                assert(old(self).mip_wf(i as int));
                                assert(self.mip_wf(i as int));
                            }
                        },
                        _ => {
                            // A raster was produced only for pending slots.
                            proof {
                                assert(false);
                            }
                            self.mips.push(e);
                        },
                    }
                },
                None => {
                    proof {
                        if old(self).requested(mask@, i as int) {
                            assert(rs0[i as int] is Some);
                        }
                        assert(!old(self).requested(mask@, i as int));
                    }
                    self.mips.push(e);
                    proof {
                        assert(self.mips@[i as int] == m0[i as int]);
                        assert(BlpImage::mip_post(*old(self), bytes@, mask@, *self, i as int));
                        assert(old(self).mip_wf(i as int));
                        assert(self.mip_wf(i as int));
                    }
                },
            }
            i = i + 1;
            proof {
                assert forall|k: int| 0 <= k < i implies BlpImage::mip_post(
                    *old(self),
                    bytes@,
                    mask@,
                    *self,
                    k,
                ) by {
                    if k < i - 1 {
                        assert(self.mips@[k] == snap.mips@[k]);
                        assert(BlpImage::mip_post(*old(self), bytes@, mask@, snap, k));
                    } else {
                        assert(k == i - 1);
                    }
                }
                assert forall|k: int| 0 <= k < i implies self.mip_wf(k) by {
                    if k < i - 1 {
                        assert(self.mips@[k] == snap.mips@[k]);
                        assert(snap.mip_wf(k));
                    } else {
                        assert(k == i - 1);
                    }
                }
            }
        }
        Ok(())
    }

    /// The number of mip levels the table holds data for.
    pub fn mip_count(&self) -> (r: usize)
        requires
            self.mips@.len() == 16,
        ensures
            r == present_count(self.mips@),
    {
        let mut count: usize = 0;
        let mut i: usize = 0;
        while i < 16
            invariant
                self.mips@.len() == 16,
                i <= 16,
                count == present_count(self.mips@.take(i as int)),
                count <= i,
            decreases 16 - i,
        {
            let present = !matches!(self_entry(self, i), MipEntry::Absent);
            proof {
                assert(self.mips@.take(i as int + 1).drop_last() =~= self.mips@.take(i as int));
                assert(self.mips@.take(i as int + 1).last() == self.mips@[i as int]);
            }
            if present {
                count = count + 1;
            }
            i = i + 1;
        }
        proof {
            assert(self.mips@.take(16) =~= self.mips@);
        }
        count
    }

    /// The decoded raster of mip `i`, when that level has been decoded.
    pub fn get_mip(&self, i: usize) -> (r: Option<&Raster>)
        requires
            self.mips@.len() == 16,
            i < 16,
        ensures
            match r {
                Some(ra) => self.mips@[i as int] is Decoded && ra@ == self.entry_raster(i as int),
                None => !(self.mips@[i as int] is Decoded),
            },
    {
        match self_entry(self, i) {
            MipEntry::Decoded { offset, length, raster } => Some(raster),
            _ => None,
        }
    }

    /// Serializes the decoded mip `i` as a PNG stream; fails with
    /// `ExportError` exactly when that level holds no decoded raster.
    pub fn export_png(&self, i: usize) -> (r: Result<Vec<u8>, BlpError>)
        requires
            self.wf(),
            i < 16,
        ensures
            r is Ok <==> self.mips@[i as int] is Decoded,
            r is Ok ==> r->Ok_0@ == png_of(
                self.entry_raster(i as int).w,
                self.entry_raster(i as int).h,
                self.entry_raster(i as int).data,
            ),
            r is Err ==> r == Err::<Vec<u8>, BlpError>(BlpError::ExportError),
    {
        match self_entry(self, i) {
            MipEntry::Decoded { offset, length, raster } => {
                proof {
                    assert(self.mip_wf(i as int));
                }
                Ok(png_encode_rgba(raster.width, raster.height, &raster.data))
            },
            _ => Err(BlpError::ExportError),
        }
    }

    /// Re-exports the raw JPEG stream of mip `i` without recompression:
    /// the shared header followed by the mip's own JPEG part. Fails with
    /// `ExportError` when the image is not JPEG-variant or the mip is
    /// absent, and with `ParseError` when the buffer does not hold the
    /// bytes the mip table declares.
    pub fn export_raw_jpeg(&self, i: usize, bytes: &[u8]) -> (r: Result<Vec<u8>, BlpError>)
        requires
            self.wf(),
            i < 16,
        ensures
            r is Ok <==> (self.variant is Jpeg && self.entry_present(i as int)
                && self.entry_off(i as int) + self.entry_len(i as int) <= bytes@.len()
                && self.entry_len(i as int) >= (if self.alpha_depth == 8 {
                mip_px(self.width, self.height, i as int) as int
            } else {
                0
            }) && self.entry_present(0) && self.entry_off(0) + self.entry_len(0) <= bytes@.len()
                && self.jpeg_header_len <= self.jpart_n(0)),
            r is Ok ==> r->Ok_0@ == self.jstream(bytes@, i as int),
            r is Err ==> (r == Err::<Vec<u8>, BlpError>(BlpError::ExportError) <==> !(self.variant
                is Jpeg) || !self.entry_present(i as int)),
            r is Err && self.variant is Jpeg && self.entry_present(i as int) ==> r == Err::<
                Vec<u8>,
                BlpError,
            >(BlpError::ParseError),
    {
        if !matches!(self.variant, Variant::Jpeg) {
            return Err(BlpError::ExportError);
        }
        let (off, len): (u32, u32) = match self_entry(self, i) {
            MipEntry::Absent => {
                return Err(BlpError::ExportError);
            },
            MipEntry::Pending { offset, length } => (*offset, *length),
            MipEntry::Decoded { offset, length, raster } => (*offset, *length),
        };
        let total: usize = bytes.len();
        if (off as u64) + (len as u64) > (total as u64) {
            return Err(BlpError::ParseError);
        }
        let wi = mip_dim_exec(self.width, i);
        let hi = mip_dim_exec(self.height, i);
        proof {
            assert((wi as int) * (hi as int) <= 268435456) by (nonlinear_arith)
                requires
                    0 <= wi <= self.width,
                    0 <= hi <= self.height,
                    (self.width as int) * (self.height as int) <= 268435456,
            ;
        }
        let alpha_i: u64 = if self.alpha_depth == 8 {
            (wi as u64) * (hi as u64)
        } else {
            0
        };
        if (len as u64) < alpha_i {
            return Err(BlpError::ParseError);
        }
        let (off0, len0): (u32, u32) = match self_entry(self, 0) {
            MipEntry::Absent => {
                return Err(BlpError::ParseError);
            },
            MipEntry::Pending { offset, length } => (*offset, *length),
            MipEntry::Decoded { offset, length, raster } => (*offset, *length),
        };
        if (off0 as u64) + (len0 as u64) > (total as u64) {
            return Err(BlpError::ParseError);
        }
        let alpha_0: u64 = if self.alpha_depth == 8 {
            let w0 = mip_dim_exec(self.width, 0);
            let h0 = mip_dim_exec(self.height, 0);
            proof {
                assert((w0 as int) * (h0 as int) <= 268435456) by (nonlinear_arith)
                    requires
                        0 <= w0 <= self.width,
                        0 <= h0 <= self.height,
                        (self.width as int) * (self.height as int) <= 268435456,
                ;
            }
            (w0 as u64) * (h0 as u64)
        } else {
            0
        };
        if (len0 as u64) < alpha_0 || (self.jpeg_header_len as u64) > (len0 as u64) - alpha_0 {
            return Err(BlpError::ParseError);
        }
        let jlen: usize = (len as usize) - (alpha_i as usize);
        let mut stream: Vec<u8> = Vec::new();
        if i != 0 {
            push_range(
                &mut stream,
                bytes,
                off0 as usize,
                off0 as usize + self.jpeg_header_len as usize,
            );
        }
        push_range(&mut stream, bytes, off as usize, off as usize + jlen);
        proof {
            assert(stream@ =~= self.jstream(bytes@, i as int));
        }
        Ok(stream)
    }
}

/// How many slots of a pyramid hold data.
pub open spec fn present_count(m: Seq<MipEntry>) -> nat
    decreases m.len(),
{
    if m.len() == 0 {
        0
    } else {
        present_count(m.drop_last()) + (if m.last() is Absent {
            0nat
        } else {
            1nat
        })
    }
}

} // verus!
