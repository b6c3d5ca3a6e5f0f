//! Sub-TIFF synthesis.
//!
//! Given one harvested directory and the bytes of the source file,
//! `copy_ifd` emits a complete, self-contained TIFF byte stream holding only
//! that directory: a fresh minimal header, the directory's entries re-encoded
//! in ascending identifier order, and a verbatim copy of every byte range the
//! directory's pointer tags reference, with the stored offsets rewritten to
//! the positions the ranges occupy in the new file.  `get_layers` does this
//! for a whole list of directories.
//!
//! As with decoding, every executable step is proved equal to a
//! specification-level builder (`spec_copy_ifd`, `spec_get_layers`).

use crate::endian_rw::{
    bytes_of, lemma_bytes_of_len, lemma_bytes_roundtrip, order_write_16, order_write_32,
    order_write_64, pow256, Endian,
};
use crate::tiff::{
    check_offset, entry_width, slot_width, spec_check_offset, spec_parse_entry, TiffError,
};
use crate::tiff_types::{
    data_model, data_model_count, data_model_type, lemma_data_roundtrip, lemma_encode_len_matches,
    lemma_type_id_roundtrip, spec_decode_data, spec_encode_data, spec_tag_lookup, spec_type_id,
    spec_type_size, Data, DataModel, DataType, Ifd, Tag,
};
use vstd::pervasive::VecAdditionalExecFns;
use vstd::prelude::*;
use vstd::slice::{slice_subrange, slice_to_vec};

verus! {

/// The sum of the first `i` lengths.
pub open spec fn lens_sum(lens: Seq<u32>, i: int) -> int
    decreases i,
{
    if i <= 0 {
        0
    } else {
        lens_sum(lens, i - 1) + lens[i - 1]
    }
}

/// A prefix sum never exceeds the whole sum.
pub proof fn lemma_lens_sum_monotonic(lens: Seq<u32>, i: int, j: int)
    requires
        0 <= i <= j <= lens.len(),
    ensures
        lens_sum(lens, i) <= lens_sum(lens, j),
    decreases j - i,
{
    if i < j {
        lemma_lens_sum_monotonic(lens, i, j - 1);
    }
}

/// Every prefix sum is non-negative.
pub proof fn lemma_lens_sum_nonneg(lens: Seq<u32>, i: int)
    ensures
        lens_sum(lens, i) >= 0,
    decreases i,
{
    if i > 0 {
        lemma_lens_sum_nonneg(lens, i - 1);
    }
}

/// The bytes the first `i` offset and length pairs copy out of the source:
/// each pair whose range passes the offset validator contributes that exact
/// range, in listed order and with no gaps; a failing pair contributes
/// nothing.
pub open spec fn spec_copied_bytes(
    source: Seq<u8>,
    offs: Seq<u32>,
    lens: Seq<u32>,
    srclen: int,
    i: int,
) -> Seq<u8>
    decreases i,
{
    if i <= 0 {
        Seq::empty()
    } else {
        spec_copied_bytes(source, offs, lens, srclen, i - 1) + (
        if spec_check_offset(srclen, offs[i - 1] as int, lens[i - 1] as int) {
            source.subrange(offs[i - 1] as int, offs[i - 1] + lens[i - 1])
        } else {
            Seq::empty()
        })
    }
}

/// The rewritten offsets: the first is the length of the output buffer when
/// copying starts, and each subsequent one is the previous plus the previous
/// range's length, so all copied ranges are laid out contiguously.
pub open spec fn spec_dest_offsets(image_len: int, lens: Seq<u32>) -> Seq<u32> {
    Seq::new(lens.len(), |i: int| (image_len + lens_sum(lens, i)) as u32)
}

/// A sequence of `n` zero bytes.
pub open spec fn spec_zeros(n: int) -> Seq<u8> {
    Seq::new(n as nat, |i: int| 0u8)
}

/// Pad a buffer to an even length: structures in the output are kept on
/// two-byte word boundaries.
pub open spec fn spec_align(s: Seq<u8>) -> Seq<u8> {
    if s.len() % 2 == 1 {
        s + seq![0u8]
    } else {
        s
    }
}

/// The identifiers whose stored values are file offsets into pixel or table
/// data: strip, free-block, tile and JPEG-stream locations and the JPEG
/// table tags.
pub open spec fn spec_is_pointer_tag(id: u64) -> bool {
    id == 273 || id == 288 || id == 324 || id == 513 || id == 519 || id == 520 || id == 521
}

/// The 32-bit values of the tag stored under `pid`, required by a pointer
/// tag as its paired byte counts; absence or another decoded type refuses
/// the synthesis of this directory.
pub open spec fn spec_paired_long(ifd: Ifd, pid: u64) -> Result<Seq<u32>, TiffError> {
    match spec_tag_lookup(ifd.tags@, pid) {
        Some(t) => match t.data {
            Data::Long(v) => Ok(v@),
            _ => Err(TiffError::MissingPairedTag),
        },
        None => Err(TiffError::MissingPairedTag),
    }
}

/// The byte count of each range a pointer tag references: the value of the
/// paired byte-count tag for strip, free-block, tile and JPEG-stream tags,
/// and a constant (the element width of the tag's own type) for each entry
/// of the JPEG table tags.
pub open spec fn spec_paired_lengths(ifd: Ifd, id: u64, t: Tag) -> Result<Seq<u32>, TiffError> {
    if id == 273 {
        spec_paired_long(ifd, 279)
    } else if id == 288 {
        spec_paired_long(ifd, 289)
    } else if id == 324 {
        spec_paired_long(ifd, 325)
    } else if id == 513 {
        spec_paired_long(ifd, 514)
    } else {
        Ok(Seq::new(t.count as nat, |i: int| spec_type_size(t.datatype) as u32))
    }
}

/// One directory entry re-encoded: the bytes it adds to the output buffer
/// and to the directory record.  A pointer tag first copies the ranges it
/// references into the buffer and is rewritten to the new offsets, with its
/// type normalized to the 32-bit unsigned type; any other value goes inline
/// into the entry's value slot when it fits, else to the word-aligned end of
/// the buffer with the slot holding the new position.
pub open spec fn spec_synth_tag(
    image: Seq<u8>,
    record: Seq<u8>,
    ifd: Ifd,
    id: u64,
    t: Tag,
    source: Seq<u8>,
) -> Result<(Seq<u8>, Seq<u8>), TiffError> {
    let endian = ifd.endian;
    let big = ifd.big_tiff;
    let sw = slot_width(big) as int;
    let step1 = if spec_is_pointer_tag(id) {
        match data_model(t.data) {
            DataModel::Long(offs) => match spec_paired_lengths(ifd, id, t) {
                Ok(lens) => if offs.len() == 0 {
                    Err(TiffError::MissingPairedTag)
                } else if offs.len() != lens.len() {
                    Err(TiffError::MissingPairedTag)
                } else if image.len() + lens_sum(lens, lens.len() as int) > 0xffff_ffff {
                    Err(TiffError::OutOfBounds)
                } else {
                    Ok(
                        (
                            image + spec_copied_bytes(
                                source,
                                offs,
                                lens,
                                ifd.size as int,
                                offs.len() as int,
                            ),
                            DataModel::Long(spec_dest_offsets(image.len() as int, lens)),
                            DataType::Long,
                        ),
                    )
                },
                Err(e) => Err(e),
            },
            _ => Err(TiffError::MissingPairedTag),
        }
    } else {
        Ok((image, data_model(t.data), t.datatype))
    };
    match step1 {
        Err(e) => Err(e),
        Ok((image1, dm, dtype)) => {
            let out = spec_encode_data(dm, endian);
            let rec1 = record + bytes_of(endian, (id as u16) as nat, 2) + bytes_of(
                endian,
                spec_type_id(dtype),
                2,
            ) + (if big {
                bytes_of(endian, t.count as nat, 8)
            } else {
                bytes_of(endian, (t.count as u32) as nat, 4)
            });
            if out.len() <= sw {
                Ok((image1, rec1 + out + spec_zeros(sw - out.len())))
            } else {
                let image_a = spec_align(image1);
                let ptr = if big {
                    bytes_of(endian, image_a.len(), 8)
                } else {
                    bytes_of(endian, (image_a.len() as u32) as nat, 4)
                };
                Ok((image_a + out, rec1 + ptr))
            }
        },
    }
}

/// The output buffer and directory record after re-encoding the entries from
/// index `i` on.
pub open spec fn spec_synth_tags(
    image: Seq<u8>,
    record: Seq<u8>,
    ifd: Ifd,
    i: int,
    source: Seq<u8>,
) -> Result<(Seq<u8>, Seq<u8>), TiffError>
    decreases ifd.tags@.len() - i,
{
    if i >= ifd.tags@.len() {
        Ok((image, record))
    } else {
        match spec_synth_tag(image, record, ifd, ifd.tags@[i].0, ifd.tags@[i].1, source) {
            Err(e) => Err(e),
            Ok((image1, record1)) => spec_synth_tags(image1, record1, ifd, i + 1, source),
        }
    }
}

/// A buffer with `n` bytes starting at `pos` overwritten by `bytes`.
pub open spec fn spec_overwrite(s: Seq<u8>, pos: int, bytes: Seq<u8>) -> Seq<u8> {
    s.take(pos) + bytes + s.skip(pos + bytes.len())
}

/// The output buffer after one whole directory is appended to `image`: the
/// re-encoded entries preceded by their count, placed word-aligned at the
/// end, the placeholder pointer at `ifd_pointer` overwritten with that
/// position, and a zero next-directory pointer at the very end.
pub open spec fn spec_copy_ifd(
    image: Seq<u8>,
    ifd: Ifd,
    ifd_pointer: int,
    source: Seq<u8>,
) -> Result<Seq<u8>, TiffError> {
    let endian = ifd.endian;
    let big = ifd.big_tiff;
    let sw = slot_width(big) as int;
    let record0 = if big {
        bytes_of(endian, (ifd.tags@.len() as u64) as nat, 8)
    } else {
        bytes_of(endian, (ifd.tags@.len() as u16) as nat, 2)
    };
    match spec_synth_tags(image, record0, ifd, 0, source) {
        Err(e) => Err(e),
        Ok((image1, record1)) => {
            let image_a = spec_align(image1);
            let pos_bytes = if big {
                bytes_of(endian, image_a.len(), 8)
            } else {
                bytes_of(endian, (image_a.len() as u32) as nat, 4)
            };
            Ok(spec_overwrite(image_a, ifd_pointer, pos_bytes) + record1 + bytes_of(endian, 0, sw as nat))
        },
    }
}

/// The magic byte pair that declares a byte order.
pub open spec fn spec_magic_pair(endian: Endian) -> Seq<u8> {
    match endian {
        Endian::Big => seq![0x4du8, 0x4du8],
        Endian::Little => seq![0x49u8, 0x49u8],
    }
}

/// The fresh minimal file header for one synthesized directory: the magic
/// pair of the directory's byte order, the version, for the extended layout
/// the offset-size and reserved fields, and a placeholder first-directory
/// pointer at the end.
pub open spec fn spec_layer_header(endian: Endian, big: bool) -> Seq<u8> {
    if big {
        spec_magic_pair(endian) + bytes_of(endian, 0x2b, 2) + bytes_of(endian, 8, 2) + bytes_of(
            endian,
            0,
            2,
        ) + bytes_of(endian, 0, 8)
    } else {
        spec_magic_pair(endian) + bytes_of(endian, 0x2a, 2) + bytes_of(endian, 0, 4)
    }
}

/// One directory synthesized as a standalone TIFF byte stream.
pub open spec fn spec_layer(ifd: Ifd, source: Seq<u8>) -> Result<Seq<u8>, TiffError> {
    let hdr = spec_layer_header(ifd.endian, ifd.big_tiff);
    spec_copy_ifd(hdr, ifd, hdr.len() - slot_width(ifd.big_tiff) as int, source)
}

/// The standalone TIFF byte streams of the directories from index `i` on,
/// one per directory, in list order.
pub open spec fn spec_layers_from(ifds: Seq<Ifd>, i: int, source: Seq<u8>) -> Result<
    Seq<Seq<u8>>,
    TiffError,
>
    decreases ifds.len() - i,
{
    if i >= ifds.len() {
        Ok(Seq::empty())
    } else {
        match spec_layer(ifds[i], source) {
            Err(e) => Err(e),
            Ok(img) => match spec_layers_from(ifds, i + 1, source) {
                Err(e) => Err(e),
                Ok(rest) => Ok(seq![img] + rest),
            },
        }
    }
}

/// The result of synthesizing every directory of a list.
pub open spec fn spec_get_layers(ifds: Seq<Ifd>, source: Seq<u8>) -> Result<
    Seq<Seq<u8>>,
    TiffError,
> {
    spec_layers_from(ifds, 0, source)
}

/// Append the bytes of a slice to a buffer.
fn append_bytes(buf: &mut Vec<u8>, chunk: &[u8])
    ensures
        final(buf)@ == old(buf)@ + chunk@,
{
    let n = chunk.len();
    let mut j: usize = 0;
    while j < n
        invariant
            j <= n,
            n == chunk@.len(),
            buf@ == old(buf)@ + chunk@.take(j as int),
        decreases n - j,
    {
        buf.push(chunk[j]);
        proof {
            assert(old(buf)@ + chunk@.take(j + 1) =~= (old(buf)@ + chunk@.take(j as int)) + seq![
                chunk@[j as int],
            ]);
        }
        j = j + 1;
    }
    proof {
        assert(chunk@.take(n as int) =~= chunk@);
    }
}

/// Append `n` zero bytes to a buffer.
fn append_zeros(buf: &mut Vec<u8>, n: usize)
    ensures
        final(buf)@ == old(buf)@ + spec_zeros(n as int),
{
    let mut j: usize = 0;
    while j < n
        invariant
            j <= n,
            buf@ == old(buf)@ + spec_zeros(j as int),
        decreases n - j,
    {
        buf.push(0);
        proof {
            assert(old(buf)@ + spec_zeros(j + 1) =~= (old(buf)@ + spec_zeros(j as int)) + seq![
                0u8,
            ]);
        }
        j = j + 1;
    }
}

/// Pad the buffer with one zero byte if its length is odd, keeping the next
/// structure on a word boundary.
fn align_image(image: &mut Vec<u8>)
    ensures
        final(image)@ == spec_align(old(image)@),
        final(image)@.len() % 2 == 0,
{
    if image.len() % 2 == 1 {
        image.push(0);
        proof {
            assert(final(image)@ =~= spec_align(old(image)@));
        }
    }
}

/// Every prefix sum of 32-bit lengths is bounded by the count of lengths
/// taken times the largest 32-bit value.
pub proof fn lemma_lens_sum_bound(lens: Seq<u32>, i: int)
    requires
        0 <= i,
    ensures
        lens_sum(lens, i) <= i * 0xffff_ffff,
    decreases i,
{
    if i > 0 {
        lemma_lens_sum_bound(lens, i - 1);
        assert((i - 1) * 0xffff_ffff + 0xffff_ffff == i * 0xffff_ffff) by (nonlinear_arith);
    }
}

/// Copy the byte ranges named by parallel offset and length lists from the
/// source file to the end of `image`, in listed order, skipping any range
/// the offset validator refuses, and return the offsets at which the ranges
/// now live in `image`: the first is where copying started and each next one
/// follows the previous range with no gap.
pub fn copy_tag_data(
    image: &mut Vec<u8>,
    source: &[u8],
    offsets: Vec<u32>,
    lengths: Vec<u32>,
    source_length: usize,
) -> (dest: Vec<u32>)
    requires
        offsets@.len() == lengths@.len(),
        offsets@.len() >= 1,
        source_length <= source@.len(),
        old(image)@.len() + lens_sum(lengths@, lengths@.len() as int) <= 0xffff_ffff,
    ensures
        dest@ == spec_dest_offsets(old(image)@.len() as int, lengths@),
        final(image)@ == old(image)@ + spec_copied_bytes(
            source@,
            offsets@,
            lengths@,
            source_length as int,
            offsets@.len() as int,
        ),
{
    let n = offsets.len();
    let base = image.len();
    proof {
        lemma_lens_sum_nonneg(lengths@, n as int);
    }
    let mut i: usize = 0;
    while i < n
        invariant
            i <= n,
            n == offsets@.len(),
            n == lengths@.len(),
            source_length <= source@.len(),
            image@ == old(image)@ + spec_copied_bytes(
                source@,
                offsets@,
                lengths@,
                source_length as int,
                i as int,
            ),
        decreases n - i,
    {
        let off = offsets[i];
        let len_i = lengths[i];
        if check_offset(source_length, off as usize, len_i as usize) {
            let start = off as usize;
            let end = start + len_i as usize;
            let chunk = slice_subrange(source, start, end);
            append_bytes(image, chunk);
            proof {
                assert(image@ =~= old(image)@ + spec_copied_bytes(
                    source@,
                    offsets@,
                    lengths@,
                    source_length as int,
                    i + 1,
                ));
            }
        } else {
            proof {
                assert(image@ =~= old(image)@ + spec_copied_bytes(
                    source@,
                    offsets@,
                    lengths@,
                    source_length as int,
                    i + 1,
                ));
            }
        }
        i = i + 1;
    }
    let ghost target = spec_dest_offsets(base as int, lengths@);
    let mut dest: Vec<u32> = Vec::new();
    proof {
        lemma_lens_sum_nonneg(lengths@, n as int);
    }
    let mut acc: u32 = base as u32;
    let mut j: usize = 0;
    while j < n
        invariant
            j <= n,
            n == lengths@.len(),
            base + lens_sum(lengths@, n as int) <= 0xffff_ffff,
            acc == base + lens_sum(lengths@, j as int),
            dest@.len() == j,
            forall|k: int| 0 <= k < j ==> dest@[k] == target[k],
            target == spec_dest_offsets(base as int, lengths@),
        decreases n - j,
    {
        proof {
            lemma_lens_sum_nonneg(lengths@, j as int);
            lemma_lens_sum_monotonic(lengths@, j as int, n as int);
            lemma_lens_sum_monotonic(lengths@, j + 1, n as int);
        }
        dest.push(acc);
        acc = acc + lengths[j];
        j = j + 1;
    }
    proof {
        assert(dest@ =~= target);
    }
    dest
}

/// Overwrite the bytes at `pos` with the contents of `bytes`, leaving the
/// rest of the buffer unchanged.
fn overwrite_bytes(buf: &mut Vec<u8>, pos: usize, bytes: &Vec<u8>)
    requires
        pos + bytes@.len() <= old(buf)@.len(),
    ensures
        final(buf)@ == spec_overwrite(old(buf)@, pos as int, bytes@),
{
    let n = bytes.len();
    let buf_len = buf.len();
    let mut j: usize = 0;
    while j < n
        invariant
            j <= n,
            n == bytes@.len(),
            buf@.len() == old(buf)@.len(),
            buf_len == old(buf)@.len(),
            pos + n <= old(buf)@.len(),
            forall|k: int|
                0 <= k < buf@.len() ==> #[trigger] buf@[k] == (if pos <= k < pos + j {
                    bytes@[k - pos]
                } else {
                    old(buf)@[k]
                }),
        decreases n - j,
    {
        buf.set(pos + j, bytes[j]);
        j = j + 1;
    }
    proof {
        assert(buf@ =~= spec_overwrite(old(buf)@, pos as int, bytes@));
    }
}

/// Re-encode one harvested directory at the end of `image`: its entries in
/// stored (ascending identifier) order, every referenced byte range copied
/// verbatim from the source file with the pointer tags rewritten to the new
/// positions, the placeholder first-directory pointer at `ifd_pointer`
/// overwritten with the directory's position, and a zero next-directory
/// pointer closing the file.
#[verifier::rlimit(100)]
pub fn copy_ifd(image: &mut Vec<u8>, ifd: Ifd, ifd_pointer: usize, source: &[u8]) -> (r: Result<
    (),
    TiffError,
>)
    requires
        ifd_pointer + slot_width(ifd.big_tiff) <= old(image)@.len(),
        ifd.size <= source@.len(),
    ensures
        ({
            match spec_copy_ifd(old(image)@, ifd, ifd_pointer as int, source@) {
                Ok(s) => r is Ok && final(image)@ == s,
                Err(e) => r == Err::<(), TiffError>(e),
            }
        }),
{
    let endian = ifd.endian;
    let big = ifd.big_tiff;
    let sw: usize = if big {
        8
    } else {
        4
    };
    let ghost image0 = image@;
    let ghost full = spec_copy_ifd(image0, ifd, ifd_pointer as int, source@);
    let mut ifd_record: Vec<u8> = Vec::new();
    if big {
        order_write_64(endian, &mut ifd_record, #[verifier::truncate] (ifd.tags.len() as u64));
    } else {
        order_write_16(endian, &mut ifd_record, #[verifier::truncate] (ifd.tags.len() as u16));
    }
    let ghost rec0 = ifd_record@;
    let ghost synth_full = spec_synth_tags(image0, rec0, ifd, 0, source@);
    proof {
        assert(rec0 =~= (if big {
            bytes_of(endian, (ifd.tags@.len() as u64) as nat, 8)
        } else {
            bytes_of(endian, (ifd.tags@.len() as u16) as nat, 2)
        }));
    }
    let n = ifd.tags.len();
    let mut i: usize = 0;
    while i < n
        invariant
            i <= n,
            n == ifd.tags@.len(),
            sw == slot_width(big),
            endian == ifd.endian,
            big == ifd.big_tiff,
            ifd.size <= source@.len(),
            ifd_pointer + sw <= image0.len(),
            image0 == old(image)@,
            image0.len() <= image@.len(),
            full == spec_copy_ifd(image0, ifd, ifd_pointer as int, source@),
            synth_full == spec_synth_tags(image0, rec0, ifd, 0, source@),
            rec0 == (if big {
                bytes_of(endian, (ifd.tags@.len() as u64) as nat, 8)
            } else {
                bytes_of(endian, (ifd.tags@.len() as u16) as nat, 2)
            }),
            spec_synth_tags(image@, ifd_record@, ifd, i as int, source@) == synth_full,
        decreases n - i,
    {
        let ghost image_e = image@;
        let ghost rec_e = ifd_record@;
        let id = ifd.tags[i].0;
        let t_count = ifd.tags[i].1.count;
        let mut dtype = ifd.tags[i].1.datatype;
        let ghost t = ifd.tags@[i as int].1;
        let is_ptr = id == 273 || id == 288 || id == 324 || id == 513 || id == 519 || id == 520
            || id == 521;
        let data_output: Vec<u8>;
        let ghost mut dm: DataModel = data_model(t.data);
        if is_ptr {
            let offsets: Vec<u32> = match &ifd.tags[i].1.data {
                Data::Long(v) => slice_to_vec(v.as_slice()),
                _ => {
                    proof {
                        assert(spec_synth_tag(image_e, rec_e, ifd, id, t, source@)
                            == Err::<(Seq<u8>, Seq<u8>), TiffError>(TiffError::MissingPairedTag));
                    assert(ifd.tags@[i as int].0 == id);
                    assert(spec_synth_tags(image_e, rec_e, ifd, i as int, source@) == Err::<(
                        Seq<u8>,
                        Seq<u8>,
                    ), TiffError>(TiffError::MissingPairedTag));
                    assert(full == Err::<Seq<u8>, TiffError>(TiffError::MissingPairedTag));
                    }
                    return Err(TiffError::MissingPairedTag);
                },
            };
            let lengths: Vec<u32>;
            if id == 273 || id == 288 || id == 324 || id == 513 {
                let pid: u64 = if id == 273 {
                    279
                } else if id == 288 {
                    289
                } else if id == 324 {
                    325
                } else {
                    514
                };
                lengths = match ifd.get_tag(pid) {
                    Some(pt) => match &pt.data {
                        Data::Long(v) => slice_to_vec(v.as_slice()),
                        _ => {
                            proof {
                                assert(spec_paired_lengths(ifd, id, t) == Err::<
                                    Seq<u32>,
                                    TiffError,
                                >(TiffError::MissingPairedTag));
                                assert(spec_synth_tag(image_e, rec_e, ifd, id, t, source@)
                                    == Err::<(Seq<u8>, Seq<u8>), TiffError>(
                                    TiffError::MissingPairedTag,
                                ));
                    assert(ifd.tags@[i as int].0 == id);
                    assert(spec_synth_tags(image_e, rec_e, ifd, i as int, source@) == Err::<(
                        Seq<u8>,
                        Seq<u8>,
                    ), TiffError>(TiffError::MissingPairedTag));
                    assert(full == Err::<Seq<u8>, TiffError>(TiffError::MissingPairedTag));
                            }
                            return Err(TiffError::MissingPairedTag);
                        },
                    },
                    None => {
                        proof {
                            assert(spec_paired_lengths(ifd, id, t) == Err::<Seq<u32>, TiffError>(
                                TiffError::MissingPairedTag,
                            ));
                            assert(spec_synth_tag(image_e, rec_e, ifd, id, t, source@) == Err::<
                                (Seq<u8>, Seq<u8>),
                                TiffError,
                            >(TiffError::MissingPairedTag));
                    assert(ifd.tags@[i as int].0 == id);
                    assert(spec_synth_tags(image_e, rec_e, ifd, i as int, source@) == Err::<(
                        Seq<u8>,
                        Seq<u8>,
                    ), TiffError>(TiffError::MissingPairedTag));
                    assert(full == Err::<Seq<u8>, TiffError>(TiffError::MissingPairedTag));
                        }
                        return Err(TiffError::MissingPairedTag);
                    },
                };
            } else {
                if t_count != offsets.len() as u64 {
                    proof {
                        let lens = spec_paired_lengths(ifd, id, t)->Ok_0;
                        assert(lens.len() == t.count as nat);
                        assert(spec_synth_tag(image_e, rec_e, ifd, id, t, source@) == Err::<
                            (Seq<u8>, Seq<u8>),
                            TiffError,
                        >(TiffError::MissingPairedTag));
                    assert(ifd.tags@[i as int].0 == id);
                    assert(spec_synth_tags(image_e, rec_e, ifd, i as int, source@) == Err::<(
                        Seq<u8>,
                        Seq<u8>,
                    ), TiffError>(TiffError::MissingPairedTag));
                    assert(full == Err::<Seq<u8>, TiffError>(TiffError::MissingPairedTag));
                    }
                    return Err(TiffError::MissingPairedTag);
                }
                let es = ifd.tags[i].1.datatype.element_size_in_bytes();
                lengths = vec![es as u32; offsets.len()];
                proof {
                    assert(lengths@ =~= spec_paired_lengths(ifd, id, t)->Ok_0);
                }
            }
            if offsets.len() == 0 {
                proof {
                    assert(spec_synth_tag(image_e, rec_e, ifd, id, t, source@) == Err::<
                        (Seq<u8>, Seq<u8>),
                        TiffError,
                    >(TiffError::MissingPairedTag));
                    assert(ifd.tags@[i as int].0 == id);
                    assert(spec_synth_tags(image_e, rec_e, ifd, i as int, source@) == Err::<(
                        Seq<u8>,
                        Seq<u8>,
                    ), TiffError>(TiffError::MissingPairedTag));
                    assert(full == Err::<Seq<u8>, TiffError>(TiffError::MissingPairedTag));
                }
                return Err(TiffError::MissingPairedTag);
            }
            if offsets.len() != lengths.len() {
                proof {
                    assert(spec_synth_tag(image_e, rec_e, ifd, id, t, source@) == Err::<
                        (Seq<u8>, Seq<u8>),
                        TiffError,
                    >(TiffError::MissingPairedTag));
                    assert(ifd.tags@[i as int].0 == id);
                    assert(spec_synth_tags(image_e, rec_e, ifd, i as int, source@) == Err::<(
                        Seq<u8>,
                        Seq<u8>,
                    ), TiffError>(TiffError::MissingPairedTag));
                    assert(full == Err::<Seq<u8>, TiffError>(TiffError::MissingPairedTag));
                }
                return Err(TiffError::MissingPairedTag);
            }
            let m = lengths.len();
            let mut sum: u128 = 0;
            let mut j: usize = 0;
            proof {
                lemma_lens_sum_bound(lengths@, m as int);
            }
            while j < m
                invariant
                    j <= m,
                    m == lengths@.len(),
                    sum == lens_sum(lengths@, j as int),
                decreases m - j,
            {
                proof {
                    lemma_lens_sum_nonneg(lengths@, j as int);
                    lemma_lens_sum_bound(lengths@, j as int);
                }
                sum = sum + lengths[j] as u128;
                j = j + 1;
            }
            if (image.len() as u128) + sum > 0xffff_ffff {
                proof {
                    assert(spec_synth_tag(image_e, rec_e, ifd, id, t, source@) == Err::<
                        (Seq<u8>, Seq<u8>),
                        TiffError,
                    >(TiffError::OutOfBounds));
                    assert(ifd.tags@[i as int].0 == id);
                    assert(spec_synth_tags(image_e, rec_e, ifd, i as int, source@) == Err::<(
                        Seq<u8>,
                        Seq<u8>,
                    ), TiffError>(TiffError::OutOfBounds));
                    assert(full == Err::<Seq<u8>, TiffError>(TiffError::OutOfBounds));
                }
                return Err(TiffError::OutOfBounds);
            }
            let ghost offs_g = offsets@;
            let ghost lens_g = lengths@;
            proof {
                lemma_lens_sum_nonneg(lengths@, lengths@.len() as int);
            }
            let dest = copy_tag_data(image, source, offsets, lengths, ifd.size);
            proof {
                dm = DataModel::Long(dest@);
                assert(dm == DataModel::Long(spec_dest_offsets(image_e.len() as int, lens_g)));
            }
            data_output = Data::Long(dest).to_vec_u8(endian);
            dtype = DataType::Long;
        } else {
            data_output = ifd.tags[i].1.data.to_vec_u8(endian);
        }
        let ghost image1 = image@;
        proof {
            assert(data_output@ == spec_encode_data(dm, endian));
        }
        order_write_16(endian, &mut ifd_record, #[verifier::truncate] (id as u16));
        order_write_16(
            endian,
            &mut ifd_record,
            #[verifier::truncate] (dtype.type_tiff_id() as u16),
        );
        if big {
            order_write_64(endian, &mut ifd_record, t_count);
        } else {
            order_write_32(endian, &mut ifd_record, #[verifier::truncate] (t_count as u32));
        }
        let ghost rec1 = ifd_record@;
        proof {
            assert(((id as u16) as u64) as nat == (id as u16) as nat);
            assert(rec1 == rec_e + bytes_of(endian, (id as u16) as nat, 2) + bytes_of(
                endian,
                spec_type_id(dtype),
                2,
            ) + (if big {
                bytes_of(endian, t.count as nat, 8)
            } else {
                bytes_of(endian, (t.count as u32) as nat, 4)
            }));
        }
        if data_output.len() <= sw {
            let pad = sw - data_output.len();
            append_bytes(&mut ifd_record, data_output.as_slice());
            append_zeros(&mut ifd_record, pad);
            proof {
                assert(spec_synth_tag(image_e, rec_e, ifd, id, t, source@) == Ok::<
                    (Seq<u8>, Seq<u8>),
                    TiffError,
                >((image@, ifd_record@)));
            }
        } else {
            align_image(image);
            if big {
                order_write_64(endian, &mut ifd_record, image.len() as u64);
            } else {
                order_write_32(endian, &mut ifd_record, #[verifier::truncate] (image.len() as u32));
            }
            append_bytes(image, data_output.as_slice());
            proof {
                assert(image@ == spec_align(image1) + spec_encode_data(dm, endian));
                assert(spec_synth_tag(image_e, rec_e, ifd, id, t, source@) == Ok::<
                    (Seq<u8>, Seq<u8>),
                    TiffError,
                >((image@, ifd_record@)));
            }
        }
        i = i + 1;
    }
    align_image(image);
    let pos = image.len();
    let mut pos_bytes: Vec<u8> = Vec::new();
    if big {
        order_write_64(endian, &mut pos_bytes, pos as u64);
    } else {
        order_write_32(endian, &mut pos_bytes, #[verifier::truncate] (pos as u32));
    }
    proof {
        crate::endian_rw::lemma_bytes_of_len(
            endian,
            if big {
                (pos as u64) as nat
            } else {
                ((pos as u32) as u64) as nat
            },
            if big {
                8nat
            } else {
                4nat
            },
        );
        assert(pos_bytes@ =~= (if big {
            bytes_of(endian, image@.len(), 8)
        } else {
            bytes_of(endian, (image@.len() as u32) as nat, 4)
        }));
        assert(pos_bytes@.len() == sw);
    }
    overwrite_bytes(image, ifd_pointer, &pos_bytes);
    append_bytes(image, ifd_record.as_slice());
    if big {
        order_write_64(endian, image, 0);
    } else {
        order_write_32(endian, image, 0);
    }
    proof {
        assert(full == Ok::<Seq<u8>, TiffError>(image@));
    }
    Ok(())
}

/// The mathematical value of a list of byte buffers.
pub open spec fn buffers_model(v: Seq<Vec<u8>>) -> Seq<Seq<u8>> {
    Seq::new(v.len(), |i: int| v[i]@)
}

/// Prepend already-built layers to the result of synthesizing the rest.
pub open spec fn compose_layers(
    pre: Seq<Seq<u8>>,
    r: Result<Seq<Seq<u8>>, TiffError>,
) -> Result<Seq<Seq<u8>>, TiffError> {
    match r {
        Ok(s) => Ok(pre + s),
        Err(e) => Err(e),
    }
}

/// Synthesize one standalone TIFF byte stream for every directory of the
/// list, in list order: a fresh minimal header matching the directory's byte
/// order and layout, followed by the re-encoded directory and the byte
/// ranges it references.
#[verifier::rlimit(100)]
pub fn get_layers(ifds: Vec<Ifd>, source: &[u8]) -> (r: Result<Vec<Vec<u8>>, TiffError>)
    requires
        forall|i: int| 0 <= i < ifds@.len() ==> (#[trigger] ifds@[i]).size <= source@.len(),
    ensures
        ({
            match (r, spec_get_layers(ifds@, source@)) {
                (Ok(v), Ok(ls)) => buffers_model(v@) == ls,
                (Err(e1), Err(e2)) => e1 == e2,
                _ => false,
            }
        }),
{
    let ghost ifds0 = ifds@;
    let ghost full = spec_get_layers(ifds0, source@);
    let mut layers: Vec<Vec<u8>> = Vec::new();
    let mut rest = ifds;
    let total = rest.len();
    let mut idx: usize = 0;
    proof {
        assert(ifds0.skip(0) =~= ifds0);
        assert(buffers_model(layers@) =~= Seq::<Seq<u8>>::empty());
        assert(Seq::<Seq<u8>>::empty() + full->Ok_0 =~= full->Ok_0);
    }
    while rest.len() > 0
        invariant
            idx <= ifds0.len(),
            ifds0 == ifds@,
            ifds0.len() == total,
            rest@ == ifds0.skip(idx as int),
            layers@.len() == idx,
            forall|i: int| 0 <= i < ifds0.len() ==> (#[trigger] ifds0[i]).size <= source@.len(),
            full == spec_get_layers(ifds0, source@),
            compose_layers(
                buffers_model(layers@),
                spec_layers_from(ifds0, idx as int, source@),
            ) == full,
        decreases rest@.len(),
    {
        proof {
            assert(idx < ifds0.len());
        }
        let ifd = rest.remove(0);
        proof {
            assert(ifd == ifds0[idx as int]);
            assert(rest@ =~= ifds0.skip(idx + 1));
        }
        let endian = ifd.endian;
        let big = ifd.big_tiff;
        let mut image: Vec<u8> = Vec::new();
        match endian {
            Endian::Big => {
                image.push(0x4d);
                image.push(0x4d);
            },
            Endian::Little => {
                image.push(0x49);
                image.push(0x49);
            },
        }
        let sw: usize;
        if big {
            order_write_16(endian, &mut image, 0x2b);
            order_write_16(endian, &mut image, 8);
            order_write_16(endian, &mut image, 0);
            order_write_64(endian, &mut image, 0);
            sw = 8;
        } else {
            order_write_16(endian, &mut image, 0x2a);
            order_write_32(endian, &mut image, 0);
            sw = 4;
        }
        proof {
            crate::endian_rw::lemma_bytes_of_len(endian, 0x2b, 2);
            crate::endian_rw::lemma_bytes_of_len(endian, 0x2a, 2);
            crate::endian_rw::lemma_bytes_of_len(endian, 8, 2);
            crate::endian_rw::lemma_bytes_of_len(endian, 0, 2);
            crate::endian_rw::lemma_bytes_of_len(endian, 0, 8);
            crate::endian_rw::lemma_bytes_of_len(endian, 0, 4);
            assert(image@ =~= spec_layer_header(endian, big));
        }
        let ifd_pointer = image.len() - sw;
        let ghost m2 = spec_layer(ifd, source@);
        match copy_ifd(&mut image, ifd, ifd_pointer, source) {
            Err(e) => {
                proof {
                    assert(spec_layers_from(ifds0, idx as int, source@) == Err::<
                        Seq<Seq<u8>>,
                        TiffError,
                    >(e));
                    assert(full == Err::<Seq<Seq<u8>>, TiffError>(e));
                }
                return Err(e);
            },
            Ok(()) => {
                proof {
                    assert(m2 == Ok::<Seq<u8>, TiffError>(image@));
                }
            },
        }
        let ghost done = buffers_model(layers@);
        layers.push(image);
        idx = idx + 1;
        proof {
            assert(buffers_model(layers@) =~= done + seq![layers@.last()@]);
            let tail = spec_layers_from(ifds0, idx as int, source@);
            assert(compose_layers(buffers_model(layers@), tail) == full) by {
                match tail {
                    Ok(s) => {
                        assert((done + seq![layers@.last()@]) + s =~= done + (seq![
                            layers@.last()@,
                        ] + s));
                    },
                    Err(_) => {},
                }
            }
        }
    }
    proof {
        assert(idx == ifds0.len());
        assert(buffers_model(layers@) + Seq::<Seq<u8>>::empty() =~= buffers_model(layers@));
        assert(full == Ok::<Seq<Seq<u8>>, TiffError>(buffers_model(layers@)));
    }
    Ok(layers)
}

/// Pointer rewrite correctness: when a pointer tag references two ranges
/// that both pass the offset validator, the copy lays them out back to back
/// in the output, the first rewritten offset is where copying started, the
/// second follows immediately after the first range (so the regions are
/// contiguous and cannot overlap), and the bytes at the rewritten offsets
/// are exactly the two source ranges in their original order.
pub proof fn lemma_pointer_rewrite(
    image: Seq<u8>,
    source: Seq<u8>,
    offs: Seq<u32>,
    lens: Seq<u32>,
    srclen: int,
)
    requires
        offs.len() == 2,
        lens.len() == 2,
        spec_check_offset(srclen, offs[0] as int, lens[0] as int),
        spec_check_offset(srclen, offs[1] as int, lens[1] as int),
        srclen <= source.len(),
        image.len() + lens[0] + lens[1] <= 0xffff_ffff,
    ensures
        ({
            let out = image + spec_copied_bytes(source, offs, lens, srclen, 2);
            let dest = spec_dest_offsets(image.len() as int, lens);
            &&& dest[0] == image.len()
            &&& dest[1] == dest[0] + lens[0]
            &&& out.len() == image.len() + lens[0] + lens[1]
            &&& out.subrange(dest[0] as int, dest[0] + lens[0]) == source.subrange(
                offs[0] as int,
                offs[0] + lens[0],
            )
            &&& out.subrange(dest[1] as int, dest[1] + lens[1]) == source.subrange(
                offs[1] as int,
                offs[1] + lens[1],
            )
        }),
{
    let out = image + spec_copied_bytes(source, offs, lens, srclen, 2);
    let dest = spec_dest_offsets(image.len() as int, lens);
    reveal_with_fuel(lens_sum, 3);
    reveal_with_fuel(spec_copied_bytes, 3);
    assert(lens_sum(lens, 1) == lens[0]);
    assert(spec_copied_bytes(source, offs, lens, srclen, 1) =~= source.subrange(
        offs[0] as int,
        offs[0] + lens[0],
    ));
    assert(spec_copied_bytes(source, offs, lens, srclen, 2) =~= source.subrange(
        offs[0] as int,
        offs[0] + lens[0],
    ) + source.subrange(offs[1] as int, offs[1] + lens[1]));
    assert(out.subrange(dest[0] as int, dest[0] + lens[0]) =~= source.subrange(
        offs[0] as int,
        offs[0] + lens[0],
    ));
    assert(out.subrange(dest[1] as int, dest[1] + lens[1]) =~= source.subrange(
        offs[1] as int,
        offs[1] + lens[1],
    ));
}

/// Synthesis self-containment, at the level of one directory entry: an entry
/// the synthesizer wrote with its value inline parses back to the same
/// identifier, type and count, is classified inline again, and the bytes in
/// its value slot decode to exactly the value that was encoded.  Together
/// with the value round trip of `lemma_data_roundtrip` this pins the
/// re-decoded value of every inline entry of a synthesized file.
pub proof fn lemma_inline_entry_reparse(
    file: Seq<u8>,
    endian: Endian,
    big: bool,
    pos: int,
    image: Seq<u8>,
    record: Seq<u8>,
    ifd: Ifd,
    id: u64,
    t: Tag,
    source: Seq<u8>,
)
    requires
        !spec_is_pointer_tag(id),
        ifd.endian == endian,
        ifd.big_tiff == big,
        data_model_type(data_model(t.data)) == t.datatype,
        data_model_count(data_model(t.data)) == t.count as nat,
        (t.count as nat) * spec_type_size(t.datatype) <= slot_width(big),
        id < 0x10000,
        (t.count as nat) < pow256(slot_width(big)),
        0 <= pos,
        pos + entry_width(big) <= file.len(),
        ({
            let rec2 = spec_synth_tag(image, record, ifd, id, t, source)->Ok_0.1;
            file.subrange(pos, pos + entry_width(big) as int) == rec2.skip(record.len() as int)
        }),
    ensures
        spec_synth_tag(image, record, ifd, id, t, source) == Ok::<(Seq<u8>, Seq<u8>), TiffError>(
            (image, spec_synth_tag(image, record, ifd, id, t, source)->Ok_0.1),
        ),
        ({
            let sw = slot_width(big) as int;
            let out = spec_encode_data(data_model(t.data), endian);
            match spec_parse_entry(file, endian, big, pos) {
                Ok((pid, m)) => {
                    &&& pid == id
                    &&& m.datatype == t.datatype
                    &&& m.count == t.count
                    &&& m.offset is None
                    &&& m.datapos == pos + 4 + sw
                    &&& file.subrange(pos + 4 + sw, pos + 4 + sw + out.len()) == out
                    &&& spec_decode_data(
                        t.datatype,
                        endian,
                        file.subrange(pos + 4 + sw, pos + 4 + sw + out.len()),
                        t.count as nat,
                    ) == data_model(t.data)
                },
                Err(_) => false,
            }
        }),
{
    let sw = slot_width(big) as int;
    let ew = entry_width(big) as int;
    let dm = data_model(t.data);
    let out = spec_encode_data(dm, endian);
    lemma_encode_len_matches(dm, endian);
    let b1 = bytes_of(endian, (id as u16) as nat, 2);
    let b2 = bytes_of(endian, spec_type_id(t.datatype), 2);
    let b3 = if big {
        bytes_of(endian, t.count as nat, 8)
    } else {
        bytes_of(endian, (t.count as u32) as nat, 4)
    };
    lemma_bytes_of_len(endian, (id as u16) as nat, 2);
    lemma_bytes_of_len(endian, spec_type_id(t.datatype), 2);
    lemma_bytes_of_len(endian, t.count as nat, 8);
    lemma_bytes_of_len(endian, (t.count as u32) as nat, 4);
    let rec2 = spec_synth_tag(image, record, ifd, id, t, source)->Ok_0.1;
    assert(rec2 == record + b1 + b2 + b3 + out + spec_zeros(sw - out.len()));
    let entry = rec2.skip(record.len() as int);
    assert(entry =~= b1 + b2 + b3 + out + spec_zeros(sw - out.len()));
    assert(entry.len() == ew);
    let window = file.subrange(pos, pos + ew);
    assert(window == entry);
    assert(file.subrange(pos, pos + 2) =~= b1) by {
        assert forall|k: int| 0 <= k < 2 implies file.subrange(pos, pos + 2)[k] == b1[k] by {
            assert(window[k] == entry[k]);
        }
    }
    assert(file.subrange(pos + 2, pos + 4) =~= b2) by {
        assert forall|k: int| 0 <= k < 2 implies file.subrange(pos + 2, pos + 4)[k] == b2[k] by {
            assert(window[k + 2] == entry[k + 2]);
        }
    }
    assert(file.subrange(pos + 4, pos + 4 + sw) =~= b3) by {
        assert forall|k: int| 0 <= k < sw implies file.subrange(pos + 4, pos + 4 + sw)[k]
            == b3[k] by {
            assert(window[k + 4] == entry[k + 4]);
        }
    }
    assert(file.subrange(pos + 4 + sw, pos + 4 + sw + out.len()) =~= out) by {
        assert forall|k: int| 0 <= k < out.len() implies file.subrange(
            pos + 4 + sw,
            pos + 4 + sw + out.len(),
        )[k] == out[k] by {
            assert(window[k + 4 + sw] == entry[k + 4 + sw]);
        }
    }
    assert(pow256(2) == 65536) by {
        reveal_with_fuel(pow256, 3);
    }
    assert(pow256(4) == 0x1_0000_0000) by {
        reveal_with_fuel(pow256, 5);
    }
    assert(pow256(8) == 0x1_0000_0000_0000_0000) by {
        reveal_with_fuel(pow256, 9);
    }
    lemma_bytes_roundtrip(endian, (id as u16) as nat, 2);
    lemma_bytes_roundtrip(endian, spec_type_id(t.datatype), 2);
    if big {
        lemma_bytes_roundtrip(endian, t.count as nat, 8);
    } else {
        lemma_bytes_roundtrip(endian, (t.count as u32) as nat, 4);
    }
    lemma_type_id_roundtrip(t.datatype);
    lemma_data_roundtrip(dm, endian);
}

/// Pointer rewrite correctness at the synthesizer's per-tag step: for a
/// pointer tag whose two referenced ranges both pass the offset validator,
/// the step succeeds, and in the buffer it returns the rewritten offsets
/// point at two contiguous, non-overlapping regions holding exactly the two
/// source ranges in their original order.
pub proof fn lemma_synth_tag_pointer_rewrite(
    image: Seq<u8>,
    record: Seq<u8>,
    ifd: Ifd,
    id: u64,
    t: Tag,
    source: Seq<u8>,
)
    requires
        spec_is_pointer_tag(id),
        data_model(t.data) is Long,
        spec_paired_lengths(ifd, id, t) is Ok,
        ({
            let offs = data_model(t.data)->Long_0;
            let lens = spec_paired_lengths(ifd, id, t)->Ok_0;
            &&& offs.len() == 2
            &&& lens.len() == 2
            &&& spec_check_offset(ifd.size as int, offs[0] as int, lens[0] as int)
            &&& spec_check_offset(ifd.size as int, offs[1] as int, lens[1] as int)
            &&& ifd.size <= source.len()
            &&& image.len() + lens[0] + lens[1] <= 0xffff_ffff
        }),
    ensures
        spec_synth_tag(image, record, ifd, id, t, source) is Ok,
        ({
            let offs = data_model(t.data)->Long_0;
            let lens = spec_paired_lengths(ifd, id, t)->Ok_0;
            let dest = spec_dest_offsets(image.len() as int, lens);
            let image1 = spec_synth_tag(image, record, ifd, id, t, source)->Ok_0.0;
            &&& dest[0] == image.len()
            &&& dest[1] == dest[0] + lens[0]
            &&& image1.len() >= image.len() + lens[0] + lens[1]
            &&& image1.subrange(dest[0] as int, dest[0] + lens[0]) == source.subrange(
                offs[0] as int,
                offs[0] + lens[0],
            )
            &&& image1.subrange(dest[1] as int, dest[1] + lens[1]) == source.subrange(
                offs[1] as int,
                offs[1] + lens[1],
            )
        }),
{
    let offs = data_model(t.data)->Long_0;
    let lens = spec_paired_lengths(ifd, id, t)->Ok_0;
    let dest = spec_dest_offsets(image.len() as int, lens);
    reveal_with_fuel(lens_sum, 3);
    lemma_pointer_rewrite(image, source, offs, lens, ifd.size as int);
    let copied = spec_copied_bytes(source, offs, lens, ifd.size as int, 2);
    let grown = image + copied;
    let dm = DataModel::Long(dest);
    let out = spec_encode_data(dm, ifd.endian);
    let image1 = spec_synth_tag(image, record, ifd, id, t, source)->Ok_0.0;
    if out.len() <= slot_width(ifd.big_tiff) {
        assert(image1 == grown);
    } else {
        assert(image1 == spec_align(grown) + out);
        assert forall|k: int| 0 <= k < grown.len() implies #[trigger] image1[k] == grown[k] by {}
        assert(image1.subrange(dest[0] as int, dest[0] + lens[0]) =~= grown.subrange(
            dest[0] as int,
            dest[0] + lens[0],
        ));
        assert(image1.subrange(dest[1] as int, dest[1] + lens[1]) =~= grown.subrange(
            dest[1] as int,
            dest[1] + lens[1],
        ));
    }
}

} // verus!
