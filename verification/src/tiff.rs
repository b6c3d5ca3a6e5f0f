//! Structural decoding of the TIFF container.
//!
//! `read_tiff` parses the file header, determines the byte order and the
//! classic-versus-extended layout, and walks the chain of image file
//! directories.  The vendor-private sub-directory tag (identifier 330) is
//! followed recursively, and every directory found that way is appended to
//! the flat result list before the directory that references it, so the list
//! is ordered children first.
//!
//! Every executable step is proved equal to a specification-level parser
//! (`spec_read_tiff`, `spec_walk_chain`, `spec_read_ifd`), which fixes the
//! meaning of the byte format once, in mathematics.

use crate::endian_rw::{bytes_value, pow256, read_at, Endian};
use crate::tiff_types::{
    data_model, ifd_invariant, ifd_model, ifd_models_of, ifd_subifds_empty, info_model,
    lemma_sorted_tag_insert_sorted, lemma_tag_models_insert, sorted_tag_insert, spec_datatype_of,
    spec_decode_data, spec_empty_data, spec_type_size, tag_model, tag_models_of, tags_sorted,
    Data, DataModel, DataType, Ifd, IfdModel, Info, InfoModel, Tag, TagModel,
};
use vstd::prelude::*;
use vstd::slice::{slice_subrange, slice_to_vec};

pub use crate::synth::{copy_ifd, copy_tag_data, get_layers};


verus! {

/// The ceiling on how many directories one file may declare, counting every
/// directory reached through a chain or a sub-directory tag.  Walking stops
/// when the ceiling is reached, which bounds the work done on a file whose
/// directory pointers form a cycle.
pub const MAX_DIRECTORIES: u64 = 4096;

/// Why a file, a directory or a synthesis was refused.
#[derive(Clone, Copy, Debug, PartialEq, Eq, Structural)]
pub enum TiffError {
    /// The first four bytes are none of the four recognized magic sequences.
    InvalidHeader,
    /// The extended-variant header declares an offset size other than 8.
    UnsupportedOffsetSize,
    /// A computed offset and length pair falls outside the file.
    OutOfBounds,
    /// A pointer tag's paired byte-count tag is absent or of the wrong
    /// decoded type.
    MissingPairedTag,
    /// A directory entry declares a type identifier outside the supported
    /// set.
    UnrecognizedDataType,
}

/// True when `length` bytes can be read at `offset` from a source of
/// `source_length` bytes: the read must start at or after the 8-byte file
/// header and must end within the source.
pub open spec fn spec_check_offset(source_length: int, offset: int, length: int) -> bool {
    &&& offset >= 8
    &&& offset + length <= source_length
}

/// Check whether a read of `length` bytes at `offset` stays inside a source
/// of `source_length` bytes and clear of the file header.  This predicate is
/// the single gate against out-of-bounds reads on both the decode and the
/// synthesis path.
pub fn check_offset(source_length: usize, offset: usize, length: usize) -> (allowed: bool)
    ensures
        allowed == spec_check_offset(source_length as int, offset as int, length as int),
{
    offset >= 8 && length <= source_length && offset <= source_length - length
}

/// The width of the entry-count field at the head of a directory.
pub open spec fn count_field_width(big: bool) -> nat {
    if big {
        8
    } else {
        2
    }
}

/// The width of an entry's value slot, of an entry's count field and of the
/// next-directory pointer.
pub open spec fn slot_width(big: bool) -> nat {
    if big {
        8
    } else {
        4
    }
}

/// The width of one directory entry: identifier, type, count and value slot.
pub open spec fn entry_width(big: bool) -> nat {
    4 + 2 * slot_width(big)
}

/// The least span a directory can occupy: its entry-count field and the
/// trailing next-directory pointer.
pub open spec fn dir_min_length(big: bool) -> nat {
    count_field_width(big) + slot_width(big)
}

/// The value of the `n` bytes at `pos` of the file under the given byte
/// order.
pub open spec fn val_at(endian: Endian, file: Seq<u8>, pos: int, n: int) -> nat {
    bytes_value(endian, file.subrange(pos, pos + n))
}

/// Keep a fuel value from exceeding the fuel it descended from.
pub open spec fn cap_fuel(rem: nat, fuel: nat) -> nat {
    if rem <= fuel {
        rem
    } else {
        fuel
    }
}

/// The identifier of the vendor-private tag whose value is a list of
/// sub-directory offsets.
pub const SUB_IFD_TAG: u64 = 330;

/// One parsed directory entry: its identifier and its record, with the value
/// still unresolved.  The entry fails when its type identifier is not
/// supported.
pub open spec fn spec_parse_entry(file: Seq<u8>, endian: Endian, big: bool, pos: int) -> Result<
    (u64, TagModel),
    TiffError,
> {
    let sw = slot_width(big) as int;
    let id = val_at(endian, file, pos, 2) as u64;
    let type_raw = val_at(endian, file, pos + 2, 2) as u16;
    let count = val_at(endian, file, pos + 4, sw) as u64;
    let datapos = pos + 4 + sw;
    let slot_val = val_at(endian, file, datapos, sw) as u64;
    match spec_datatype_of(type_raw) {
        None => Err(TiffError::UnrecognizedDataType),
        Some(dt) => Ok(
            (
                id,
                TagModel {
                    count,
                    data: DataModel::Byte(Seq::empty()),
                    datapos: datapos as nat,
                    datatype: dt,
                    has_subifds: false,
                    offset: if (count as nat) * spec_type_size(dt) > slot_width(big) {
                        Some((slot_val as usize) as nat)
                    } else {
                        None
                    },
                },
            ),
        ),
    }
}

/// The entries of a directory from index `i` on, inserted into `acc` in
/// identifier order; an entry whose identifier repeats replaces the earlier
/// one.
pub open spec fn spec_parse_entries(
    file: Seq<u8>,
    endian: Endian,
    big: bool,
    base: int,
    k: nat,
    i: nat,
    acc: Seq<(u64, TagModel)>,
) -> Result<Seq<(u64, TagModel)>, TiffError>
    decreases k - i,
{
    if i >= k {
        Ok(acc)
    } else {
        match spec_parse_entry(file, endian, big, base + (i as int) * (entry_width(big) as int)) {
            Err(e) => Err(e),
            Ok((id, m)) => spec_parse_entries(
                file,
                endian,
                big,
                base,
                k,
                i + 1,
                sorted_tag_insert(acc, id, m),
            ),
        }
    }
}

/// A tag with its value resolved: the bytes live at the out-of-line offset
/// when one is present, else in the value slot itself.  A span that runs past
/// the end of the file leaves the tag with an empty value of its declared
/// type, so that the sibling tags and directories still get decoded.
pub open spec fn spec_resolved_tag(
    file: Seq<u8>,
    endian: Endian,
    size: int,
    id: u64,
    m: TagModel,
) -> TagModel {
    let pos = match m.offset {
        Some(o) => o as int,
        None => m.datapos as int,
    };
    let bc = (m.count as int) * (spec_type_size(m.datatype) as int);
    let data = if pos + bc <= size {
        spec_decode_data(m.datatype, endian, file.subrange(pos, pos + bc), m.count as nat)
    } else {
        spec_empty_data(m.datatype)
    };
    TagModel { data, has_subifds: id == SUB_IFD_TAG, ..m }
}

/// The directories reached from the sub-directory offsets `offs[j..]`, in
/// listed order, with the fuel that remains.
pub open spec fn spec_walk_subs(
    file: Seq<u8>,
    endian: Endian,
    big: bool,
    size: int,
    offs: Seq<u32>,
    j: nat,
    fuel: nat,
) -> Result<(Seq<IfdModel>, nat), TiffError>
    decreases fuel, 1nat, offs.len() - j,
{
    if j >= offs.len() {
        Ok((Seq::empty(), fuel))
    } else {
        match spec_walk_chain(file, endian, big, size, offs[j as int] as nat, fuel) {
            Err(e) => Err(e),
            Ok((s1, rem1)) => match spec_walk_subs(
                file,
                endian,
                big,
                size,
                offs,
                j + 1,
                cap_fuel(rem1, fuel),
            ) {
                Err(e) => Err(e),
                Ok((s2, rem2)) => Ok((s1 + s2, rem2)),
            },
        }
    }
}

/// The directories contributed by one resolved tag: the chains its offsets
/// list when it is the sub-directory tag with a 32-bit value, else nothing.
pub open spec fn spec_sub_result(
    file: Seq<u8>,
    endian: Endian,
    big: bool,
    size: int,
    id: u64,
    m2: TagModel,
    fuel: nat,
) -> Result<(Seq<IfdModel>, nat), TiffError>
    decreases fuel, 2nat, 0nat,
{
    if id == SUB_IFD_TAG {
        match m2.data {
            DataModel::Long(offs) => spec_walk_subs(file, endian, big, size, offs, 0, fuel),
            _ => Ok((Seq::empty(), fuel)),
        }
    } else {
        Ok((Seq::empty(), fuel))
    }
}

/// The tags of a directory from index `i` on with their values resolved,
/// together with every directory discovered through a sub-directory tag and
/// the fuel that remains.
pub open spec fn spec_resolve_tags(
    file: Seq<u8>,
    endian: Endian,
    big: bool,
    size: int,
    tags: Seq<(u64, TagModel)>,
    i: nat,
    fuel: nat,
) -> Result<(Seq<(u64, TagModel)>, Seq<IfdModel>, nat), TiffError>
    decreases fuel, 2nat, tags.len() - i,
{
    if i >= tags.len() {
        Ok((tags, Seq::empty(), fuel))
    } else {
        let id = tags[i as int].0;
        let m2 = spec_resolved_tag(file, endian, size, id, tags[i as int].1);
        match spec_sub_result(file, endian, big, size, id, m2, fuel) {
            Err(e) => Err(e),
            Ok((subs, rem)) => match spec_resolve_tags(
                file,
                endian,
                big,
                size,
                tags.update(i as int, (id, m2)),
                i + 1,
                cap_fuel(rem, fuel),
            ) {
                Err(e) => Err(e),
                Ok((tags2, subs2, rem2)) => Ok((tags2, subs + subs2, rem2)),
            },
        }
    }
}

/// One directory read at `off`: the directories it contributes to the flat
/// list (its own record last, after any discovered sub-directories), the
/// next-directory pointer, and the fuel that remains.  `Ok(None)` means the
/// directory lies outside the file and the chain it belongs to ends here.
pub open spec fn spec_read_ifd(
    file: Seq<u8>,
    endian: Endian,
    big: bool,
    size: int,
    off: nat,
    fuel: nat,
) -> Result<Option<(Seq<IfdModel>, nat, nat)>, TiffError>
    decreases fuel, 3nat, 0nat,
{
    if !spec_check_offset(size, off as int, dir_min_length(big) as int) {
        Ok(None)
    } else {
        let cw = count_field_width(big) as int;
        let ew = entry_width(big) as int;
        let k = val_at(endian, file, off as int, cw);
        let total = cw + (k as int) * ew + slot_width(big) as int;
        if !spec_check_offset(size, off as int, total) {
            Ok(None)
        } else {
            match spec_parse_entries(file, endian, big, off + cw, k, 0, Seq::empty()) {
                Err(e) => Err(e),
                Ok(tags0) => {
                    let next = val_at(
                        endian,
                        file,
                        off + cw + (k as int) * ew,
                        slot_width(big) as int,
                    );
                    match spec_resolve_tags(file, endian, big, size, tags0, 0, fuel) {
                        Err(e) => Err(e),
                        Ok((tags1, subs, rem)) => Ok(
                            Some(
                                (
                                    subs + seq![
                                        IfdModel {
                                            endian,
                                            big_tiff: big,
                                            offset: off,
                                            size: size as nat,
                                            tag_count: k as u64,
                                            tags: tags1,
                                        },
                                    ],
                                    next,
                                    rem,
                                ),
                            ),
                        ),
                    }
                },
            }
        }
    }
}

/// The directories of the chain that starts at `start`, children before the
/// directory that references them, and the fuel that remains.  A chain ends
/// at a zero pointer, at a directory outside the file, or when the fuel is
/// used up.
pub open spec fn spec_walk_chain(
    file: Seq<u8>,
    endian: Endian,
    big: bool,
    size: int,
    start: nat,
    fuel: nat,
) -> Result<(Seq<IfdModel>, nat), TiffError>
    decreases fuel, 0nat, 0nat,
{
    if start == 0 || fuel == 0 {
        Ok((Seq::empty(), fuel))
    } else {
        match spec_read_ifd(file, endian, big, size, start, (fuel - 1) as nat) {
            Err(e) => Err(e),
            Ok(None) => Ok((Seq::empty(), (fuel - 1) as nat)),
            Ok(Some((ms, next, rem))) => match spec_walk_chain(
                file,
                endian,
                big,
                size,
                next,
                cap_fuel(rem, (fuel - 1) as nat),
            ) {
                Err(e) => Err(e),
                Ok((ms2, rem2)) => Ok((ms + ms2, rem2)),
            },
        }
    }
}

/// True when the four bytes are one of the four recognized magic sequences:
/// classic or extended, little- or big-endian.
pub open spec fn valid_magic(h: Seq<u8>) -> bool {
    h.len() >= 4 && {
        ||| (h[0] == 0x49 && h[1] == 0x49 && h[2] == 0x2a && h[3] == 0x00)
        ||| (h[0] == 0x4d && h[1] == 0x4d && h[2] == 0x00 && h[3] == 0x2a)
        ||| (h[0] == 0x49 && h[1] == 0x49 && h[2] == 0x2b && h[3] == 0x00)
        ||| (h[0] == 0x4d && h[1] == 0x4d && h[2] == 0x00 && h[3] == 0x2b)
    }
}

/// The byte order a magic sequence declares.
pub open spec fn magic_endian(h: Seq<u8>) -> Endian {
    if h[0] == 0x4d && h[1] == 0x4d {
        Endian::Big
    } else {
        Endian::Little
    }
}

/// Whether a magic sequence declares the extended layout (version 43) rather
/// than the classic one (version 42).
pub open spec fn magic_big_tiff(h: Seq<u8>) -> bool {
    h[2] == 0x2b || h[3] == 0x2b
}

/// The result of reading a whole file: its header facts and the flat,
/// order-significant directory list.
pub open spec fn spec_read_tiff(file: Seq<u8>) -> Result<(InfoModel, Seq<IfdModel>), TiffError> {
    let h = file.take(4);
    if file.len() < 4 || !valid_magic(h) {
        Err(TiffError::InvalidHeader)
    } else {
        let endian = magic_endian(h);
        let big = magic_big_tiff(h);
        if big {
            if file.len() < 6 {
                Err(TiffError::InvalidHeader)
            } else if val_at(endian, file, 4, 2) != 8 {
                Err(TiffError::UnsupportedOffsetSize)
            } else if file.len() < 12 {
                Err(TiffError::InvalidHeader)
            } else {
                spec_read_tiff_body(file, endian, big, val_at(endian, file, 8, 4))
            }
        } else {
            if file.len() < 8 {
                Err(TiffError::InvalidHeader)
            } else {
                spec_read_tiff_body(file, endian, big, val_at(endian, file, 4, 4))
            }
        }
    }
}

/// The walk of the whole directory structure from the first-directory
/// offset, packaged with the file-level facts.
pub open spec fn spec_read_tiff_body(
    file: Seq<u8>,
    endian: Endian,
    big: bool,
    first: nat,
) -> Result<(InfoModel, Seq<IfdModel>), TiffError> {
    match spec_walk_chain(file, endian, big, file.len() as int, first, MAX_DIRECTORIES as nat) {
        Err(e) => Err(e),
        Ok((ms, _)) => Ok(
            (
                InfoModel {
                    endian,
                    big_tiff: big,
                    first_ifd: first,
                    header: file.take(4),
                    size: file.len(),
                },
                ms,
            ),
        ),
    }
}

/// Header recognition: a file whose first four bytes are not one of the four
/// recognized magic sequences is refused as `InvalidHeader`, and a file that
/// is accepted reports exactly the byte order and the layout variant its
/// magic sequence declares, together with its own length.
pub proof fn lemma_header_recognition(file: Seq<u8>)
    ensures
        file.len() < 4 || !valid_magic(file.take(4)) ==> spec_read_tiff(file) == Err::<
            (InfoModel, Seq<IfdModel>),
            TiffError,
        >(TiffError::InvalidHeader),
        match spec_read_tiff(file) {
            Ok((im, _)) => {
                &&& valid_magic(file.take(4))
                &&& im.endian == magic_endian(file.take(4))
                &&& im.big_tiff == magic_big_tiff(file.take(4))
                &&& im.header == file.take(4)
                &&& im.size == file.len()
            },
            Err(_) => true,
        },
{
}

/// Directory ordering: whatever one directory read contributes to the flat
/// list, its own record comes last, after every directory discovered through
/// its sub-directory tag.  Reversing the finished list therefore recovers
/// the top-to-bottom layer order.
pub proof fn lemma_children_before_parent(
    file: Seq<u8>,
    endian: Endian,
    big: bool,
    size: int,
    off: nat,
    fuel: nat,
)
    ensures
        match spec_read_ifd(file, endian, big, size, off, fuel) {
            Ok(Some((ms, next, rem))) => {
                &&& ms.len() >= 1
                &&& ms.last().offset == off
                &&& ms.last().endian == endian
                &&& ms.last().big_tiff == big
            },
            _ => true,
        },
{
}


/// A tag record points out of line exactly when its value is wider than the
/// inline slot of the layout it was read under.
pub open spec fn tag_well_classified(big: bool, m: TagModel) -> bool {
    m.offset is Some <==> (m.count as nat) * spec_type_size(m.datatype) > slot_width(big)
}

/// Every tag of the list is classified by the inline boundary.
pub open spec fn tags_well_classified(big: bool, tags: Seq<(u64, TagModel)>) -> bool {
    forall|j: int| 0 <= j < tags.len() ==> tag_well_classified(big, (#[trigger] tags[j]).1)
}

/// Every tag of every directory of the list is classified by the inline
/// boundary.
pub open spec fn ifds_well_classified(big: bool, ms: Seq<IfdModel>) -> bool {
    forall|k: int| 0 <= k < ms.len() ==> tags_well_classified(big, (#[trigger] ms[k]).tags)
}

/// Inserting a well-classified tag into a well-classified list keeps the
/// list well-classified.
proof fn lemma_insert_classified(big: bool, acc: Seq<(u64, TagModel)>, id: u64, m: TagModel)
    requires
        tags_well_classified(big, acc),
        tag_well_classified(big, m),
    ensures
        tags_well_classified(big, sorted_tag_insert(acc, id, m)),
{
    crate::tiff_types::lemma_tag_insert_index(acc, id);
    let i = crate::tiff_types::tag_insert_index(acc, id) as int;
    if i < acc.len() && acc[i].0 == id {
        let r = acc.update(i, (id, m));
        assert forall|j: int| 0 <= j < r.len() implies tag_well_classified(
            big,
            (#[trigger] r[j]).1,
        ) by {
            if j != i {
                assert(r[j] == acc[j]);
                assert(tag_well_classified(big, acc[j].1));
            }
        }
    } else {
        let r = acc.insert(i, (id, m));
        assert forall|j: int| 0 <= j < r.len() implies tag_well_classified(
            big,
            (#[trigger] r[j]).1,
        ) by {
            if j < i {
                assert(r[j] == acc[j]);
                assert(tag_well_classified(big, acc[j].1));
            } else if j > i {
                assert(r[j] == acc[j - 1]);
                assert(tag_well_classified(big, acc[j - 1].1));
            }
        }
    }
}

/// Every entry the entry parser accepts is classified by the inline
/// boundary: the classification is part of its definition.
proof fn lemma_parse_entries_classified(
    file: Seq<u8>,
    endian: Endian,
    big: bool,
    base: int,
    k: nat,
    i: nat,
    acc: Seq<(u64, TagModel)>,
)
    requires
        tags_well_classified(big, acc),
    ensures
        match spec_parse_entries(file, endian, big, base, k, i, acc) {
            Ok(tags) => tags_well_classified(big, tags),
            Err(_) => true,
        },
    decreases k - i,
{
    if i < k {
        match spec_parse_entry(file, endian, big, base + (i as int) * (entry_width(big) as int)) {
            Err(_) => {
            },
            Ok((id, m)) => {
                assert(tag_well_classified(big, m));
                lemma_insert_classified(big, acc, id, m);
                lemma_parse_entries_classified(
                    file,
                    endian,
                    big,
                    base,
                    k,
                    i + 1,
                    sorted_tag_insert(acc, id, m),
                );
            },
        }
    }
}

/// Resolving values keeps a tag list well-classified, and every directory
/// discovered through the sub-directory tag is well-classified too.
proof fn lemma_resolve_classified(
    file: Seq<u8>,
    endian: Endian,
    big: bool,
    size: int,
    tags: Seq<(u64, TagModel)>,
    i: nat,
    fuel: nat,
)
    requires
        tags_well_classified(big, tags),
    ensures
        match spec_resolve_tags(file, endian, big, size, tags, i, fuel) {
            Ok((tags1, subs, rem)) => tags_well_classified(big, tags1) && ifds_well_classified(
                big,
                subs,
            ),
            Err(_) => true,
        },
    decreases fuel, 2nat, tags.len() - i,
{
    if i < tags.len() {
        let id = tags[i as int].0;
        let m2 = spec_resolved_tag(file, endian, size, id, tags[i as int].1);
        assert(tag_well_classified(big, m2));
        if id == SUB_IFD_TAG {
            match m2.data {
                DataModel::Long(offs) => {
                    lemma_walk_subs_classified(file, endian, big, size, offs, 0, fuel);
                },
                _ => {
                },
            }
        }
        match spec_sub_result(file, endian, big, size, id, m2, fuel) {
            Err(_) => {
            },
            Ok((subs, rem)) => {
                let updated = tags.update(i as int, (id, m2));
                assert forall|j: int| 0 <= j < updated.len() implies tag_well_classified(
                    big,
                    (#[trigger] updated[j]).1,
                ) by {
                    if j != i {
                        assert(updated[j] == tags[j]);
                        assert(tag_well_classified(big, tags[j].1));
                    }
                }
                lemma_resolve_classified(
                    file,
                    endian,
                    big,
                    size,
                    updated,
                    i + 1,
                    cap_fuel(rem, fuel),
                );
                match spec_resolve_tags(
                    file,
                    endian,
                    big,
                    size,
                    updated,
                    i + 1,
                    cap_fuel(rem, fuel),
                ) {
                    Ok((tags2, subs2, rem2)) => {
                        assert forall|x: int| 0 <= x < (subs + subs2).len() implies
                            tags_well_classified(big, (#[trigger] (subs + subs2)[x]).tags) by {
                            if x < subs.len() {
                                assert(tags_well_classified(big, subs[x].tags));
                            } else {
                                assert(tags_well_classified(big, subs2[x - subs.len()].tags));
                            }
                        }
                    },
                    Err(_) => {
                    },
                }
            },
        }
    }
}

/// Every directory reached from a list of sub-directory offsets is
/// well-classified.
proof fn lemma_walk_subs_classified(
    file: Seq<u8>,
    endian: Endian,
    big: bool,
    size: int,
    offs: Seq<u32>,
    j: nat,
    fuel: nat,
)
    ensures
        match spec_walk_subs(file, endian, big, size, offs, j, fuel) {
            Ok((ms, rem)) => ifds_well_classified(big, ms),
            Err(_) => true,
        },
    decreases fuel, 1nat, offs.len() - j,
{
    if j < offs.len() {
        lemma_chain_classified(file, endian, big, size, offs[j as int] as nat, fuel);
        match spec_walk_chain(file, endian, big, size, offs[j as int] as nat, fuel) {
            Err(_) => {
            },
            Ok((s1, rem1)) => {
                lemma_walk_subs_classified(file, endian, big, size, offs, j + 1, cap_fuel(rem1, fuel));
                match spec_walk_subs(file, endian, big, size, offs, j + 1, cap_fuel(rem1, fuel)) {
                    Err(_) => {
                    },
                    Ok((s2, rem2)) => {
                        assert forall|x: int| 0 <= x < (s1 + s2).len() implies tags_well_classified(
                            big,
                            (#[trigger] (s1 + s2)[x]).tags,
                        ) by {
                            if x < s1.len() {
                                assert(tags_well_classified(big, s1[x].tags));
                            } else {
                                assert(tags_well_classified(big, s2[x - s1.len()].tags));
                            }
                        }
                    },
                }
            },
        }
    }
}

/// Every directory one read contributes is well-classified.
proof fn lemma_read_ifd_classified(
    file: Seq<u8>,
    endian: Endian,
    big: bool,
    size: int,
    off: nat,
    fuel: nat,
)
    ensures
        match spec_read_ifd(file, endian, big, size, off, fuel) {
            Ok(Some((ms, next, rem))) => ifds_well_classified(big, ms),
            _ => true,
        },
    decreases fuel, 3nat, 0nat,
{
    if spec_check_offset(size, off as int, dir_min_length(big) as int) {
        let cw = count_field_width(big) as int;
        let ew = entry_width(big) as int;
        let k = val_at(endian, file, off as int, cw);
        let total = cw + (k as int) * ew + slot_width(big) as int;
        if spec_check_offset(size, off as int, total) {
            assert(tags_well_classified(big, Seq::<(u64, TagModel)>::empty()));
            lemma_parse_entries_classified(file, endian, big, off + cw, k, 0, Seq::empty());
            match spec_parse_entries(file, endian, big, off + cw, k, 0, Seq::empty()) {
                Err(_) => {
                },
                Ok(tags0) => {
                    lemma_resolve_classified(file, endian, big, size, tags0, 0, fuel);
                    match spec_resolve_tags(file, endian, big, size, tags0, 0, fuel) {
                        Err(_) => {
                        },
                        Ok((tags1, subs, rem)) => {
                            let own = IfdModel {
                                endian,
                                big_tiff: big,
                                offset: off,
                                size: size as nat,
                                tag_count: k as u64,
                                tags: tags1,
                            };
                            let all = subs + seq![own];
                            assert forall|x: int| 0 <= x < all.len() implies tags_well_classified(
                                big,
                                (#[trigger] all[x]).tags,
                            ) by {
                                if x < subs.len() {
                                    assert(tags_well_classified(big, subs[x].tags));
                                } else {
                                    assert(all[x] == own);
                                }
                            }
                        },
                    }
                },
            }
        }
    }
}

/// Every directory of a chain is well-classified.
proof fn lemma_chain_classified(
    file: Seq<u8>,
    endian: Endian,
    big: bool,
    size: int,
    start: nat,
    fuel: nat,
)
    ensures
        match spec_walk_chain(file, endian, big, size, start, fuel) {
            Ok((ms, rem)) => ifds_well_classified(big, ms),
            Err(_) => true,
        },
    decreases fuel, 0nat, 0nat,
{
    if start != 0 && fuel != 0 {
        lemma_read_ifd_classified(file, endian, big, size, start, (fuel - 1) as nat);
        match spec_read_ifd(file, endian, big, size, start, (fuel - 1) as nat) {
            Err(_) => {
            },
            Ok(None) => {
            },
            Ok(Some((ms, next, rem))) => {
                lemma_chain_classified(
                    file,
                    endian,
                    big,
                    size,
                    next,
                    cap_fuel(rem, (fuel - 1) as nat),
                );
                match spec_walk_chain(file, endian, big, size, next, cap_fuel(rem, (fuel - 1) as nat)) {
                    Err(_) => {
                    },
                    Ok((ms2, rem2)) => {
                        assert forall|x: int| 0 <= x < (ms + ms2).len() implies
                            tags_well_classified(big, (#[trigger] (ms + ms2)[x]).tags) by {
                            if x < ms.len() {
                                assert(tags_well_classified(big, ms[x].tags));
                            } else {
                                assert(tags_well_classified(big, ms2[x - ms.len()].tags));
                            }
                        }
                    },
                }
            },
        }
    }
}

/// The inline boundary through the whole decoder: in every directory a
/// successful read returns, a tag points out of line exactly when its
/// declared count times its type's element width exceeds the inline slot of
/// the file's layout.
pub proof fn lemma_read_tiff_inline_boundary(file: Seq<u8>)
    ensures
        match spec_read_tiff(file) {
            Ok((im, ms)) => ifds_well_classified(im.big_tiff, ms),
            Err(_) => true,
        },
{
    let h = file.take(4);
    if file.len() >= 4 && valid_magic(h) {
        let endian = magic_endian(h);
        let big = magic_big_tiff(h);
        if big {
            if file.len() >= 12 && val_at(endian, file, 4, 2) == 8 {
                lemma_chain_classified(
                    file,
                    endian,
                    big,
                    file.len() as int,
                    val_at(endian, file, 8, 4),
                    MAX_DIRECTORIES as nat,
                );
            }
        } else {
            if file.len() >= 8 {
                lemma_chain_classified(
                    file,
                    endian,
                    big,
                    file.len() as int,
                    val_at(endian, file, 4, 4),
                    MAX_DIRECTORIES as nat,
                );
            }
        }
    }
}

/// The inline boundary carried to a decoded record: a directory whose model
/// is well-classified stores `Some` in a tag's offset field exactly when the
/// tag's count times its element width exceeds the inline slot.
pub proof fn lemma_ifd_inline_boundary(big: bool, ifd: Ifd)
    requires
        tags_well_classified(big, tag_models_of(ifd.tags@)),
    ensures
        forall|j: int|
            0 <= j < ifd.tags@.len() ==> ((#[trigger] ifd.tags@[j]).1.offset is Some <==> (
            ifd.tags@[j].1.count as nat) * spec_type_size(ifd.tags@[j].1.datatype) > slot_width(
                big,
            )),
{
    assert forall|j: int|
        0 <= j < ifd.tags@.len() implies ((#[trigger] ifd.tags@[j]).1.offset is Some <==> (
    ifd.tags@[j].1.count as nat) * spec_type_size(ifd.tags@[j].1.datatype) > slot_width(big)) by {
        assert(tag_well_classified(big, tag_models_of(ifd.tags@)[j].1));
        assert(tag_models_of(ifd.tags@)[j].1 == tag_model(ifd.tags@[j].1));
    }
}

/// A tag's parsed record points out of line exactly when its value is wider
/// than the inline slot: `count` times the element size of its type against
/// the 4-byte classic or 8-byte extended slot.
pub proof fn lemma_inline_boundary(file: Seq<u8>, endian: Endian, big: bool, pos: int)
    ensures
        match spec_parse_entry(file, endian, big, pos) {
            Ok((id, m)) => m.offset is Some <==> (m.count as nat) * spec_type_size(m.datatype)
                > slot_width(big),
            Err(_) => true,
        },
{
}

/// `post` extends `pre` by exactly the directories the models `ms` describe,
/// each new record satisfying the directory invariant.
pub open spec fn list_extended(pre: Seq<Ifd>, post: Seq<Ifd>, ms: Seq<IfdModel>) -> bool {
    &&& post.len() == pre.len() + ms.len()
    &&& post.take(pre.len() as int) == pre
    &&& ifd_models_of(post.skip(pre.len() as int)) == ms
    &&& forall|k: int| pre.len() <= k < post.len() ==> ifd_invariant(#[trigger] post[k])
}

/// A list extends itself by nothing.
pub proof fn lemma_list_extended_refl(pre: Seq<Ifd>)
    ensures
        list_extended(pre, pre, Seq::empty()),
{
    assert(pre.take(pre.len() as int) =~= pre);
    assert(ifd_models_of(pre.skip(pre.len() as int)) =~= Seq::empty());
}

/// Two extensions in a row extend by the concatenation.
pub proof fn lemma_list_extended_trans(
    a: Seq<Ifd>,
    b: Seq<Ifd>,
    c: Seq<Ifd>,
    m1: Seq<IfdModel>,
    m2: Seq<IfdModel>,
)
    requires
        list_extended(a, b, m1),
        list_extended(b, c, m2),
    ensures
        list_extended(a, c, m1 + m2),
{
    let al = a.len() as int;
    let bl = b.len() as int;
    assert forall|k: int| 0 <= k < bl implies c[k] == b[k] by {
        assert(c.take(bl)[k] == c[k]);
    }
    assert(c.take(al) =~= a) by {
        assert forall|k: int| 0 <= k < al implies c.take(al)[k] == a[k] by {
            assert(b.take(al)[k] == a[k]);
        }
    }
    assert(ifd_models_of(c.skip(al)) =~= m1 + m2) by {
        assert forall|k: int| 0 <= k < c.len() - al implies ifd_models_of(c.skip(al))[k] == (m1
            + m2)[k] by {
            if k < m1.len() {
                assert(ifd_models_of(b.skip(al))[k] == m1[k]);
                assert(b.skip(al)[k] == b[al + k]);
                assert(c.skip(al)[k] == c[al + k]);
            } else {
                assert(ifd_models_of(c.skip(bl))[k - m1.len()] == m2[k - m1.len()]);
                assert(c.skip(bl)[k - m1.len()] == c[bl + k - m1.len()]);
                assert(c.skip(al)[k] == c[al + k]);
            }
        }
    }
    assert forall|k: int| al <= k < c.len() implies ifd_invariant(#[trigger] c[k]) by {
        if k < bl {
            assert(ifd_invariant(b[k]));
            assert(c[k] == b[k]);
        }
    }
}

/// Appending one directory that satisfies the invariant extends the list by
/// its model.
pub proof fn lemma_list_extended_push(pre: Seq<Ifd>, post: Seq<Ifd>, ms: Seq<IfdModel>, ifd: Ifd)
    requires
        list_extended(pre, post, ms),
        ifd_invariant(ifd),
    ensures
        list_extended(pre, post.push(ifd), ms + seq![ifd_model(ifd)]),
{
    let al = pre.len() as int;
    assert(post.push(ifd).take(al) =~= pre) by {
        assert forall|k: int| 0 <= k < al implies post.push(ifd).take(al)[k] == pre[k] by {
            assert(post.take(al)[k] == pre[k]);
        }
    }
    assert(ifd_models_of(post.push(ifd).skip(al)) =~= ms + seq![ifd_model(ifd)]) by {
        assert forall|k: int| 0 <= k < post.push(ifd).len() - al implies ifd_models_of(
            post.push(ifd).skip(al),
        )[k] == (ms + seq![ifd_model(ifd)])[k] by {
            if k < ms.len() {
                assert(post.push(ifd).skip(al)[k] == post[al + k]);
                assert(ifd_models_of(post.skip(al))[k] == ms[k]);
                assert(post.skip(al)[k] == post[al + k]);
            } else {
                assert(post.push(ifd).skip(al)[k] == ifd);
            }
        }
    }
}

/// Prepend already-collected directories to the result of a chain walk.
pub open spec fn compose_chain(
    pre: Seq<IfdModel>,
    r: Result<(Seq<IfdModel>, nat), TiffError>,
) -> Result<(Seq<IfdModel>, nat), TiffError> {
    match r {
        Ok((ms, rem)) => Ok((pre + ms, rem)),
        Err(e) => Err(e),
    }
}

/// Prepend already-collected directories to the result of a tag resolution.
pub open spec fn compose_resolve(
    pre: Seq<IfdModel>,
    r: Result<(Seq<(u64, TagModel)>, Seq<IfdModel>, nat), TiffError>,
) -> Result<(Seq<(u64, TagModel)>, Seq<IfdModel>, nat), TiffError> {
    match r {
        Ok((tags, subs, rem)) => Ok((tags, pre + subs, rem)),
        Err(e) => Err(e),
    }
}


/// Walk one chain of directories: read the directory at `start`, follow its
/// next pointer, and so on, appending every directory (and the
/// sub-directories each one references) to `ifd_list`.  Returns the fuel
/// left; the walk mirrors `spec_walk_chain` exactly.
#[verifier::rlimit(100)]
fn walk_chain(file: &[u8], info: &Info, start: u64, ifd_list: &mut Vec<Ifd>, fuel: u64) -> (r:
    Result<u64, TiffError>)
    requires
        info.size == file@.len(),
    ensures
        ({
            let sr = spec_walk_chain(
                file@,
                info.endian,
                info.big_tiff,
                info.size as int,
                start as nat,
                fuel as nat,
            );
            match sr {
                Ok((ms, rem)) => r == Ok::<u64, TiffError>(rem as u64) && rem <= fuel as nat
                    && list_extended(old(ifd_list)@, final(ifd_list)@, ms),
                Err(e) => r == Err::<u64, TiffError>(e),
            }
        }),
    decreases fuel, 0int,
{
    let ghost full = spec_walk_chain(
        file@,
        info.endian,
        info.big_tiff,
        info.size as int,
        start as nat,
        fuel as nat,
    );
    let ghost list0 = ifd_list@;
    let ghost mut done: Seq<IfdModel> = Seq::empty();
    let mut next: u64 = start;
    let mut f: u64 = fuel;
    proof {
        lemma_list_extended_refl(list0);
    }
    while next != 0 && f != 0
        invariant_except_break
            info.size == file@.len(),
            f <= fuel,
            old(ifd_list)@ == list0,
            full == spec_walk_chain(
                file@,
                info.endian,
                info.big_tiff,
                info.size as int,
                start as nat,
                fuel as nat,
            ),
            list_extended(list0, ifd_list@, done),
            compose_chain(
                done,
                spec_walk_chain(
                    file@,
                    info.endian,
                    info.big_tiff,
                    info.size as int,
                    next as nat,
                    f as nat,
                ),
            ) == full,
        ensures
            f <= fuel,
            old(ifd_list)@ == list0,
            full == spec_walk_chain(
                file@,
                info.endian,
                info.big_tiff,
                info.size as int,
                start as nat,
                fuel as nat,
            ),
            list_extended(list0, ifd_list@, done),
            compose_chain(done, Ok((Seq::empty(), f as nat))) == full,
        decreases f,
    {
        let hdr: u64 = if info.big_tiff {
            16
        } else {
            6
        };
        let size64: u64 = info.size as u64;
        if !(next >= 8 && next <= size64 && size64 - next >= hdr) {
            proof {
                assert(!spec_check_offset(
                    info.size as int,
                    next as int,
                    dir_min_length(info.big_tiff) as int,
                ));
                assert(spec_read_ifd(
                    file@,
                    info.endian,
                    info.big_tiff,
                    info.size as int,
                    next as nat,
                    (f - 1) as nat,
                ) == Ok::<Option<(Seq<IfdModel>, nat, nat)>, TiffError>(None));
            }
            f = f - 1;
            break;
        }
        let offset: usize = next as usize;
        proof {
            assert(offset as nat == next as nat);
        }
        let ghost before = ifd_list@;
        match read_ifd(file, info, offset, ifd_list, f - 1) {
            Err(e) => {
                proof {
                    assert(spec_read_ifd(
                        file@,
                        info.endian,
                        info.big_tiff,
                        info.size as int,
                        next as nat,
                        (f - 1) as nat,
                    ) == Err::<Option<(Seq<IfdModel>, nat, nat)>, TiffError>(e));
                    assert(spec_walk_chain(
                        file@,
                        info.endian,
                        info.big_tiff,
                        info.size as int,
                        next as nat,
                        f as nat,
                    ) == Err::<(Seq<IfdModel>, nat), TiffError>(e));
                }
                return Err(e);
            },
            Ok(None) => {
                proof {
                    assert(spec_read_ifd(
                        file@,
                        info.endian,
                        info.big_tiff,
                        info.size as int,
                        next as nat,
                        (f - 1) as nat,
                    ) == Ok::<Option<(Seq<IfdModel>, nat, nat)>, TiffError>(None));
                }
                f = f - 1;
                break;
            },
            Ok(Some((next2, rem))) => {
                proof {
                    let sr = spec_read_ifd(
                        file@,
                        info.endian,
                        info.big_tiff,
                        info.size as int,
                        next as nat,
                        (f - 1) as nat,
                    );
                    let (ms, sn, srem) = sr->Ok_0->Some_0;
                    assert(next2 as nat == sn);
                    assert(rem as nat == srem);
                    assert(cap_fuel(srem, (f - 1) as nat) == srem);
                    lemma_list_extended_trans(list0, before, ifd_list@, done, ms);
                    let tail = spec_walk_chain(
                        file@,
                        info.endian,
                        info.big_tiff,
                        info.size as int,
                        sn,
                        srem,
                    );
                    assert(compose_chain(done + ms, tail) == full) by {
                        match tail {
                            Ok((ms2, rem2)) => {
                                assert(done + (ms + ms2) =~= (done + ms) + ms2);
                            },
                            Err(_) => {},
                        }
                    }
                    done = done + ms;
                }
                next = next2;
                f = rem;
            },
        }
    }
    proof {
        assert(done + Seq::<IfdModel>::empty() =~= done);
        assert(full == Ok::<(Seq<IfdModel>, nat), TiffError>((done, f as nat)));
    }
    Ok(f)
}

/// Walk the chains that start at each offset the sub-directory tag lists, in
/// listed order, appending every directory found to `ifd_list`.  Returns the
/// fuel left; the walk mirrors `spec_walk_subs` exactly.
#[verifier::rlimit(100)]
fn walk_subs(file: &[u8], info: &Info, offsets: &Vec<u32>, ifd_list: &mut Vec<Ifd>, fuel: u64) -> (r:
    Result<u64, TiffError>)
    requires
        info.size == file@.len(),
    ensures
        ({
            let sr = spec_walk_subs(
                file@,
                info.endian,
                info.big_tiff,
                info.size as int,
                offsets@,
                0,
                fuel as nat,
            );
            match sr {
                Ok((ms, rem)) => r == Ok::<u64, TiffError>(rem as u64) && rem <= fuel as nat
                    && list_extended(old(ifd_list)@, final(ifd_list)@, ms),
                Err(e) => r == Err::<u64, TiffError>(e),
            }
        }),
    decreases fuel, 1int,
{
    let ghost full = spec_walk_subs(
        file@,
        info.endian,
        info.big_tiff,
        info.size as int,
        offsets@,
        0,
        fuel as nat,
    );
    let ghost list0 = ifd_list@;
    let ghost mut done: Seq<IfdModel> = Seq::empty();
    let mut f: u64 = fuel;
    let m = offsets.len();
    let mut j: usize = 0;
    proof {
        lemma_list_extended_refl(list0);
    }
    while j < m
        invariant
            j <= m,
            m == offsets@.len(),
            f <= fuel,
            info.size == file@.len(),
            old(ifd_list)@ == list0,
            full == spec_walk_subs(
                file@,
                info.endian,
                info.big_tiff,
                info.size as int,
                offsets@,
                0,
                fuel as nat,
            ),
            list_extended(list0, ifd_list@, done),
            compose_chain(
                done,
                spec_walk_subs(
                    file@,
                    info.endian,
                    info.big_tiff,
                    info.size as int,
                    offsets@,
                    j as nat,
                    f as nat,
                ),
            ) == full,
        decreases m - j,
    {
        let off_j = offsets[j];
        proof {
            assert((off_j as u64) as nat == offsets@[j as int] as nat);
        }
        let ghost before = ifd_list@;
        match walk_chain(file, info, off_j as u64, ifd_list, f) {
            Err(e) => {
                proof {
                    assert(spec_walk_chain(
                        file@,
                        info.endian,
                        info.big_tiff,
                        info.size as int,
                        offsets@[j as int] as nat,
                        f as nat,
                    ) == Err::<(Seq<IfdModel>, nat), TiffError>(e));
                    assert(spec_walk_subs(
                        file@,
                        info.endian,
                        info.big_tiff,
                        info.size as int,
                        offsets@,
                        j as nat,
                        f as nat,
                    ) == Err::<(Seq<IfdModel>, nat), TiffError>(e));
                }
                return Err(e);
            },
            Ok(rem) => {
                proof {
                    let cr = spec_walk_chain(
                        file@,
                        info.endian,
                        info.big_tiff,
                        info.size as int,
                        off_j as nat,
                        f as nat,
                    );
                    let (ms, crem) = cr->Ok_0;
                    assert(cap_fuel(crem, f as nat) == crem);
                    lemma_list_extended_trans(list0, before, ifd_list@, done, ms);
                    let tail = spec_walk_subs(
                        file@,
                        info.endian,
                        info.big_tiff,
                        info.size as int,
                        offsets@,
                        (j + 1) as nat,
                        crem,
                    );
                    assert(compose_chain(done + ms, tail) == full) by {
                        match tail {
                            Ok((ms2, rem2)) => {
                                assert(done + (ms + ms2) =~= (done + ms) + ms2);
                            },
                            Err(_) => {},
                        }
                    }
                    done = done + ms;
                }
                f = rem;
            },
        }
        j = j + 1;
    }
    proof {
        assert(done + Seq::<IfdModel>::empty() =~= done);
        assert(full == Ok::<(Seq<IfdModel>, nat), TiffError>((done, f as nat)));
    }
    Ok(f)
}

/// Resolve the value of every tag of a directory: read the bytes each tag
/// points at, decode them as the tag's declared type, and walk the
/// directories listed by the vendor-private sub-directory tag, appending
/// them to `ifd_list`.  Returns the remaining fuel.
#[verifier::rlimit(100)]
pub fn read_ifd_tag_data(
    file: &[u8],
    info: &Info,
    ifd: &mut Ifd,
    ifd_list: &mut Vec<Ifd>,
    fuel: u64,
) -> (r: Result<u64, TiffError>)
    requires
        info.size == file@.len(),
    ensures
        ({
            let sr = spec_resolve_tags(
                file@,
                info.endian,
                info.big_tiff,
                info.size as int,
                tag_models_of(old(ifd).tags@),
                0,
                fuel as nat,
            );
            match sr {
                Ok((tags1, subs, rem)) => {
                    &&& r == Ok::<u64, TiffError>(rem as u64)
                    &&& rem <= fuel as nat
                    &&& tag_models_of(final(ifd).tags@) == tags1
                    &&& final(ifd).endian == old(ifd).endian
                    &&& final(ifd).big_tiff == old(ifd).big_tiff
                    &&& final(ifd).offset == old(ifd).offset
                    &&& final(ifd).size == old(ifd).size
                    &&& final(ifd).tag_count == old(ifd).tag_count
                    &&& ifd_subifds_empty(*final(ifd))
                    &&& (tags_sorted(old(ifd).tags@) ==> tags_sorted(final(ifd).tags@))
                    &&& list_extended(old(ifd_list)@, final(ifd_list)@, subs)
                },
                Err(e) => r == Err::<u64, TiffError>(e),
            }
        }),
    decreases fuel, 2int,
{
    let endian = info.endian;
    let big = info.big_tiff;
    let ghost full = spec_resolve_tags(
        file@,
        endian,
        big,
        info.size as int,
        tag_models_of(ifd.tags@),
        0,
        fuel as nat,
    );
    let ghost tags_entry = ifd.tags@;
    let ghost list0 = ifd_list@;
    let ghost mut done_subs: Seq<IfdModel> = Seq::empty();
    let mut f: u64 = fuel;
    let n = ifd.tags.len();
    let mut i: usize = 0;
    proof {
        lemma_list_extended_refl(list0);
    }
    while i < n
        invariant
            i <= n,
            n == ifd.tags@.len(),
            n == tags_entry.len(),
            f <= fuel,
            info.size == file@.len(),
            ifd.endian == old(ifd).endian,
            ifd.big_tiff == old(ifd).big_tiff,
            ifd.offset == old(ifd).offset,
            ifd.size == old(ifd).size,
            ifd.tag_count == old(ifd).tag_count,
            old(ifd_list)@ == list0,
            old(ifd).tags@ == tags_entry,
            endian == info.endian,
            big == info.big_tiff,
            full == spec_resolve_tags(
                file@,
                endian,
                big,
                info.size as int,
                tag_models_of(tags_entry),
                0,
                fuel as nat,
            ),
            forall|j: int| i <= j < n ==> ifd.tags@[j] == tags_entry[j],
            forall|j: int| 0 <= j < n ==> #[trigger] ifd.tags@[j].0 == tags_entry[j].0,
            forall|j: int|
                0 <= j < i ==> match (#[trigger] ifd.tags@[j].1.ifds) {
                    Some(v) => v@.len() == 0,
                    None => true,
                },
            list_extended(list0, ifd_list@, done_subs),
            compose_resolve(
                done_subs,
                spec_resolve_tags(
                    file@,
                    endian,
                    big,
                    info.size as int,
                    tag_models_of(ifd.tags@),
                    i as nat,
                    f as nat,
                ),
            ) == full,
        decreases n - i,
    {
        let id = ifd.tags[i].0;
        let count = ifd.tags[i].1.count;
        let dtype = ifd.tags[i].1.datatype;
        let datapos = ifd.tags[i].1.datapos;
        let offset_opt = ifd.tags[i].1.offset;
        let pos = match offset_opt {
            Some(o) => o,
            None => datapos,
        };
        let esize = dtype.element_size_in_bytes();
        proof {
            assert((count as int) * (esize as int) <= (count as int) * 8) by (nonlinear_arith)
                requires
                    0 <= count as int,
                    0 <= esize as int,
                    esize as int <= 8,
            ;
        }
        let bc128 = (count as u128) * (esize as u128);
        let readable = bc128 <= (info.size as u128) && pos as u128 <= (info.size as u128) - bc128;
        let data = if readable {
            proof {
                assert((count as int) <= (count as int) * (esize as int)) by (nonlinear_arith)
                    requires
                        0 <= count as int,
                        1 <= esize as int,
                ;
            }
            let bc = (count as usize) * (esize as usize);
            let raw = slice_to_vec(slice_subrange(file, pos, pos + bc));
            Data::new(raw, dtype, endian, count)
        } else {
            Data::empty(dtype)
        };
        let ghost models_before = tag_models_of(ifd.tags@);
        let ghost m2 = spec_resolved_tag(
            file@,
            endian,
            info.size as int,
            id,
            models_before[i as int].1,
        );
        proof {
            assert(models_before[i as int].1 == tag_model(ifd.tags@[i as int].1));
            assert(data_model(data) == m2.data);
        }
        let ghost f_tag = f;
        let ghost subs_tag = done_subs;
        let mut new_ifds: Option<Vec<Ifd>> = None;
        if id == SUB_IFD_TAG {
            new_ifds = Some(Vec::new());
            if let Data::Long(offsets) = &data {
                let ghost before = ifd_list@;
                match walk_subs(file, info, offsets, ifd_list, f) {
                    Err(e) => {
                        proof {
                            assert(m2.data == DataModel::Long(offsets@));
                            assert(spec_walk_subs(
                                file@,
                                endian,
                                big,
                                info.size as int,
                                offsets@,
                                0,
                                f as nat,
                            ) == Err::<(Seq<IfdModel>, nat), TiffError>(e));
                            assert(spec_resolve_tags(
                                file@,
                                endian,
                                big,
                                info.size as int,
                                tag_models_of(ifd.tags@),
                                i as nat,
                                f as nat,
                            ) == Err::<(Seq<(u64, TagModel)>, Seq<IfdModel>, nat), TiffError>(e));
                            assert(full == Err::<(Seq<(u64, TagModel)>, Seq<IfdModel>, nat), TiffError>(e));
                        }
                        return Err(e);
                    },
                    Ok(rem) => {
                        proof {
                            let wr = spec_walk_subs(
                                file@,
                                endian,
                                big,
                                info.size as int,
                                offsets@,
                                0,
                                f as nat,
                            );
                            let (ms, wrem) = wr->Ok_0;
                            assert(rem as nat == wrem);
                            assert(m2.data == DataModel::Long(offsets@));
                            assert(spec_sub_result(
                                file@,
                                endian,
                                big,
                                info.size as int,
                                id,
                                m2,
                                f as nat,
                            ) == Ok::<(Seq<IfdModel>, nat), TiffError>((ms, wrem)));
                            lemma_list_extended_trans(list0, before, ifd_list@, done_subs, ms);
                            assert((done_subs + ms).skip(done_subs.len() as int) =~= ms);
                            done_subs = done_subs + ms;
                        }
                        f = rem;
                    },
                }
            }
        }
        let new_tag = Tag {
            count,
            data,
            datapos,
            datatype: dtype,
            ifds: new_ifds,
            offset: offset_opt,
        };
        proof {
            assert(tag_model(new_tag) == m2);
            assert(models_before[i as int].0 == id);
            let subs_i = done_subs.skip(subs_tag.len() as int);
            assert(subs_tag + subs_i =~= done_subs);
            let sub_r = spec_sub_result(file@, endian, big, info.size as int, id, m2, f_tag as nat);
            if done_subs.len() == subs_tag.len() {
                assert(subs_i =~= Seq::<IfdModel>::empty());
            }
            assert(sub_r == Ok::<(Seq<IfdModel>, nat), TiffError>((subs_i, f as nat)));
            let after = ifd.tags@.update(i as int, (id, new_tag));
            assert(tag_models_of(after) =~= tag_models_of(ifd.tags@).update(i as int, (id, m2)));
            assert(cap_fuel(f as nat, f_tag as nat) == f as nat);
            let rest = spec_resolve_tags(
                file@,
                endian,
                big,
                info.size as int,
                tag_models_of(after),
                (i + 1) as nat,
                f as nat,
            );
            assert(compose_resolve(done_subs, rest) == full) by {
                match rest {
                    Ok((t2, s2, r2)) => {
                        assert(subs_tag + (subs_i + s2) =~= done_subs + s2);
                    },
                    Err(_) => {},
                }
            }
        }
        ifd.tags.set(i, (id, new_tag));
        i = i + 1;
    }
    proof {
        assert(done_subs + Seq::<IfdModel>::empty() =~= done_subs);
        assert(full == Ok::<(Seq<(u64, TagModel)>, Seq<IfdModel>, nat), TiffError>(
            (tag_models_of(ifd.tags@), done_subs, f as nat),
        ));
        if tags_sorted(old(ifd).tags@) {
            assert forall|x: int, y: int|
                0 <= x < y < ifd.tags@.len() implies #[trigger] ifd.tags@[x].0
                < #[trigger] ifd.tags@[y].0 by {
                assert(ifd.tags@[x].0 == tags_entry[x].0);
                assert(ifd.tags@[y].0 == tags_entry[y].0);
                assert(old(ifd).tags@[x].0 < old(ifd).tags@[y].0);
            }
        }
    }
    Ok(f)
}

/// Read one directory at `ifd_offset` and append it, preceded by every
/// directory its sub-directory tag references, to `ifd_list`.  Returns the
/// trailing next-directory pointer and the remaining fuel, or `None` when
/// the directory lies outside the file and the chain ends.
#[verifier::rlimit(100)]
pub fn read_ifd(
    file: &[u8],
    info: &Info,
    ifd_offset: usize,
    ifd_list: &mut Vec<Ifd>,
    fuel: u64,
) -> (r: Result<Option<(u64, u64)>, TiffError>)
    requires
        info.size == file@.len(),
    ensures
        ({
            let sr = spec_read_ifd(
                file@,
                info.endian,
                info.big_tiff,
                info.size as int,
                ifd_offset as nat,
                fuel as nat,
            );
            match sr {
                Ok(None) => r == Ok::<Option<(u64, u64)>, TiffError>(None) && final(ifd_list)@
                    == old(ifd_list)@,
                Ok(Some((ms, next, rem))) => r == Ok::<Option<(u64, u64)>, TiffError>(
                    Some((next as u64, rem as u64)),
                ) && next <= 0xffff_ffff_ffff_ffff && rem <= fuel as nat && list_extended(
                    old(ifd_list)@,
                    final(ifd_list)@,
                    ms,
                ),
                Err(e) => r == Err::<Option<(u64, u64)>, TiffError>(e),
            }
        }),
    decreases fuel, 3int,
{
    let endian = info.endian;
    let big = info.big_tiff;
    let min_len: usize = if big {
        16
    } else {
        6
    };
    if !check_offset(info.size, ifd_offset, min_len) {
        return Ok(None);
    }
    let cw: usize = if big {
        8
    } else {
        2
    };
    let sw: usize = if big {
        8
    } else {
        4
    };
    let ew: usize = if big {
        20
    } else {
        12
    };
    let k = read_at(endian, file, ifd_offset, cw);
    proof {
        assert((k as int) * (ew as int) <= (k as int) * 20) by (nonlinear_arith)
            requires
                0 <= k as int,
                0 <= ew as int,
                ew as int <= 20,
        ;
    }
    let total_fits = (k as u128) * (ew as u128) + (cw as u128) + (sw as u128) <= (info.size
        as u128) - (ifd_offset as u128);
    if !total_fits {
        proof {
            assert(!spec_check_offset(
                info.size as int,
                ifd_offset as int,
                (count_field_width(big) + (k as nat) * entry_width(big) + slot_width(big)) as int,
            ));
        }
        return Ok(None);
    }
    proof {
        assert((k as int) <= (k as int) * (ew as int)) by (nonlinear_arith)
            requires
                0 <= k as int,
                1 <= ew as int,
        ;
    }
    assert(ifd_offset + cw + (k as int) * (ew as int) + sw <= info.size);
    let mut ifd = Ifd {
        endian,
        big_tiff: big,
        offset: ifd_offset,
        size: info.size,
        tag_count: k,
        tags: Vec::new(),
    };
    let ghost full_entries = spec_parse_entries(
        file@,
        endian,
        big,
        ifd_offset + cw as int,
        k as nat,
        0,
        Seq::empty(),
    );
    proof {
        assert(tag_models_of(ifd.tags@) =~= Seq::<(u64, TagModel)>::empty());
        assert(pow256(2) == 65536) by {
            reveal_with_fuel(pow256, 3);
        }
    }
    let mut i: u64 = 0;
    while i < k
        invariant
            i <= k,
            k <= info.size,
            info.size == file@.len(),
            ifd_offset + cw + (k as int) * (ew as int) + sw <= info.size,
            cw == count_field_width(big),
            sw == slot_width(big),
            ew == entry_width(big),
            endian == info.endian,
            big == info.big_tiff,
            pow256(2) == 65536,
            spec_check_offset(info.size as int, ifd_offset as int, dir_min_length(big) as int),
            k as nat == val_at(endian, file@, ifd_offset as int, count_field_width(big) as int),
            spec_check_offset(
                info.size as int,
                ifd_offset as int,
                (count_field_width(big) + (k as nat) * entry_width(big) + slot_width(big)) as int,
            ),
            full_entries == spec_parse_entries(
                file@,
                endian,
                big,
                ifd_offset + cw as int,
                k as nat,
                0,
                Seq::empty(),
            ),
            ifd.endian == endian,
            ifd.big_tiff == big,
            ifd.offset == ifd_offset,
            ifd.size == info.size,
            ifd.tag_count == k,
            ifd.tags@.len() <= i,
            tags_sorted(ifd.tags@),
            forall|j: int| 0 <= j < ifd.tags@.len() ==> (#[trigger] ifd.tags@[j].1.ifds) is None,
            spec_parse_entries(
                file@,
                endian,
                big,
                ifd_offset + cw as int,
                k as nat,
                i as nat,
                tag_models_of(ifd.tags@),
            ) == full_entries,
        decreases k - i,
    {
        proof {
            assert((i as int) * (ew as int) + (ew as int) <= (k as int) * (ew as int))
                by (nonlinear_arith)
                requires
                    0 <= i as int,
                    (i as int) < (k as int),
                    0 <= ew as int,
            ;
        }
        let entry_pos = ifd_offset + cw + (i as usize) * ew;
        let id = read_at(endian, file, entry_pos, 2);
        let type_raw = read_at(endian, file, entry_pos + 2, 2);
        let count = read_at(endian, file, entry_pos + 4, sw);
        let datapos = entry_pos + 4 + sw;
        let slot_val = read_at(endian, file, datapos, sw);
        let ghost entry = spec_parse_entry(file@, endian, big, entry_pos as int);
        let dt = match DataType::from_u16(type_raw as u16) {
            Some(d) => d,
            None => {
                proof {
                    assert(entry == Err::<(u64, TagModel), TiffError>(
                        TiffError::UnrecognizedDataType,
                    ));
                }
                return Err(TiffError::UnrecognizedDataType);
            },
        };
        let esize = dt.element_size_in_bytes();
        proof {
            assert((count as int) * (esize as int) <= (count as int) * 8) by (nonlinear_arith)
                requires
                    0 <= count as int,
                    0 <= esize as int,
                    esize as int <= 8,
            ;
        }
        let inline = (count as u128) * (esize as u128) <= sw as u128;
        let tag = Tag {
            count,
            data: Data::Byte(Vec::new()),
            datapos,
            datatype: dt,
            ifds: None,
            offset: if inline {
                None
            } else {
                Some(slot_val as usize)
            },
        };
        let ghost tags_before = ifd.tags@;
        proof {
            assert(data_model(tag.data) == DataModel::Byte(Seq::<u8>::empty()));
            assert(entry == Ok::<(u64, TagModel), TiffError>((id, tag_model(tag))));
            lemma_tag_models_insert(tags_before, id, tag);
            lemma_sorted_tag_insert_sorted(tags_before, id, tag);
            crate::tiff_types::lemma_tag_insert_index(tags_before, id);
        }
        ifd.insert_tag(id, tag);
        proof {
            let idx = crate::tiff_types::tag_insert_index(tags_before, id) as int;
            assert forall|j: int| 0 <= j < ifd.tags@.len() implies (
            #[trigger] ifd.tags@[j].1.ifds) is None by {
                if idx < tags_before.len() && tags_before[idx].0 == id {
                    if j != idx {
                        assert(ifd.tags@[j] == tags_before[j]);
                    }
                } else {
                    if j < idx {
                        assert(ifd.tags@[j] == tags_before[j]);
                    } else if j > idx {
                        assert(ifd.tags@[j] == tags_before[j - 1]);
                    }
                }
            }
        }
        i = i + 1;
    }
    let next = read_at(endian, file, ifd_offset + cw + (k as usize) * ew, sw);
    let ghost list0 = ifd_list@;
    let ghost tags_parsed = tag_models_of(ifd.tags@);
    match read_ifd_tag_data(file, info, &mut ifd, ifd_list, fuel) {
        Err(e) => Err(e),
        Ok(rem) => {
            proof {
                let rr = spec_resolve_tags(
                    file@,
                    endian,
                    big,
                    info.size as int,
                    tags_parsed,
                    0,
                    fuel as nat,
                );
                let (tags1, subs, srem) = rr->Ok_0;
                assert(ifd_model(ifd) == IfdModel {
                    endian,
                    big_tiff: big,
                    offset: ifd_offset as nat,
                    size: info.size as nat,
                    tag_count: k,
                    tags: tags1,
                });
                lemma_list_extended_push(list0, ifd_list@, subs, ifd);
            }
            ifd_list.push(ifd);
            Ok(Some((next, rem)))
        },
    }
}

/// Read the structure of a whole TIFF container: its header facts and the
/// flat, order-significant list of every directory in the file, including
/// the vendor-private nested ones, each appearing before the directory that
/// references it.
#[verifier::rlimit(100)]
pub fn read_tiff(file: &[u8]) -> (r: Result<(Info, Vec<Ifd>), TiffError>)
    ensures
        ({
            match (r, spec_read_tiff(file@)) {
                (Ok((info, ifds)), Ok((im, ims))) => {
                    &&& info_model(info) == im
                    &&& ifd_models_of(ifds@) == ims
                    &&& forall|k: int| 0 <= k < ifds@.len() ==> ifd_invariant(#[trigger] ifds@[k])
                },
                (Err(e1), Err(e2)) => e1 == e2,
                _ => false,
            }
        }),
{
    let file_size = file.len();
    if file_size < 4 {
        return Err(TiffError::InvalidHeader);
    }
    let h0 = file[0];
    let h1 = file[1];
    let h2 = file[2];
    let h3 = file[3];
    let ghost h = file@.take(4);
    proof {
        assert(h.len() == 4);
        assert(h[0] == h0 && h[1] == h1 && h[2] == h2 && h[3] == h3);
    }
    let magic_ok = (h0 == 0x49 && h1 == 0x49 && h2 == 0x2a && h3 == 0x00) || (h0 == 0x4d && h1
        == 0x4d && h2 == 0x00 && h3 == 0x2a) || (h0 == 0x49 && h1 == 0x49 && h2 == 0x2b && h3
        == 0x00) || (h0 == 0x4d && h1 == 0x4d && h2 == 0x00 && h3 == 0x2b);
    if !magic_ok {
        proof {
            assert(!valid_magic(h));
        }
        return Err(TiffError::InvalidHeader);
    }
    let endian = if h0 == 0x4d && h1 == 0x4d {
        Endian::Big
    } else {
        Endian::Little
    };
    let big_tiff = h2 == 0x2b || h3 == 0x2b;
    proof {
        assert(valid_magic(h));
        assert(endian == magic_endian(h));
        assert(big_tiff == magic_big_tiff(h));
    }
    let first_ifd: usize;
    if big_tiff {
        if file_size < 6 {
            return Err(TiffError::InvalidHeader);
        }
        let offset_size = read_at(endian, file, 4, 2);
        if offset_size != 8 {
            return Err(TiffError::UnsupportedOffsetSize);
        }
        if file_size < 12 {
            return Err(TiffError::InvalidHeader);
        }
        let first64 = read_at(endian, file, 8, 4);
        proof {
            assert(pow256(4) == 0x1_0000_0000) by {
                reveal_with_fuel(pow256, 5);
            }
        }
        first_ifd = first64 as usize;
    } else {
        if file_size < 8 {
            return Err(TiffError::InvalidHeader);
        }
        let first64 = read_at(endian, file, 4, 4);
        proof {
            assert(pow256(4) == 0x1_0000_0000) by {
                reveal_with_fuel(pow256, 5);
            }
        }
        first_ifd = first64 as usize;
    }
    let mut header: Vec<u8> = Vec::new();
    header.push(h0);
    header.push(h1);
    header.push(h2);
    header.push(h3);
    proof {
        assert(header@ =~= file@.take(4));
    }
    let info = Info { endian, big_tiff, first_ifd, header, size: file_size };
    let mut ifd_list: Vec<Ifd> = Vec::new();
    match walk_chain(file, &info, first_ifd as u64, &mut ifd_list, MAX_DIRECTORIES) {
        Err(e) => Err(e),
        Ok(_rem) => {
            proof {
                assert(ifd_list@.skip(0) =~= ifd_list@);
                assert(ifd_list@.take(0) =~= Seq::<Ifd>::empty());
            }
            Ok((info, ifd_list))
        },
    }
}

} // verus!
