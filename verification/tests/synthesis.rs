//! Tests of the sub-TIFF synthesizer: verbatim data copies with rewritten
//! offsets, and standalone output files that parse again.

use skora::endian_rw::Endian;
use skora::tiff::{copy_ifd, copy_tag_data, get_layers, read_tiff, TiffError};
use skora::tiff_types::Info;
use skora::tiff_types::{Data, DataType, Ifd, Tag};

fn le(v: u64, n: usize) -> Vec<u8> {
    let mut out = Vec::new();
    let mut x = v;
    for _ in 0..n {
        out.push((x % 256) as u8);
        x /= 256;
    }
    out
}

fn classic_le_file(entries: &[(u64, u16, u32, u32)], extra: &[u8]) -> Vec<u8> {
    let mut file = vec![0x49, 0x49, 0x2a, 0x00];
    file.extend_from_slice(&le(8, 4));
    file.extend_from_slice(&le(entries.len() as u64, 2));
    for &(id, dt, count, slot) in entries {
        file.extend_from_slice(&le(id, 2));
        file.extend_from_slice(&le(dt as u64, 2));
        file.extend_from_slice(&le(count as u64, 4));
        file.extend_from_slice(&le(slot as u64, 4));
    }
    file.extend_from_slice(&le(0, 4));
    file.extend_from_slice(extra);
    file
}

fn simple_tag(count: u64, data: Data, datatype: DataType) -> Tag {
    Tag { count, data, datapos: 0, datatype, ifds: None, offset: None }
}

#[test]
fn copy_tag_data_rewrites_offsets_contiguously() {
    // Two disjoint source ranges: the copy lays them out back to back at the
    // end of the output, and the returned offsets point at them in order.
    let mut source = vec![0u8; 30];
    source[8..11].copy_from_slice(&[1, 2, 3]);
    source[20..24].copy_from_slice(&[9, 8, 7, 6]);
    let mut image = vec![0xEEu8; 10];
    let dest = copy_tag_data(&mut image, &source, vec![8, 20], vec![3, 4], source.len());
    assert_eq!(dest, vec![10, 13]);
    assert_eq!(image.len(), 17);
    assert_eq!(&image[10..13], &[1, 2, 3]);
    assert_eq!(&image[13..17], &[9, 8, 7, 6]);
}

#[test]
fn copy_tag_data_skips_invalid_range_but_advances_offsets() {
    // The second range fails the offset validator: nothing is copied for it,
    // while the returned offsets still advance by its declared length.
    let source = vec![5u8; 20];
    let mut image = vec![0u8; 8];
    let dest = copy_tag_data(&mut image, &source, vec![10, 2], vec![4, 6], source.len());
    assert_eq!(dest, vec![8, 12]);
    assert_eq!(image.len(), 12);
    assert_eq!(&image[8..12], &[5, 5, 5, 5]);
}

#[test]
fn synthesized_inline_directory_reparses() {
    // A harvested directory whose tags are all inline: the synthesized file
    // parses on its own and yields the same identifiers, types and values.
    let file = classic_le_file(
        &[(256, 4, 1, 640), (257, 4, 1, 480), (700, 1, 4, 0x04030201)],
        &[],
    );
    let (_, ifds) = read_tiff(&file).unwrap();
    let layers = get_layers(ifds, &file).unwrap();
    assert_eq!(layers.len(), 1);
    let out = &layers[0];
    let (info2, ifds2) = read_tiff(out).unwrap();
    assert!(matches!(info2.endian, Endian::Little));
    assert!(!info2.big_tiff);
    assert_eq!(ifds2.len(), 1);
    let tags = &ifds2[0].tags;
    assert_eq!(tags.len(), 3);
    assert_eq!(tags[0].0, 256);
    assert_eq!(tags[0].1.data, Data::Long(vec![640]));
    assert_eq!(tags[1].0, 257);
    assert_eq!(tags[1].1.data, Data::Long(vec![480]));
    assert_eq!(tags[2].0, 700);
    assert_eq!(tags[2].1.data, Data::Byte(vec![1, 2, 3, 4]));
}

#[test]
fn synthesized_out_of_line_value_reparses() {
    // A text value wider than the inline slot moves out of line in the
    // synthesized file and still decodes to the same string.
    let text = b"layer name\0";
    let entries = [(305u64, 2u16, text.len() as u32, 26u32)];
    let file = classic_le_file(&entries, text);
    let (_, ifds) = read_tiff(&file).unwrap();
    let layers = get_layers(ifds, &file).unwrap();
    let (_, ifds2) = read_tiff(&layers[0]).unwrap();
    assert_eq!(ifds2[0].tags[0].1.data, Data::Ascii(String::from("layer name\u{0}")));
    assert_eq!(ifds2[0].tags[0].1.offset.is_some(), true);
}

#[test]
fn strip_pointers_rewritten_to_new_positions() {
    // A directory with a strip-offset/strip-byte-count pair referencing two
    // disjoint ranges: in the synthesized file the rewritten offsets point
    // at two contiguous regions whose bytes equal the original ranges in
    // order.
    let strip_a = [0xA1u8, 0xA2, 0xA3];
    let strip_b = [0xB1u8, 0xB2, 0xB3, 0xB4];
    // layout: header 8, directory 8..38 (2 + 2*12 + 4), byte-count values at
    // 38..46, strip one at 46, strip two at 49.
    let mut extra = Vec::new();
    extra.extend_from_slice(&le(3, 4));
    extra.extend_from_slice(&le(4, 4));
    extra.extend_from_slice(&strip_a);
    extra.extend_from_slice(&strip_b);
    let file = classic_le_file(
        &[(273, 4, 2, 0), (279, 4, 2, 38)],
        &extra,
    );
    // patch the strip offsets into the slot of tag 273 once positions are
    // known: slot of the first entry sits at 8 + 2 + 8 = 18.
    let mut file = file;
    assert_eq!(&file[38..42], &le(3, 4)[..]);
    let strips_slot = 18;
    // the two strips live at 46 and 49; count 2 of type Long is 8 bytes, so
    // the slot holds an offset to an offsets array.  Append that array and
    // point the slot at it.
    let arr_pos = file.len() as u64;
    file.extend_from_slice(&le(46, 4));
    file.extend_from_slice(&le(49, 4));
    let slot_bytes = le(arr_pos, 4);
    file[strips_slot..strips_slot + 4].copy_from_slice(&slot_bytes);
    assert_eq!(&file[46..49], &strip_a[..]);
    assert_eq!(&file[49..53], &strip_b[..]);

    let (_, ifds) = read_tiff(&file).unwrap();
    assert_eq!(ifds[0].tags[0].1.data, Data::Long(vec![46, 49]));
    let layers = get_layers(ifds, &file).unwrap();
    let out = &layers[0];
    let (_, ifds2) = read_tiff(out).unwrap();
    let offsets = match &ifds2[0].tags[0].1.data {
        Data::Long(v) => v.clone(),
        other => panic!("unexpected strip offsets: {:?}", other),
    };
    let counts = match &ifds2[0].tags[1].1.data {
        Data::Long(v) => v.clone(),
        other => panic!("unexpected strip byte counts: {:?}", other),
    };
    assert_eq!(counts, vec![3, 4]);
    assert_eq!(offsets.len(), 2);
    // contiguous, non-overlapping, in original order
    assert_eq!(offsets[1], offsets[0] + 3);
    let a0 = offsets[0] as usize;
    let b0 = offsets[1] as usize;
    assert_eq!(&out[a0..a0 + 3], &strip_a[..]);
    assert_eq!(&out[b0..b0 + 4], &strip_b[..]);
    // the rewritten type is the 32-bit unsigned type
    assert!(matches!(ifds2[0].tags[0].1.datatype, DataType::Long));
}

#[test]
fn missing_paired_tag_refuses_directory() {
    // A strip-offset tag without its byte-count partner.
    let ifd = Ifd {
        endian: Endian::Little,
        big_tiff: false,
        offset: 8,
        size: 64,
        tag_count: 1,
        tags: vec![(273, simple_tag(1, Data::Long(vec![8]), DataType::Long))],
    };
    let source = vec![0u8; 64];
    let r = get_layers(vec![ifd], &source);
    assert_eq!(r.unwrap_err(), TiffError::MissingPairedTag);
}

#[test]
fn wrongly_typed_paired_tag_refuses_directory() {
    let ifd = Ifd {
        endian: Endian::Little,
        big_tiff: false,
        offset: 8,
        size: 64,
        tag_count: 2,
        tags: vec![
            (273, simple_tag(1, Data::Long(vec![8]), DataType::Long)),
            (279, simple_tag(1, Data::Short(vec![4]), DataType::Short)),
        ],
    };
    let source = vec![0u8; 64];
    let r = get_layers(vec![ifd], &source);
    assert_eq!(r.unwrap_err(), TiffError::MissingPairedTag);
}

#[test]
fn oversized_copy_budget_is_refused() {
    // Declared byte counts whose sum cannot be addressed with 32-bit
    // offsets: the synthesis of the directory fails, copying nothing.
    let ifd = Ifd {
        endian: Endian::Little,
        big_tiff: false,
        offset: 8,
        size: 64,
        tag_count: 2,
        tags: vec![
            (273, simple_tag(2, Data::Long(vec![8, 16]), DataType::Long)),
            (279, simple_tag(2, Data::Long(vec![0xFFFF_FFFF, 0xFFFF_FFFF]), DataType::Long)),
        ],
    };
    let source = vec![0u8; 64];
    let r = get_layers(vec![ifd], &source);
    assert_eq!(r.unwrap_err(), TiffError::OutOfBounds);
}

#[test]
fn copy_ifd_writes_directory_pointer() {
    // The placeholder pointer in the fresh header is overwritten with the
    // position where the directory record begins.
    let file = classic_le_file(&[(256, 4, 1, 42)], &[]);
    let (_, mut ifds) = read_tiff(&file).unwrap();
    let ifd = ifds.remove(0);
    let mut image = vec![0x49, 0x49, 0x2a, 0x00, 0, 0, 0, 0];
    copy_ifd(&mut image, ifd, 4, &file).unwrap();
    // pointer at 4 names the directory position: the header is 8 bytes and
    // nothing was copied out of line, so the directory starts at 8.
    assert_eq!(&image[4..8], &le(8, 4)[..]);
    // entry count one, then the entry, then the zero next pointer
    assert_eq!(&image[8..10], &le(1, 2)[..]);
    assert_eq!(image.len(), 8 + 2 + 12 + 4);
    assert_eq!(&image[image.len() - 4..], &le(0, 4)[..]);
}

#[test]
fn get_layers_one_output_per_directory() {
    let mut file = vec![0x49, 0x49, 0x2a, 0x00];
    file.extend_from_slice(&le(8, 4));
    // directory at 8, next pointer 26
    file.extend_from_slice(&le(1, 2));
    file.extend_from_slice(&le(256, 2));
    file.extend_from_slice(&le(4, 2));
    file.extend_from_slice(&le(1, 4));
    file.extend_from_slice(&le(7, 4));
    file.extend_from_slice(&le(26, 4));
    // directory at 26, next pointer 0
    file.extend_from_slice(&le(1, 2));
    file.extend_from_slice(&le(256, 2));
    file.extend_from_slice(&le(4, 2));
    file.extend_from_slice(&le(1, 4));
    file.extend_from_slice(&le(8, 4));
    file.extend_from_slice(&le(0, 4));
    let (_, ifds) = read_tiff(&file).unwrap();
    let layers = get_layers(ifds, &file).unwrap();
    assert_eq!(layers.len(), 2);
    let (_, a) = read_tiff(&layers[0]).unwrap();
    let (_, b) = read_tiff(&layers[1]).unwrap();
    assert_eq!(a[0].tags[0].1.data, Data::Long(vec![7]));
    assert_eq!(b[0].tags[0].1.data, Data::Long(vec![8]));
}

#[test]
fn extended_layout_synthesis_emits_wide_fields() {
    // A big-endian extended source: the synthesized file gets the extended
    // header with offset size 8, an 8-byte entry count and 8-byte value
    // slots, with inline values left-justified in the slot.
    fn be(v: u64, n: usize) -> Vec<u8> {
        let mut out = le(v, n);
        out.reverse();
        out
    }
    let mut file = vec![0x4d, 0x4d, 0x00, 0x2b, 0, 8, 0, 0];
    file.extend_from_slice(&be(16, 4));
    file.extend_from_slice(&be(0, 4));
    file.extend_from_slice(&be(1, 8));
    file.extend_from_slice(&be(257, 2));
    file.extend_from_slice(&be(4, 2));
    file.extend_from_slice(&be(1, 8));
    file.extend_from_slice(&be(99, 4));
    file.extend_from_slice(&be(0, 4));
    file.extend_from_slice(&be(0, 8));
    let (info, ifds) = read_tiff(&file).unwrap();
    assert!(info.big_tiff);
    assert!(matches!(info.endian, Endian::Big));
    assert_eq!(ifds.len(), 1);
    assert_eq!(ifds[0].tags[0].1.data, Data::Long(vec![99]));

    let layers = get_layers(ifds, &file).unwrap();
    let out = &layers[0];
    // extended header: magic, version 43, offset size 8, reserved, pointer
    assert_eq!(&out[0..4], &[0x4d, 0x4d, 0x00, 0x2b]);
    assert_eq!(&out[4..6], &be(8, 2)[..]);
    assert_eq!(&out[6..8], &be(0, 2)[..]);
    assert_eq!(&out[8..16], &be(16, 8)[..]);
    // directory: 8-byte entry count, one entry, 8-byte zero next pointer
    assert_eq!(&out[16..24], &be(1, 8)[..]);
    assert_eq!(&out[24..26], &be(257, 2)[..]);
    assert_eq!(&out[26..28], &be(4, 2)[..]);
    assert_eq!(&out[28..36], &be(1, 8)[..]);
    assert_eq!(&out[36..40], &be(99, 4)[..]);
    assert_eq!(&out[40..44], &be(0, 4)[..]);
    assert_eq!(&out[44..52], &be(0, 8)[..]);
    assert_eq!(out.len(), 52);
}

fn be(v: u64, n: usize) -> Vec<u8> {
    let mut out = le(v, n);
    out.reverse();
    out
}

#[test]
fn classic_big_endian_synthesis_reparses() {
    // The synthesized header carries the magic pair of the directory's byte
    // order: a big-endian classic directory yields `MM 00 2A`, and the
    // output is independently decodable.
    let mut file = vec![0x4d, 0x4d, 0x00, 0x2a];
    file.extend_from_slice(&be(8, 4));
    file.extend_from_slice(&be(1, 2));
    file.extend_from_slice(&be(256, 2));
    file.extend_from_slice(&be(4, 2));
    file.extend_from_slice(&be(1, 4));
    file.extend_from_slice(&be(77, 4));
    file.extend_from_slice(&be(0, 4));
    let (info, ifds) = read_tiff(&file).unwrap();
    assert!(matches!(info.endian, Endian::Big));
    assert_eq!(ifds[0].tags[0].1.data, Data::Long(vec![77]));

    let layers = get_layers(ifds, &file).unwrap();
    let out = &layers[0];
    assert_eq!(&out[0..4], &[0x4d, 0x4d, 0x00, 0x2a]);
    let (info2, ifds2) = read_tiff(out).unwrap();
    assert!(matches!(info2.endian, Endian::Big));
    assert!(!info2.big_tiff);
    assert_eq!(ifds2.len(), 1);
    assert_eq!(ifds2[0].tags[0].0, 256);
    assert_eq!(ifds2[0].tags[0].1.data, Data::Long(vec![77]));
}

#[test]
fn extended_little_endian_synthesis_reparses() {
    // A little-endian extended directory yields `II 2B 00` with offset size
    // 8, and the output is independently decodable.
    let mut file = vec![0x49, 0x49, 0x2b, 0x00, 8, 0, 0, 0];
    file.extend_from_slice(&le(16, 4));
    file.extend_from_slice(&le(0, 4));
    file.extend_from_slice(&le(1, 8));
    file.extend_from_slice(&le(257, 2));
    file.extend_from_slice(&le(4, 2));
    file.extend_from_slice(&le(1, 8));
    file.extend_from_slice(&le(99, 4));
    file.extend_from_slice(&le(0, 4));
    file.extend_from_slice(&le(0, 8));
    let (info, ifds) = read_tiff(&file).unwrap();
    assert!(info.big_tiff);
    assert!(matches!(info.endian, Endian::Little));
    assert_eq!(ifds[0].tags[0].1.data, Data::Long(vec![99]));

    let layers = get_layers(ifds, &file).unwrap();
    let out = &layers[0];
    assert_eq!(&out[0..4], &[0x49, 0x49, 0x2b, 0x00]);
    assert_eq!(&out[4..6], &le(8, 2)[..]);
    let (info2, ifds2) = read_tiff(out).unwrap();
    assert!(info2.big_tiff);
    assert!(matches!(info2.endian, Endian::Little));
    assert_eq!(ifds2.len(), 1);
    assert_eq!(ifds2[0].tags[0].0, 257);
    assert_eq!(ifds2[0].tags[0].1.data, Data::Long(vec![99]));
}

#[test]
fn duplicated_directory_synthesizes_identically() {
    // A duplicate of a decoded directory is an independent, equal copy: the
    // synthesizer produces the same bytes from it, while the caller keeps
    // the original for inspection.
    let file = classic_le_file(&[(256, 4, 1, 640), (305, 2, 4, 0x00414241)], &[]);
    let (info, ifds) = read_tiff(&file).unwrap();
    let copies: Vec<Ifd> = ifds.iter().map(|ifd| ifd.duplicate()).collect();
    let _keep: &Info = &info;
    let from_copies = get_layers(copies, &file).unwrap();
    let from_originals = get_layers(ifds, &file).unwrap();
    assert_eq!(from_copies, from_originals);
}
