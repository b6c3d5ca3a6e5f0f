//! Tests of the endian codec, the typed tag values and the structural
//! decoder, on hand-built classic and extended files.

use skora::endian_rw::{order_read, order_write_16, order_write_32, order_write_64, order_write_8, Endian};
use skora::tiff::{check_offset, read_ifd, read_ifd_tag_data, read_tiff, TiffError, MAX_DIRECTORIES, SUB_IFD_TAG};
use skora::tiff_types::{Data, DataType, Ifd, Info, Tag};

fn le(v: u64, n: usize) -> Vec<u8> {
    let mut out = Vec::new();
    let mut x = v;
    for _ in 0..n {
        out.push((x % 256) as u8);
        x /= 256;
    }
    out
}

#[test]
fn order_read_big_endian() {
    let buf = [0x12u8, 0x34, 0x56, 0x78];
    assert_eq!(order_read(Endian::Big, &buf, 4), 0x12345678);
    assert_eq!(order_read(Endian::Big, &buf, 2), 0x1234);
    assert_eq!(order_read(Endian::Big, &buf, 1), 0x12);
}

#[test]
fn order_read_little_endian() {
    let buf = [0x12u8, 0x34, 0x56, 0x78];
    assert_eq!(order_read(Endian::Little, &buf, 4), 0x78563412);
    assert_eq!(order_read(Endian::Little, &buf, 2), 0x3412);
    assert_eq!(order_read(Endian::Little, &buf, 1), 0x12);
}

#[test]
fn order_write_roundtrip() {
    for endian in [Endian::Big, Endian::Little] {
        let mut buf: Vec<u8> = Vec::new();
        order_write_8(endian, &mut buf, 0xAB);
        assert_eq!(buf, vec![0xAB]);
        let mut buf16: Vec<u8> = Vec::new();
        order_write_16(endian, &mut buf16, 0xBEEF);
        assert_eq!(order_read(endian, &buf16, 2), 0xBEEF);
        let mut buf32: Vec<u8> = Vec::new();
        order_write_32(endian, &mut buf32, 0xDEADBEEF);
        assert_eq!(order_read(endian, &buf32, 4), 0xDEADBEEF);
        let mut buf64: Vec<u8> = Vec::new();
        order_write_64(endian, &mut buf64, 0x0123456789ABCDEF);
        assert_eq!(order_read(endian, &buf64, 8), 0x0123456789ABCDEF);
    }
}

#[test]
fn order_write_16_byte_order() {
    let mut big: Vec<u8> = Vec::new();
    order_write_16(Endian::Big, &mut big, 0x1234);
    assert_eq!(big, vec![0x12, 0x34]);
    let mut little: Vec<u8> = Vec::new();
    order_write_16(Endian::Little, &mut little, 0x1234);
    assert_eq!(little, vec![0x34, 0x12]);
}

#[test]
fn data_roundtrip_byte() {
    let d = Data::Byte(vec![0, 1, 254, 255]);
    let bytes = d.to_vec_u8(Endian::Little);
    assert_eq!(Data::new(bytes, DataType::Byte, Endian::Little, 4), d);
}

#[test]
fn data_roundtrip_ascii_with_nul() {
    let d = Data::Ascii(String::from("layer one\u{0}"));
    let bytes = d.to_vec_u8(Endian::Big);
    let count = bytes.len() as u64;
    assert_eq!(Data::new(bytes, DataType::Ascii, Endian::Big, count), d);
}

#[test]
fn data_roundtrip_ascii_without_nul() {
    let d = Data::Ascii(String::from("plain"));
    let bytes = d.to_vec_u8(Endian::Little);
    let count = bytes.len() as u64;
    assert_eq!(Data::new(bytes, DataType::Ascii, Endian::Little, count), d);
}

#[test]
fn data_ascii_lossy_replacement() {
    let d = Data::new(vec![0xFF], DataType::Ascii, Endian::Little, 1);
    assert_eq!(d, Data::Ascii(String::from("\u{FFFD}")));
}

#[test]
fn data_roundtrip_short() {
    for endian in [Endian::Big, Endian::Little] {
        let d = Data::Short(vec![0, 1, 0x1234, 0xFFFF]);
        let bytes = d.to_vec_u8(endian);
        assert_eq!(bytes.len(), 8);
        assert_eq!(Data::new(bytes, DataType::Short, endian, 4), d);
    }
}

#[test]
fn data_roundtrip_long() {
    for endian in [Endian::Big, Endian::Little] {
        let d = Data::Long(vec![42, 0xFFFF_FFFF, 7]);
        let bytes = d.to_vec_u8(endian);
        assert_eq!(bytes.len(), 12);
        assert_eq!(Data::new(bytes, DataType::Long, endian, 3), d);
    }
}

#[test]
fn data_roundtrip_rational() {
    for endian in [Endian::Big, Endian::Little] {
        let d = Data::Rational(vec![(1, 2), (300, 7)]);
        let bytes = d.to_vec_u8(endian);
        assert_eq!(bytes.len(), 16);
        assert_eq!(Data::new(bytes, DataType::Rational, endian, 2), d);
    }
}

#[test]
fn data_type_identifiers() {
    assert_eq!(DataType::from_u16(1), Some(DataType::Byte));
    assert_eq!(DataType::from_u16(2), Some(DataType::Ascii));
    assert_eq!(DataType::from_u16(3), Some(DataType::Short));
    assert_eq!(DataType::from_u16(4), Some(DataType::Long));
    assert_eq!(DataType::from_u16(5), Some(DataType::Rational));
    assert_eq!(DataType::from_u16(0), None);
    assert_eq!(DataType::from_u16(9), None);
    let d = Data::Rational(Vec::new());
    assert_eq!(d.type_tiff_id(), 5);
    assert_eq!(d.element_size_in_bytes(), 8);
    assert_eq!(Data::Short(Vec::new()).element_size_in_bytes(), 2);
}

#[test]
fn check_offset_bounds() {
    assert!(!check_offset(100, 7, 0));
    assert!(!check_offset(100, 0, 10));
    assert!(check_offset(100, 8, 92));
    assert!(!check_offset(100, 8, 93));
    assert!(check_offset(100, 100, 0));
    assert!(!check_offset(100, 101, 0));
    assert!(!check_offset(0, 0, 0));
    assert!(check_offset(8, 8, 0));
}

#[test]
fn header_recognition_classic_little() {
    let mut file = vec![0x49, 0x49, 0x2a, 0x00];
    file.extend_from_slice(&le(0, 4));
    let (info, ifds) = read_tiff(&file).unwrap();
    assert!(matches!(info.endian, Endian::Little));
    assert!(!info.big_tiff);
    assert_eq!(info.first_ifd, 0);
    assert_eq!(info.size, 8);
    assert_eq!(info.header, vec![0x49, 0x49, 0x2a, 0x00]);
    assert!(ifds.is_empty());
}

#[test]
fn header_recognition_classic_big() {
    let file = vec![0x4d, 0x4d, 0x00, 0x2a, 0, 0, 0, 0];
    let (info, ifds) = read_tiff(&file).unwrap();
    assert!(matches!(info.endian, Endian::Big));
    assert!(!info.big_tiff);
    assert!(ifds.is_empty());
}

#[test]
fn header_recognition_extended_little() {
    let file = vec![0x49, 0x49, 0x2b, 0x00, 8, 0, 0, 0, 0, 0, 0, 0];
    let (info, ifds) = read_tiff(&file).unwrap();
    assert!(matches!(info.endian, Endian::Little));
    assert!(info.big_tiff);
    assert_eq!(info.first_ifd, 0);
    assert!(ifds.is_empty());
}

#[test]
fn header_recognition_extended_big() {
    let file = vec![0x4d, 0x4d, 0x00, 0x2b, 0, 8, 0, 0, 0, 0, 0, 0];
    let (info, ifds) = read_tiff(&file).unwrap();
    assert!(matches!(info.endian, Endian::Big));
    assert!(info.big_tiff);
    assert!(ifds.is_empty());
}

#[test]
fn header_rejects_other_magic() {
    assert!(matches!(read_tiff(&[0, 1, 2, 3, 4, 5, 6, 7]), Err(TiffError::InvalidHeader)));
    assert!(matches!(read_tiff(&[0x49, 0x49, 0x2a, 0x01, 0, 0, 0, 0]), Err(TiffError::InvalidHeader)));
    assert!(matches!(read_tiff(&[0x4d, 0x49, 0x00, 0x2a, 0, 0, 0, 0]), Err(TiffError::InvalidHeader)));
    assert!(matches!(read_tiff(&[]), Err(TiffError::InvalidHeader)));
    assert!(matches!(read_tiff(&[0x49, 0x49]), Err(TiffError::InvalidHeader)));
}

#[test]
fn header_rejects_wrong_offset_size() {
    let file = vec![0x49, 0x49, 0x2b, 0x00, 4, 0, 0, 0, 0, 0, 0, 0];
    assert!(matches!(read_tiff(&file), Err(TiffError::UnsupportedOffsetSize)));
}

/// Build a classic little-endian file with one directory at offset 8 holding
/// the given raw entries, then the trailing zero next-pointer, then `extra`
/// bytes.
fn classic_le_file(entries: &[(u64, u16, u32, u32)], extra: &[u8]) -> Vec<u8> {
    let mut file = vec![0x49, 0x49, 0x2a, 0x00];
    file.extend_from_slice(&le(8, 4));
    file.extend_from_slice(&le(entries.len() as u64, 2));
    for &(id, dt, count, slot) in entries {
        file.extend_from_slice(&le(id, 2));
        file.extend_from_slice(&le(dt as u64, 2));
        file.extend_from_slice(&le(count as u64, 4));
        file.extend_from_slice(&le(slot as u64, 4));
    }
    file.extend_from_slice(&le(0, 4));
    file.extend_from_slice(extra);
    file
}

#[test]
fn end_to_end_minimal_long_tag() {
    // Header 49 49 2A 00, first directory at 8, one inline Long tag with
    // identifier 256 and value 42, next-directory pointer zero.
    let file = classic_le_file(&[(256, 4, 1, 42)], &[]);
    let (info, ifds) = read_tiff(&file).unwrap();
    assert!(matches!(info.endian, Endian::Little));
    assert!(!info.big_tiff);
    assert_eq!(info.first_ifd, 8);
    assert_eq!(info.size, file.len());
    assert_eq!(ifds.len(), 1);
    let ifd = &ifds[0];
    assert_eq!(ifd.offset, 8);
    assert_eq!(ifd.tag_count, 1);
    assert_eq!(ifd.tags.len(), 1);
    assert_eq!(ifd.tags[0].0, 256);
    let tag = &ifd.tags[0].1;
    assert_eq!(tag.count, 1);
    assert!(matches!(tag.datatype, DataType::Long));
    assert_eq!(tag.offset, None);
    assert_eq!(tag.data, Data::Long(vec![42]));
    assert!(tag.ifds.is_none());
}

#[test]
fn inline_boundary_exact_fit() {
    // count times element size equal to the 4-byte classic slot: inline.
    let file = classic_le_file(&[(700, 1, 4, 0x04030201)], &[]);
    let (_, ifds) = read_tiff(&file).unwrap();
    let tag = &ifds[0].tags[0].1;
    assert_eq!(tag.offset, None);
    assert_eq!(tag.data, Data::Byte(vec![1, 2, 3, 4]));
}

#[test]
fn inline_boundary_one_byte_larger() {
    // One byte more than the slot: the slot holds an offset instead.
    // The five value bytes sit right after the directory, at offset 26.
    let file = classic_le_file(&[(700, 1, 5, 26)], &[9, 8, 7, 6, 5]);
    let (_, ifds) = read_tiff(&file).unwrap();
    let tag = &ifds[0].tags[0].1;
    assert_eq!(tag.offset, Some(26));
    assert_eq!(tag.datapos, 8 + 2 + 8);
    assert_eq!(tag.data, Data::Byte(vec![9, 8, 7, 6, 5]));
}

#[test]
fn out_of_range_span_leaves_empty_data() {
    // The tag points far outside the file: its value decodes as empty and
    // the rest of the directory still parses.
    let file = classic_le_file(&[(700, 1, 5, 4000), (701, 4, 1, 11)], &[]);
    let (_, ifds) = read_tiff(&file).unwrap();
    assert_eq!(ifds[0].tags.len(), 2);
    assert_eq!(ifds[0].tags[0].1.data, Data::Byte(Vec::new()));
    assert_eq!(ifds[0].tags[1].1.data, Data::Long(vec![11]));
}

#[test]
fn unrecognized_data_type_is_fatal() {
    let file = classic_le_file(&[(256, 9, 1, 42)], &[]);
    assert!(matches!(read_tiff(&file), Err(TiffError::UnrecognizedDataType)));
}

#[test]
fn duplicate_tag_keeps_last() {
    // The same identifier twice: the entry read last wins, and the declared
    // count stays two, which surfaces the anomaly.
    let file = classic_le_file(&[(256, 4, 1, 1), (256, 4, 1, 2)], &[]);
    let (_, ifds) = read_tiff(&file).unwrap();
    assert_eq!(ifds[0].tag_count, 2);
    assert_eq!(ifds[0].tags.len(), 1);
    assert_eq!(ifds[0].tags[0].1.data, Data::Long(vec![2]));
}

#[test]
fn tags_iterate_in_ascending_order() {
    let file = classic_le_file(&[(500, 4, 1, 5), (3, 4, 1, 1), (259, 4, 1, 2)], &[]);
    let (_, ifds) = read_tiff(&file).unwrap();
    let ids: Vec<u64> = ifds[0].tags.iter().map(|p| p.0).collect();
    assert_eq!(ids, vec![3, 259, 500]);
    assert!(ifds[0].get_tag(259).is_some());
    assert!(ifds[0].contains_tag(500));
    assert!(!ifds[0].contains_tag(4));
    assert_eq!(ifds[0].get_tag(3).unwrap().data, Data::Long(vec![1]));
}

#[test]
fn nested_directories_come_before_their_parent() {
    // One top-level directory whose private sub-directory tag lists two
    // nested directories; the flat list holds the nested ones first, in the
    // order their offsets were listed.
    let mut file = vec![0x49, 0x49, 0x2a, 0x00];
    file.extend_from_slice(&le(8, 4));
    // top directory at 8: one entry, tag 330, type Long, count 2, offset 26
    file.extend_from_slice(&le(1, 2));
    file.extend_from_slice(&le(330, 2));
    file.extend_from_slice(&le(4, 2));
    file.extend_from_slice(&le(2, 4));
    file.extend_from_slice(&le(26, 4));
    file.extend_from_slice(&le(0, 4));
    // the two sub-directory offsets at 26
    file.extend_from_slice(&le(34, 4));
    file.extend_from_slice(&le(52, 4));
    // sub-directory one at 34: inline Long tag 256 = 1
    file.extend_from_slice(&le(1, 2));
    file.extend_from_slice(&le(256, 2));
    file.extend_from_slice(&le(4, 2));
    file.extend_from_slice(&le(1, 4));
    file.extend_from_slice(&le(1, 4));
    file.extend_from_slice(&le(0, 4));
    // sub-directory two at 52: inline Long tag 256 = 2
    file.extend_from_slice(&le(1, 2));
    file.extend_from_slice(&le(256, 2));
    file.extend_from_slice(&le(4, 2));
    file.extend_from_slice(&le(1, 4));
    file.extend_from_slice(&le(2, 4));
    file.extend_from_slice(&le(0, 4));
    assert_eq!(file.len(), 70);

    let (_, ifds) = read_tiff(&file).unwrap();
    assert_eq!(ifds.len(), 3);
    assert_eq!(ifds[0].offset, 34);
    assert_eq!(ifds[0].tags[0].1.data, Data::Long(vec![1]));
    assert_eq!(ifds[1].offset, 52);
    assert_eq!(ifds[1].tags[0].1.data, Data::Long(vec![2]));
    assert_eq!(ifds[2].offset, 8);
    let top = &ifds[2].tags[0].1;
    assert_eq!(top.data, Data::Long(vec![34, 52]));
    assert_eq!(top.ifds.as_ref().map(|v| v.len()), Some(0));
}

#[test]
fn chained_directories_in_chain_order() {
    // Two directories linked by the next pointer parse in chain order.
    let mut file = vec![0x49, 0x49, 0x2a, 0x00];
    file.extend_from_slice(&le(8, 4));
    // directory at 8, next pointer 26
    file.extend_from_slice(&le(1, 2));
    file.extend_from_slice(&le(256, 2));
    file.extend_from_slice(&le(4, 2));
    file.extend_from_slice(&le(1, 4));
    file.extend_from_slice(&le(7, 4));
    file.extend_from_slice(&le(26, 4));
    // directory at 26, next pointer 0
    file.extend_from_slice(&le(1, 2));
    file.extend_from_slice(&le(256, 2));
    file.extend_from_slice(&le(4, 2));
    file.extend_from_slice(&le(1, 4));
    file.extend_from_slice(&le(8, 4));
    file.extend_from_slice(&le(0, 4));
    let (_, ifds) = read_tiff(&file).unwrap();
    assert_eq!(ifds.len(), 2);
    assert_eq!(ifds[0].offset, 8);
    assert_eq!(ifds[1].offset, 26);
}

#[test]
fn directory_outside_file_ends_chain() {
    // The first-directory pointer leaves the file: the chain is treated as
    // ended, not as a failure.
    let mut file = vec![0x49, 0x49, 0x2a, 0x00];
    file.extend_from_slice(&le(1000, 4));
    let (info, ifds) = read_tiff(&file).unwrap();
    assert_eq!(info.first_ifd, 1000);
    assert!(ifds.is_empty());
}

#[test]
fn pointer_cycle_is_bounded() {
    // A directory whose next pointer loops back to itself: walking stops at
    // the directory ceiling instead of spinning forever.
    let file = classic_le_file(&[(256, 4, 1, 1)], &[]);
    let mut looped = file.clone();
    // rewrite the trailing next pointer (last 4 bytes of the directory) to 8
    let next_pos = 8 + 2 + 12;
    looped[next_pos..next_pos + 4].copy_from_slice(&le(8, 4));
    let (_, ifds) = read_tiff(&looped).unwrap();
    assert_eq!(ifds.len() as u64, MAX_DIRECTORIES);
    assert_eq!(SUB_IFD_TAG, 330);
}

#[test]
fn info_and_ifd_fields_thread_through() {
    let file = classic_le_file(&[(256, 4, 1, 42)], &[]);
    let (info, ifds) = read_tiff(&file).unwrap();
    let _copy = Info {
        endian: info.endian,
        big_tiff: info.big_tiff,
        first_ifd: info.first_ifd,
        header: info.header.clone(),
        size: info.size,
    };
    assert_eq!(ifds[0].size, info.size);
    assert_eq!(ifds[0].big_tiff, info.big_tiff);
}

#[test]
fn extended_layout_parses_wide_fields() {
    // An extended (big) file: 8-byte counts and value slots.
    let mut file = vec![0x49, 0x49, 0x2b, 0x00, 8, 0, 0, 0];
    file.extend_from_slice(&le(16, 4));
    file.extend_from_slice(&le(0, 4));
    // directory at 16: one entry, inline Long tag
    file.extend_from_slice(&le(1, 8));
    file.extend_from_slice(&le(257, 2));
    file.extend_from_slice(&le(4, 2));
    file.extend_from_slice(&le(2, 8));
    file.extend_from_slice(&le(42 + (7 << 32), 8));
    file.extend_from_slice(&le(0, 8));
    let (info, ifds) = read_tiff(&file).unwrap();
    assert!(info.big_tiff);
    assert_eq!(ifds.len(), 1);
    let tag = &ifds[0].tags[0].1;
    assert_eq!(tag.count, 2);
    assert_eq!(tag.offset, None);
    assert_eq!(tag.data, Data::Long(vec![42, 7]));
    let _ = Tag {
        count: tag.count,
        data: Data::Long(vec![42, 7]),
        datapos: tag.datapos,
        datatype: tag.datatype,
        ifds: None,
        offset: None,
    };
    let _ = Ifd {
        endian: Endian::Little,
        big_tiff: true,
        offset: 16,
        size: file.len(),
        tag_count: 1,
        tags: Vec::new(),
    };
}

#[test]
fn read_ifd_directly_returns_next_pointer() {
    let file = classic_le_file(&[(256, 4, 1, 42)], &[]);
    let (info, _) = read_tiff(&file).unwrap();
    let mut list: Vec<Ifd> = Vec::new();
    let r = read_ifd(&file, &info, 8, &mut list, 64).unwrap();
    let (next, fuel_left) = r.unwrap();
    assert_eq!(next, 0);
    assert_eq!(fuel_left, 64);
    assert_eq!(list.len(), 1);
    assert_eq!(list[0].tags[0].1.data, Data::Long(vec![42]));
    // a directory outside the file ends the chain instead of failing
    let mut list2: Vec<Ifd> = Vec::new();
    let r2 = read_ifd(&file, &info, 4000, &mut list2, 64).unwrap();
    assert!(r2.is_none());
    assert!(list2.is_empty());
}

#[test]
fn read_ifd_tag_data_resolves_in_place() {
    let file = classic_le_file(&[(700, 1, 5, 26)], &[9, 8, 7, 6, 5]);
    let (info, mut ifds) = read_tiff(&file).unwrap();
    let mut ifd = ifds.remove(0);
    // resolving again is harmless: the same bytes decode to the same value
    let mut list: Vec<Ifd> = Vec::new();
    let fuel_left = read_ifd_tag_data(&file, &info, &mut ifd, &mut list, 16).unwrap();
    assert_eq!(fuel_left, 16);
    assert!(list.is_empty());
    assert_eq!(ifd.tags[0].1.data, Data::Byte(vec![9, 8, 7, 6, 5]));
}

#[test]
fn zero_count_tag_decodes_empty() {
    let file = classic_le_file(&[(258, 3, 0, 0)], &[]);
    let (_, ifds) = read_tiff(&file).unwrap();
    assert_eq!(ifds[0].tags[0].1.data, Data::Short(Vec::new()));
    assert_eq!(ifds[0].tags[0].1.offset, None);
}

#[test]
fn order_read_odd_sizes() {
    let buf = [0x01u8, 0x02, 0x03, 0x04, 0x05, 0x06, 0x07, 0x08];
    assert_eq!(order_read(Endian::Big, &buf, 3), 0x010203);
    assert_eq!(order_read(Endian::Little, &buf, 3), 0x030201);
    assert_eq!(order_read(Endian::Big, &buf, 8), 0x0102030405060708);
    assert_eq!(order_read(Endian::Little, &buf, 8), 0x0807060504030201);
}
