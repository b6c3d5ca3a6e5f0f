//! Types for the data held in a TIFF container.
//!
//! A parsed file is described by `Info` (file-level facts), a list of `Ifd`
//! records (one per directory), `Tag` (one directory entry) and `Data` (the
//! decoded, typed value of one entry).  Ghost mirror structures (`InfoModel`,
//! `IfdModel`, `TagModel`, `DataModel`) give the mathematical value of each
//! record, and the decoding and encoding of tag values are proved exact
//! against the specification functions `spec_decode_data` and
//! `spec_encode_data`.

use crate::endian_rw::{
    bytes_of, bytes_value, lemma_bytes_of_len, lemma_bytes_roundtrip, order_write_16,
    order_write_32, pow256, read_at, Endian,
};
use vstd::prelude::*;
use vstd::string::{StrSliceExecFns, StringSliceAdditionalSpecFns};
use vstd::slice::slice_to_vec;
use vstd::utf8::{decode_utf8, encode_utf8, encode_utf8_decode_utf8, encode_utf8_valid_utf8, valid_utf8};

verus! {

/// The type of the values stored in a tag, as defined by the TIFF
/// specification.
#[derive(Clone, Copy, Debug, PartialEq, Eq, Structural)]
pub enum DataType {
    Byte,
    Ascii,
    Short,
    Long,
    Rational,
}

/// The number of bytes one element of the given type occupies on disk.
pub open spec fn spec_type_size(dt: DataType) -> nat {
    match dt {
        DataType::Byte => 1,
        DataType::Ascii => 1,
        DataType::Short => 2,
        DataType::Long => 4,
        DataType::Rational => 8,
    }
}

/// The numeric type identifier the TIFF specification assigns to the given
/// data type.
pub open spec fn spec_type_id(dt: DataType) -> nat {
    match dt {
        DataType::Byte => 1,
        DataType::Ascii => 2,
        DataType::Short => 3,
        DataType::Long => 4,
        DataType::Rational => 5,
    }
}

/// The data type denoted by a numeric type identifier, if it is one of the
/// supported identifiers 1 through 5.
pub open spec fn spec_datatype_of(n: u16) -> Option<DataType> {
    if n == 1 {
        Some(DataType::Byte)
    } else if n == 2 {
        Some(DataType::Ascii)
    } else if n == 3 {
        Some(DataType::Short)
    } else if n == 4 {
        Some(DataType::Long)
    } else if n == 5 {
        Some(DataType::Rational)
    } else {
        None
    }
}

impl DataType {
    /// The data type for a numeric type identifier from a directory entry;
    /// `None` for an identifier outside the supported set.
    pub fn from_u16(n: u16) -> (r: Option<DataType>)
        ensures
            r == spec_datatype_of(n),
    {
        match n {
            1 => Some(DataType::Byte),
            2 => Some(DataType::Ascii),
            3 => Some(DataType::Short),
            4 => Some(DataType::Long),
            5 => Some(DataType::Rational),
            _ => None,
        }
    }

    /// The number of bytes one element of this type occupies on disk.
    pub fn element_size_in_bytes(&self) -> (n: u64)
        ensures
            n == spec_type_size(*self),
    {
        match self {
            DataType::Byte => 1,
            DataType::Ascii => 1,
            DataType::Short => 2,
            DataType::Long => 4,
            DataType::Rational => 8,
        }
    }

    /// The numeric identifier of this type in the TIFF specification.
    pub fn type_tiff_id(&self) -> (n: u64)
        ensures
            n == spec_type_id(*self),
    {
        match self {
            DataType::Byte => 1,
            DataType::Ascii => 2,
            DataType::Short => 3,
            DataType::Long => 4,
            DataType::Rational => 5,
        }
    }
}

/// The decoded value of one tag.  Every variant holds the sequence of
/// elements declared by the tag's count.  Rational elements keep the stored
/// numerator and denominator.
#[derive(Clone, Debug, PartialEq)]
pub enum Data {
    /// Unsigned single bytes.
    Byte(Vec<u8>),
    /// Text, decoded from the stored bytes; typically NUL-terminated.
    Ascii(String),
    /// Unsigned 16-bit values.
    Short(Vec<u16>),
    /// Unsigned 32-bit values.
    Long(Vec<u32>),
    /// Pairs of unsigned 32-bit values: numerator, then denominator.
    Rational(Vec<(u32, u32)>),
}

/// The mathematical value of a `Data` record.
pub ghost enum DataModel {
    Byte(Seq<u8>),
    Ascii(Seq<char>),
    Short(Seq<u16>),
    Long(Seq<u32>),
    Rational(Seq<(u32, u32)>),
}

/// Map a `Data` record to its mathematical value.
pub open spec fn data_model(d: Data) -> DataModel {
    match d {
        Data::Byte(v) => DataModel::Byte(v@),
        Data::Ascii(s) => DataModel::Ascii(s@),
        Data::Short(v) => DataModel::Short(v@),
        Data::Long(v) => DataModel::Long(v@),
        Data::Rational(v) => DataModel::Rational(v@),
    }
}

/// The data type a model value belongs to.
pub open spec fn data_model_type(m: DataModel) -> DataType {
    match m {
        DataModel::Byte(_) => DataType::Byte,
        DataModel::Ascii(_) => DataType::Ascii,
        DataModel::Short(_) => DataType::Short,
        DataModel::Long(_) => DataType::Long,
        DataModel::Rational(_) => DataType::Rational,
    }
}

/// The element count a model value re-encodes to: the number of elements,
/// except for text, whose count is its length in bytes.
pub open spec fn data_model_count(m: DataModel) -> nat {
    match m {
        DataModel::Byte(s) => s.len(),
        DataModel::Ascii(s) => encode_utf8(s).len(),
        DataModel::Short(s) => s.len(),
        DataModel::Long(s) => s.len(),
        DataModel::Rational(s) => s.len(),
    }
}

/// What a replacing decoder makes of bytes that are not valid UTF-8.  The
/// replacement scheme is involved, but fixed by the bytes alone.
pub uninterp spec fn lossy_fallback(bytes: Seq<u8>) -> Seq<char>;

/// The characters a string decoded from arbitrary bytes holds: valid UTF-8
/// decodes exactly; anything else goes through the replacing decoder.
pub open spec fn lossy_decoded(bytes: Seq<u8>) -> Seq<char> {
    if valid_utf8(bytes) {
        decode_utf8(bytes)
    } else {
        lossy_fallback(bytes)
    }
}

/// Relies on `String::from_utf8_lossy`: bytes that are valid UTF-8 decode to
/// exactly their UTF-8 characters, and any other input is replaced in a way
/// that depends on the bytes alone.
#[verifier::external_body]
fn lossy_from_utf8(bytes: &Vec<u8>) -> (r: String)
    ensures
        r@ == lossy_decoded(bytes@),
        !valid_utf8(bytes@) ==> r@ == lossy_fallback(bytes@),
{
    String::from_utf8_lossy(bytes.as_slice()).into_owned()
}

/// The decoded value of `count` elements of type `dt` stored in `raw`.
pub open spec fn spec_decode_data(
    dt: DataType,
    endian: Endian,
    raw: Seq<u8>,
    count: nat,
) -> DataModel {
    match dt {
        DataType::Byte => DataModel::Byte(raw),
        DataType::Ascii => DataModel::Ascii(lossy_decoded(raw)),
        DataType::Short => DataModel::Short(
            Seq::new(count, |i: int| bytes_value(endian, raw.subrange(2 * i, 2 * i + 2)) as u16),
        ),
        DataType::Long => DataModel::Long(
            Seq::new(count, |i: int| bytes_value(endian, raw.subrange(4 * i, 4 * i + 4)) as u32),
        ),
        DataType::Rational => DataModel::Rational(
            Seq::new(
                count,
                |i: int|
                    (
                        bytes_value(endian, raw.subrange(8 * i, 8 * i + 4)) as u32,
                        bytes_value(endian, raw.subrange(8 * i + 4, 8 * i + 8)) as u32,
                    ),
            ),
        ),
    }
}

/// The value each variant uses when a tag's bytes cannot be read at all: an
/// empty sequence of the declared type.
pub open spec fn spec_empty_data(dt: DataType) -> DataModel {
    match dt {
        DataType::Byte => DataModel::Byte(Seq::empty()),
        DataType::Ascii => DataModel::Ascii(Seq::empty()),
        DataType::Short => DataModel::Short(Seq::empty()),
        DataType::Long => DataModel::Long(Seq::empty()),
        DataType::Rational => DataModel::Rational(Seq::empty()),
    }
}

/// The on-disk encoding of a sequence of 16-bit values.
pub open spec fn spec_encode_shorts(endian: Endian, s: Seq<u16>) -> Seq<u8>
    decreases s.len(),
{
    if s.len() == 0 {
        Seq::empty()
    } else {
        spec_encode_shorts(endian, s.drop_last()) + bytes_of(endian, s.last() as nat, 2)
    }
}

/// The on-disk encoding of a sequence of 32-bit values.
pub open spec fn spec_encode_longs(endian: Endian, s: Seq<u32>) -> Seq<u8>
    decreases s.len(),
{
    if s.len() == 0 {
        Seq::empty()
    } else {
        spec_encode_longs(endian, s.drop_last()) + bytes_of(endian, s.last() as nat, 4)
    }
}

/// The on-disk encoding of a sequence of rational values: numerator then
/// denominator, four bytes each.
pub open spec fn spec_encode_rationals(endian: Endian, s: Seq<(u32, u32)>) -> Seq<u8>
    decreases s.len(),
{
    if s.len() == 0 {
        Seq::empty()
    } else {
        spec_encode_rationals(endian, s.drop_last()) + bytes_of(endian, s.last().0 as nat, 4)
            + bytes_of(endian, s.last().1 as nat, 4)
    }
}

/// The on-disk encoding of a decoded value.
pub open spec fn spec_encode_data(m: DataModel, endian: Endian) -> Seq<u8> {
    match m {
        DataModel::Byte(s) => s,
        DataModel::Ascii(s) => encode_utf8(s),
        DataModel::Short(s) => spec_encode_shorts(endian, s),
        DataModel::Long(s) => spec_encode_longs(endian, s),
        DataModel::Rational(s) => spec_encode_rationals(endian, s),
    }
}

/// An encoded sequence of 16-bit values occupies two bytes per element.
pub proof fn lemma_encode_shorts_len(endian: Endian, s: Seq<u16>)
    ensures
        spec_encode_shorts(endian, s).len() == 2 * s.len(),
    decreases s.len(),
{
    if s.len() > 0 {
        lemma_encode_shorts_len(endian, s.drop_last());
        lemma_bytes_of_len(endian, s.last() as nat, 2);
    }
}

/// An encoded sequence of 32-bit values occupies four bytes per element.
pub proof fn lemma_encode_longs_len(endian: Endian, s: Seq<u32>)
    ensures
        spec_encode_longs(endian, s).len() == 4 * s.len(),
    decreases s.len(),
{
    if s.len() > 0 {
        lemma_encode_longs_len(endian, s.drop_last());
        lemma_bytes_of_len(endian, s.last() as nat, 4);
    }
}

/// An encoded sequence of rationals occupies eight bytes per element.
pub proof fn lemma_encode_rationals_len(endian: Endian, s: Seq<(u32, u32)>)
    ensures
        spec_encode_rationals(endian, s).len() == 8 * s.len(),
    decreases s.len(),
{
    if s.len() > 0 {
        lemma_encode_rationals_len(endian, s.drop_last());
        lemma_bytes_of_len(endian, s.last().0 as nat, 4);
        lemma_bytes_of_len(endian, s.last().1 as nat, 4);
    }
}

/// The bytes of one element within an encoded sequence of 16-bit values.
pub proof fn lemma_encode_shorts_index(endian: Endian, s: Seq<u16>, i: int)
    requires
        0 <= i < s.len(),
    ensures
        spec_encode_shorts(endian, s).subrange(2 * i, 2 * i + 2) == bytes_of(
            endian,
            s[i] as nat,
            2,
        ),
    decreases s.len(),
{
    lemma_encode_shorts_len(endian, s.drop_last());
    lemma_bytes_of_len(endian, s.last() as nat, 2);
    if i == s.len() - 1 {
        assert(spec_encode_shorts(endian, s).subrange(2 * i, 2 * i + 2) =~= bytes_of(
            endian,
            s.last() as nat,
            2,
        ));
    } else {
        lemma_encode_shorts_index(endian, s.drop_last(), i);
        assert(spec_encode_shorts(endian, s).subrange(2 * i, 2 * i + 2) =~= spec_encode_shorts(
            endian,
            s.drop_last(),
        ).subrange(2 * i, 2 * i + 2));
    }
}

/// The bytes of one element within an encoded sequence of 32-bit values.
pub proof fn lemma_encode_longs_index(endian: Endian, s: Seq<u32>, i: int)
    requires
        0 <= i < s.len(),
    ensures
        spec_encode_longs(endian, s).subrange(4 * i, 4 * i + 4) == bytes_of(endian, s[i] as nat, 4),
    decreases s.len(),
{
    lemma_encode_longs_len(endian, s.drop_last());
    lemma_bytes_of_len(endian, s.last() as nat, 4);
    if i == s.len() - 1 {
        assert(spec_encode_longs(endian, s).subrange(4 * i, 4 * i + 4) =~= bytes_of(
            endian,
            s.last() as nat,
            4,
        ));
    } else {
        lemma_encode_longs_index(endian, s.drop_last(), i);
        assert(spec_encode_longs(endian, s).subrange(4 * i, 4 * i + 4) =~= spec_encode_longs(
            endian,
            s.drop_last(),
        ).subrange(4 * i, 4 * i + 4));
    }
}

/// The bytes of one element within an encoded sequence of rationals.
pub proof fn lemma_encode_rationals_index(endian: Endian, s: Seq<(u32, u32)>, i: int)
    requires
        0 <= i < s.len(),
    ensures
        spec_encode_rationals(endian, s).subrange(8 * i, 8 * i + 4) == bytes_of(
            endian,
            s[i].0 as nat,
            4,
        ),
        spec_encode_rationals(endian, s).subrange(8 * i + 4, 8 * i + 8) == bytes_of(
            endian,
            s[i].1 as nat,
            4,
        ),
    decreases s.len(),
{
    lemma_encode_rationals_len(endian, s.drop_last());
    lemma_bytes_of_len(endian, s.last().0 as nat, 4);
    lemma_bytes_of_len(endian, s.last().1 as nat, 4);
    if i == s.len() - 1 {
        assert(spec_encode_rationals(endian, s).subrange(8 * i, 8 * i + 4) =~= bytes_of(
            endian,
            s.last().0 as nat,
            4,
        ));
        assert(spec_encode_rationals(endian, s).subrange(8 * i + 4, 8 * i + 8) =~= bytes_of(
            endian,
            s.last().1 as nat,
            4,
        ));
    } else {
        lemma_encode_rationals_index(endian, s.drop_last(), i);
        assert(spec_encode_rationals(endian, s).subrange(8 * i, 8 * i + 4)
            =~= spec_encode_rationals(endian, s.drop_last()).subrange(8 * i, 8 * i + 4));
        assert(spec_encode_rationals(endian, s).subrange(8 * i + 4, 8 * i + 8)
            =~= spec_encode_rationals(endian, s.drop_last()).subrange(8 * i + 4, 8 * i + 8));
    }
}


/// An encoded value occupies exactly its element count times the element
/// width of its type.
pub proof fn lemma_encode_len_matches(m: DataModel, endian: Endian)
    ensures
        spec_encode_data(m, endian).len() == data_model_count(m) * spec_type_size(
            data_model_type(m),
        ),
{
    match m {
        DataModel::Byte(s) => {
            assert(s.len() * 1 == s.len());
        },
        DataModel::Ascii(s) => {
            assert(encode_utf8(s).len() * 1 == encode_utf8(s).len());
        },
        DataModel::Short(s) => {
            lemma_encode_shorts_len(endian, s);
        },
        DataModel::Long(s) => {
            lemma_encode_longs_len(endian, s);
        },
        DataModel::Rational(s) => {
            lemma_encode_rationals_len(endian, s);
        },
    }
}

/// The numeric identifier of a data type names that type again.
pub proof fn lemma_type_id_roundtrip(dt: DataType)
    ensures
        spec_datatype_of(spec_type_id(dt) as u16) == Some(dt),
{
}

/// Decoding an encoded value returns the value, for every variant: re-reading
/// what `spec_encode_data` wrote, with the count the variant declares, is the
/// identity.
pub proof fn lemma_data_roundtrip(m: DataModel, endian: Endian)
    ensures
        spec_decode_data(
            data_model_type(m),
            endian,
            spec_encode_data(m, endian),
            data_model_count(m),
        ) == m,
{
    match m {
        DataModel::Byte(_) => {
        },
        DataModel::Ascii(s) => {
            encode_utf8_valid_utf8(s);
            encode_utf8_decode_utf8(s);
        },
        DataModel::Short(s) => {
            let enc = spec_encode_shorts(endian, s);
            assert forall|i: int| 0 <= i < s.len() implies bytes_value(
                endian,
                enc.subrange(2 * i, 2 * i + 2),
            ) as u16 == s[i] by {
                lemma_encode_shorts_index(endian, s, i);
                assert(pow256(2) == 65536) by {
                    reveal_with_fuel(pow256, 3);
                }
                lemma_bytes_roundtrip(endian, s[i] as nat, 2);
            }
            assert(Seq::new(
                s.len(),
                |i: int| bytes_value(endian, enc.subrange(2 * i, 2 * i + 2)) as u16,
            ) =~= s);
        },
        DataModel::Long(s) => {
            let enc = spec_encode_longs(endian, s);
            assert forall|i: int| 0 <= i < s.len() implies bytes_value(
                endian,
                enc.subrange(4 * i, 4 * i + 4),
            ) as u32 == s[i] by {
                lemma_encode_longs_index(endian, s, i);
                assert(pow256(4) == 0x1_0000_0000) by {
                    reveal_with_fuel(pow256, 5);
                }
                lemma_bytes_roundtrip(endian, s[i] as nat, 4);
            }
            assert(Seq::new(
                s.len(),
                |i: int| bytes_value(endian, enc.subrange(4 * i, 4 * i + 4)) as u32,
            ) =~= s);
        },
        DataModel::Rational(s) => {
            let enc = spec_encode_rationals(endian, s);
            assert forall|i: int| 0 <= i < s.len() implies (
                bytes_value(endian, enc.subrange(8 * i, 8 * i + 4)) as u32,
                bytes_value(endian, enc.subrange(8 * i + 4, 8 * i + 8)) as u32,
            ) == s[i] by {
                lemma_encode_rationals_index(endian, s, i);
                assert(pow256(4) == 0x1_0000_0000) by {
                    reveal_with_fuel(pow256, 5);
                }
                lemma_bytes_roundtrip(endian, s[i].0 as nat, 4);
                lemma_bytes_roundtrip(endian, s[i].1 as nat, 4);
            }
            assert(Seq::new(
                s.len(),
                |i: int|
                    (
                        bytes_value(endian, enc.subrange(8 * i, 8 * i + 4)) as u32,
                        bytes_value(endian, enc.subrange(8 * i + 4, 8 * i + 8)) as u32,
                    ),
            ) =~= s);
        },
    }
}

impl Data {
    /// Decode `count` elements of type `data_type` from the raw bytes of a
    /// tag value, read in the given byte order.
    pub fn new(raw_data: Vec<u8>, data_type: DataType, endian: Endian, count: u64) -> (d: Data)
        requires
            raw_data@.len() == count * spec_type_size(data_type),
        ensures
            data_model(d) == spec_decode_data(data_type, endian, raw_data@, count as nat),
    {
        match data_type {
            DataType::Byte => Data::Byte(raw_data),
            DataType::Ascii => Data::Ascii(lossy_from_utf8(&raw_data)),
            DataType::Short => {
                let ghost target = Seq::new(
                    count as nat,
                    |i: int| bytes_value(endian, raw_data@.subrange(2 * i, 2 * i + 2)) as u16,
                );
                let mut vals: Vec<u16> = Vec::new();
                let mut n: u64 = 0;
                let raw_len = raw_data.len();
                proof {
                    assert(pow256(2) == 65536) by {
                        reveal_with_fuel(pow256, 3);
                    }
                }
                while n < count
                    invariant
                        n <= count,
                        raw_data@.len() == count * 2,
                        raw_data@.len() == raw_len,
                        vals@.len() == n,
                        forall|i: int| 0 <= i < n ==> vals@[i] == target[i],
                        target == Seq::new(
                            count as nat,
                            |i: int|
                                bytes_value(endian, raw_data@.subrange(2 * i, 2 * i + 2)) as u16,
                        ),
                        pow256(2) == 65536,
                    decreases count - n,
                {
                    let start = (n * 2) as usize;
                    let v = read_at(endian, raw_data.as_slice(), start, 2);
                    vals.push(v as u16);
                    n = n + 1;
                }
                proof {
                    assert(vals@ =~= target);
                }
                Data::Short(vals)
            },
            DataType::Long => {
                let ghost target = Seq::new(
                    count as nat,
                    |i: int| bytes_value(endian, raw_data@.subrange(4 * i, 4 * i + 4)) as u32,
                );
                let mut vals: Vec<u32> = Vec::new();
                let mut n: u64 = 0;
                let raw_len = raw_data.len();
                proof {
                    assert(pow256(4) == 0x1_0000_0000) by {
                        reveal_with_fuel(pow256, 5);
                    }
                }
                while n < count
                    invariant
                        n <= count,
                        raw_data@.len() == count * 4,
                        raw_data@.len() == raw_len,
                        vals@.len() == n,
                        forall|i: int| 0 <= i < n ==> vals@[i] == target[i],
                        target == Seq::new(
                            count as nat,
                            |i: int|
                                bytes_value(endian, raw_data@.subrange(4 * i, 4 * i + 4)) as u32,
                        ),
                        pow256(4) == 0x1_0000_0000,
                    decreases count - n,
                {
                    let start = (n * 4) as usize;
                    let v = read_at(endian, raw_data.as_slice(), start, 4);
                    vals.push(v as u32);
                    n = n + 1;
                }
                proof {
                    assert(vals@ =~= target);
                }
                Data::Long(vals)
            },
            DataType::Rational => {
                let ghost target = Seq::new(
                    count as nat,
                    |i: int|
                        (
                            bytes_value(endian, raw_data@.subrange(8 * i, 8 * i + 4)) as u32,
                            bytes_value(endian, raw_data@.subrange(8 * i + 4, 8 * i + 8)) as u32,
                        ),
                );
                let mut vals: Vec<(u32, u32)> = Vec::new();
                let mut n: u64 = 0;
                let raw_len = raw_data.len();
                proof {
                    assert(pow256(4) == 0x1_0000_0000) by {
                        reveal_with_fuel(pow256, 5);
                    }
                }
                while n < count
                    invariant
                        n <= count,
                        raw_data@.len() == count * 8,
                        raw_data@.len() == raw_len,
                        vals@.len() == n,
                        forall|i: int| 0 <= i < n ==> vals@[i] == target[i],
                        target == Seq::new(
                            count as nat,
                            |i: int|
                                (
                                    bytes_value(
                                        endian,
                                        raw_data@.subrange(8 * i, 8 * i + 4),
                                    ) as u32,
                                    bytes_value(
                                        endian,
                                        raw_data@.subrange(8 * i + 4, 8 * i + 8),
                                    ) as u32,
                                ),
                        ),
                        pow256(4) == 0x1_0000_0000,
                    decreases count - n,
                {
                    let start = (n * 8) as usize;
                    let numerator = read_at(endian, raw_data.as_slice(), start, 4);
                    let denominator = read_at(endian, raw_data.as_slice(), start + 4, 4);
                    vals.push((numerator as u32, denominator as u32));
                    n = n + 1;
                }
                proof {
                    assert(vals@ =~= target);
                }
                Data::Rational(vals)
            },
        }
    }

    /// An empty value of the given type, used when a tag's bytes lie outside
    /// the file and nothing can be read.
    pub fn empty(data_type: DataType) -> (d: Data)
        ensures
            data_model(d) == spec_empty_data(data_type),
    {
        match data_type {
            DataType::Byte => Data::Byte(Vec::new()),
            DataType::Ascii => Data::Ascii(String::new()),
            DataType::Short => Data::Short(Vec::new()),
            DataType::Long => Data::Long(Vec::new()),
            DataType::Rational => Data::Rational(Vec::new()),
        }
    }

    /// Encode the value back to its on-disk bytes in the given byte order.
    pub fn to_vec_u8(&self, endian: Endian) -> (buf: Vec<u8>)
        ensures
            buf@ == spec_encode_data(data_model(*self), endian),
    {
        match self {
            Data::Byte(val) => {
                let mut buf: Vec<u8> = Vec::new();
                let mut i: usize = 0;
                let n = val.len();
                while i < n
                    invariant
                        i <= n,
                        n == val@.len(),
                        buf@ == val@.take(i as int),
                    decreases n - i,
                {
                    buf.push(val[i]);
                    proof {
                        assert(val@.take(i + 1) =~= val@.take(i as int) + seq![val@[i as int]]);
                    }
                    i = i + 1;
                }
                proof {
                    assert(val@.take(n as int) =~= val@);
                }
                buf
            },
            Data::Ascii(val) => val.as_str().as_bytes_vec(),
            Data::Short(val) => {
                let mut buf: Vec<u8> = Vec::new();
                let mut i: usize = 0;
                let n = val.len();
                while i < n
                    invariant
                        i <= n,
                        n == val@.len(),
                        buf@ == spec_encode_shorts(endian, val@.take(i as int)),
                    decreases n - i,
                {
                    order_write_16(endian, &mut buf, val[i]);
                    proof {
                        assert(val@.take(i + 1).drop_last() =~= val@.take(i as int));
                    }
                    i = i + 1;
                }
                proof {
                    assert(val@.take(n as int) =~= val@);
                }
                buf
            },
            Data::Long(val) => {
                let mut buf: Vec<u8> = Vec::new();
                let mut i: usize = 0;
                let n = val.len();
                while i < n
                    invariant
                        i <= n,
                        n == val@.len(),
                        buf@ == spec_encode_longs(endian, val@.take(i as int)),
                    decreases n - i,
                {
                    order_write_32(endian, &mut buf, val[i]);
                    proof {
                        assert(val@.take(i + 1).drop_last() =~= val@.take(i as int));
                    }
                    i = i + 1;
                }
                proof {
                    assert(val@.take(n as int) =~= val@);
                }
                buf
            },
            Data::Rational(val) => {
                let mut buf: Vec<u8> = Vec::new();
                let mut i: usize = 0;
                let n = val.len();
                while i < n
                    invariant
                        i <= n,
                        n == val@.len(),
                        buf@ == spec_encode_rationals(endian, val@.take(i as int)),
                    decreases n - i,
                {
                    let pair = val[i];
                    order_write_32(endian, &mut buf, pair.0);
                    order_write_32(endian, &mut buf, pair.1);
                    proof {
                        assert(val@.take(i + 1).drop_last() =~= val@.take(i as int));
                    }
                    i = i + 1;
                }
                proof {
                    assert(val@.take(n as int) =~= val@);
                }
                buf
            },
        }
    }

    /// The number of bytes one element of this value's type occupies on
    /// disk.
    pub fn element_size_in_bytes(&self) -> (n: u64)
        ensures
            n == spec_type_size(data_model_type(data_model(*self))),
    {
        match self {
            Data::Byte(_) => 1,
            Data::Ascii(_) => 1,
            Data::Short(_) => 2,
            Data::Long(_) => 4,
            Data::Rational(_) => 8,
        }
    }

    /// The numeric identifier of this value's type in the TIFF
    /// specification.
    pub fn type_tiff_id(&self) -> (n: u64)
        ensures
            n == spec_type_id(data_model_type(data_model(*self))),
    {
        match self {
            Data::Byte(_) => 1,
            Data::Ascii(_) => 2,
            Data::Short(_) => 3,
            Data::Long(_) => 4,
            Data::Rational(_) => 5,
        }
    }

    /// An independent copy of the value.
    pub fn duplicate(&self) -> (r: Data)
        ensures
            data_model(r) == data_model(*self),
    {
        match self {
            Data::Byte(v) => Data::Byte(slice_to_vec(v.as_slice())),
            Data::Ascii(s) => Data::Ascii(s.clone()),
            Data::Short(v) => Data::Short(slice_to_vec(v.as_slice())),
            Data::Long(v) => Data::Long(slice_to_vec(v.as_slice())),
            Data::Rational(v) => Data::Rational(slice_to_vec(v.as_slice())),
        }
    }
}

/// File-level facts about a TIFF container, built once from the header and
/// immutable afterwards.
#[derive(Clone, Debug)]
pub struct Info {
    /// Byte order of the file.
    pub endian: Endian,
    /// True for the extended variant with 8-byte offsets, false for classic.
    pub big_tiff: bool,
    /// The file offset of the first directory.
    pub first_ifd: usize,
    /// The first four bytes of the file.
    pub header: Vec<u8>,
    /// The total length of the file in bytes.
    pub size: usize,
}

/// One directory entry: a declared type, an element count, the position of
/// its value slot, and either an inline value or a pointer to an out-of-line
/// value.
pub struct Tag {
    /// The declared element count.  For numeric types this is the number of
    /// entries; for rationals the number of pairs; for text the length in
    /// bytes including a terminating NUL.
    pub count: u64,
    /// The decoded value of the tag.
    pub data: Data,
    /// The file offset of this entry's fixed-width value slot.
    pub datapos: usize,
    /// The declared data type.
    pub datatype: DataType,
    /// Present (and left empty) on the vendor-private sub-directory tag; the
    /// directories it references are appended to the flat directory list.
    pub ifds: Option<Vec<Ifd>>,
    /// The file offset of the out-of-line value when the value does not fit
    /// the inline slot; `None` when the value is inline.
    pub offset: Option<usize>,
}

/// One parsed directory: the facts it inherits from the file and its tag
/// entries, keyed uniquely by tag identifier in ascending order.
pub struct Ifd {
    /// Byte order of the file the directory was read from.
    pub endian: Endian,
    /// True when the file uses the extended 8-byte-offset layout.
    pub big_tiff: bool,
    /// The file offset of the directory.
    pub offset: usize,
    /// The total length of the file, for bounds checks.
    pub size: usize,
    /// The entry count the directory declares.  When a duplicate tag
    /// identifier occurred, this stays larger than the number of stored
    /// tags, which surfaces the anomaly.
    pub tag_count: u64,
    /// The tag entries, sorted by strictly ascending tag identifier.  A
    /// duplicate identifier keeps only the entry read last.
    pub tags: Vec<(u64, Tag)>,
}

/// The mathematical value of a `Tag`.
pub ghost struct TagModel {
    pub count: u64,
    pub data: DataModel,
    pub datapos: nat,
    pub datatype: DataType,
    pub has_subifds: bool,
    pub offset: Option<nat>,
}

/// The mathematical value of an `Ifd`.
pub ghost struct IfdModel {
    pub endian: Endian,
    pub big_tiff: bool,
    pub offset: nat,
    pub size: nat,
    pub tag_count: u64,
    pub tags: Seq<(u64, TagModel)>,
}

/// The mathematical value of an `Info`.
pub ghost struct InfoModel {
    pub endian: Endian,
    pub big_tiff: bool,
    pub first_ifd: nat,
    pub header: Seq<u8>,
    pub size: nat,
}

/// The mathematical value of a `Tag` record.  The sub-directory list of a
/// tag is only ever absent or empty (discovered sub-directories live in the
/// flat directory list, not inside the tag), so the model keeps only its
/// presence.
pub open spec fn tag_model(t: Tag) -> TagModel {
    TagModel {
        count: t.count,
        data: data_model(t.data),
        datapos: t.datapos as nat,
        datatype: t.datatype,
        has_subifds: t.ifds is Some,
        offset: match t.offset {
            Some(o) => Some(o as nat),
            None => None,
        },
    }
}

/// The mathematical value of a tag list.
pub open spec fn tag_models_of(ts: Seq<(u64, Tag)>) -> Seq<(u64, TagModel)> {
    Seq::new(ts.len(), |i: int| (ts[i].0, tag_model(ts[i].1)))
}

/// The mathematical value of an `Ifd` record.
pub open spec fn ifd_model(ifd: Ifd) -> IfdModel {
    IfdModel {
        endian: ifd.endian,
        big_tiff: ifd.big_tiff,
        offset: ifd.offset as nat,
        size: ifd.size as nat,
        tag_count: ifd.tag_count,
        tags: tag_models_of(ifd.tags@),
    }
}

/// The mathematical value of a directory list.
pub open spec fn ifd_models_of(s: Seq<Ifd>) -> Seq<IfdModel> {
    Seq::new(s.len(), |i: int| ifd_model(s[i]))
}

/// The mathematical value of an `Info` record.
pub open spec fn info_model(info: Info) -> InfoModel {
    InfoModel {
        endian: info.endian,
        big_tiff: info.big_tiff,
        first_ifd: info.first_ifd as nat,
        header: info.header@,
        size: info.size as nat,
    }
}

/// Every sub-directory list a tag of this directory holds is empty: the
/// decoder appends discovered sub-directories to the flat directory list and
/// only marks the referencing tag.
pub open spec fn ifd_subifds_empty(ifd: Ifd) -> bool {
    forall|i: int|
        0 <= i < ifd.tags@.len() ==> match #[trigger] ifd.tags@[i].1.ifds {
            Some(v) => v@.len() == 0,
            None => true,
        }
}

/// The structural invariant of a decoded directory: identifiers strictly
/// ascend and no tag carries a populated sub-directory list of its own.
pub open spec fn ifd_invariant(ifd: Ifd) -> bool {
    &&& tags_sorted(ifd.tags@)
    &&& ifd_subifds_empty(ifd)
}

/// Tag identifiers strictly ascend, which also makes them unique.
pub open spec fn tags_sorted<T>(ts: Seq<(u64, T)>) -> bool {
    forall|i: int, j: int| 0 <= i < j < ts.len() ==> #[trigger] ts[i].0 < #[trigger] ts[j].0
}

/// The value stored under a tag identifier: the first entry with that
/// identifier, scanned front to back.
pub open spec fn spec_tag_lookup<T>(ts: Seq<(u64, T)>, id: u64) -> Option<T>
    decreases ts.len(),
{
    if ts.len() == 0 {
        None
    } else if ts[0].0 == id {
        Some(ts[0].1)
    } else {
        spec_tag_lookup(ts.drop_first(), id)
    }
}

/// The position where an entry with the given identifier belongs: the length
/// of the longest prefix whose identifiers are all smaller.
pub open spec fn tag_insert_index<T>(ts: Seq<(u64, T)>, id: u64) -> nat
    decreases ts.len(),
{
    if ts.len() == 0 {
        0
    } else if ts[0].0 < id {
        1 + tag_insert_index(ts.drop_first(), id)
    } else {
        0
    }
}

/// Insert an entry into a tag list sorted by identifier.  An entry with the
/// same identifier is replaced: the entry read last wins.
pub open spec fn sorted_tag_insert<T>(ts: Seq<(u64, T)>, id: u64, t: T) -> Seq<(u64, T)> {
    let i = tag_insert_index(ts, id) as int;
    if i < ts.len() && ts[i].0 == id {
        ts.update(i, (id, t))
    } else {
        ts.insert(i, (id, t))
    }
}

/// The insert position is the first position whose identifier is not
/// smaller, and never exceeds the length.
pub proof fn lemma_tag_insert_index<T>(ts: Seq<(u64, T)>, id: u64)
    ensures
        tag_insert_index(ts, id) <= ts.len(),
        forall|j: int| 0 <= j < tag_insert_index(ts, id) ==> #[trigger] ts[j].0 < id,
        tag_insert_index(ts, id) < ts.len() ==> ts[tag_insert_index(ts, id) as int].0 >= id,
    decreases ts.len(),
{
    if ts.len() > 0 && ts[0].0 < id {
        lemma_tag_insert_index(ts.drop_first(), id);
        assert forall|j: int| 0 <= j < tag_insert_index(ts, id) implies #[trigger] ts[j].0
            < id by {
            if j > 0 {
                assert(ts.drop_first()[j - 1].0 < id);
            }
        }
    }
}

/// A position that is preceded only by smaller identifiers and does not hold
/// a smaller identifier itself is the insert position.
pub proof fn lemma_tag_insert_index_of<T>(ts: Seq<(u64, T)>, id: u64, i: int)
    requires
        0 <= i <= ts.len(),
        forall|j: int| 0 <= j < i ==> #[trigger] ts[j].0 < id,
        i < ts.len() ==> ts[i].0 >= id,
    ensures
        tag_insert_index(ts, id) == i,
    decreases ts.len(),
{
    if ts.len() > 0 && ts[0].0 < id {
        assert forall|j: int| 0 <= j < i - 1 implies #[trigger] ts.drop_first()[j].0 < id by {
            assert(ts[j + 1].0 < id);
        }
        lemma_tag_insert_index_of(ts.drop_first(), id, i - 1);
    }
}

/// The insert position of an identifier is the same in a tag list and in
/// its model.
pub proof fn lemma_tag_insert_index_models(ts: Seq<(u64, Tag)>, id: u64)
    ensures
        tag_insert_index(tag_models_of(ts), id) == tag_insert_index(ts, id),
    decreases ts.len(),
{
    if ts.len() > 0 {
        assert(tag_models_of(ts).drop_first() =~= tag_models_of(ts.drop_first()));
        lemma_tag_insert_index_models(ts.drop_first(), id);
    }
}

/// Taking the model of a tag list commutes with inserting an entry.
pub proof fn lemma_tag_models_insert(ts: Seq<(u64, Tag)>, id: u64, t: Tag)
    ensures
        tag_models_of(sorted_tag_insert(ts, id, t)) == sorted_tag_insert(
            tag_models_of(ts),
            id,
            tag_model(t),
        ),
{
    lemma_tag_insert_index_models(ts, id);
    lemma_tag_insert_index(ts, id);
    let i = tag_insert_index(ts, id) as int;
    let ms = tag_models_of(ts);
    if i < ts.len() && ts[i].0 == id {
        assert(ms[i].0 == id);
        assert(tag_models_of(ts.update(i, (id, t))) =~= ms.update(i, (id, tag_model(t))));
    } else {
        if i < ts.len() {
            assert(ms[i].0 == ts[i].0);
        }
        assert(tag_models_of(ts.insert(i, (id, t))) =~= ms.insert(i, (id, tag_model(t))));
    }
}

/// Inserting at the insert position keeps a sorted tag list sorted.
pub proof fn lemma_sorted_tag_insert_sorted<T>(ts: Seq<(u64, T)>, id: u64, t: T)
    requires
        tags_sorted(ts),
    ensures
        tags_sorted(sorted_tag_insert(ts, id, t)),
{
    lemma_tag_insert_index(ts, id);
    let i = tag_insert_index(ts, id) as int;
    if i < ts.len() && ts[i].0 == id {
        let r = ts.update(i, (id, t));
        assert forall|x: int, y: int| 0 <= x < y < r.len() implies #[trigger] r[x].0
            < #[trigger] r[y].0 by {
            assert(ts[x].0 < ts[y].0);
        }
    } else {
        let r = ts.insert(i, (id, t));
        assert forall|x: int, y: int| 0 <= x < y < r.len() implies #[trigger] r[x].0
            < #[trigger] r[y].0 by {
            if x < i && y > i {
                assert(r[x] == ts[x] && r[y] == ts[y - 1]);
            } else if x == i && y > i {
                assert(r[y] == ts[y - 1]);
            } else if x < i && y == i {
                assert(r[x] == ts[x]);
            } else if y < i {
                assert(r[x] == ts[x] && r[y] == ts[y]);
            } else if x > i {
                assert(r[x] == ts[x - 1] && r[y] == ts[y - 1]);
            }
        }
    }
}

impl Tag {
    /// An independent copy of a tag whose sub-directory list, if present, is
    /// empty -- which holds of every tag the decoder produces, since
    /// discovered sub-directories live in the flat directory list.
    pub fn duplicate(&self) -> (r: Tag)
        requires
            match self.ifds {
                Some(v) => v@.len() == 0,
                None => true,
            },
        ensures
            tag_model(r) == tag_model(*self),
            match r.ifds {
                Some(v) => v@.len() == 0,
                None => true,
            },
    {
        Tag {
            count: self.count,
            data: self.data.duplicate(),
            datapos: self.datapos,
            datatype: self.datatype,
            ifds: match self.ifds {
                Some(_) => Some(Vec::new()),
                None => None,
            },
            offset: self.offset,
        }
    }
}

impl Ifd {
    /// Store a tag under its identifier, keeping the list sorted.  When the
    /// identifier is already present the new entry replaces the old one and
    /// the call reports the duplicate.
    pub fn insert_tag(&mut self, id: u64, tag: Tag) -> (duplicate: bool)
        requires
            tags_sorted(old(self).tags@),
        ensures
            final(self).tags@ == sorted_tag_insert(old(self).tags@, id, tag),
            duplicate == spec_tag_lookup(old(self).tags@, id).is_some(),
            final(self).endian == old(self).endian,
            final(self).big_tiff == old(self).big_tiff,
            final(self).offset == old(self).offset,
            final(self).size == old(self).size,
            final(self).tag_count == old(self).tag_count,
    {
        let ghost ts = self.tags@;
        let mut i: usize = 0;
        let n = self.tags.len();
        while i < n && self.tags[i].0 < id
            invariant
                i <= n,
                n == self.tags@.len(),
                self.tags@ == ts,
                forall|j: int| 0 <= j < i ==> #[trigger] ts[j].0 < id,
            decreases n - i,
        {
            i = i + 1;
        }
        proof {
            lemma_tag_insert_index_of(ts, id, i as int);
        }
        let duplicate = i < n && self.tags[i].0 == id;
        if duplicate {
            self.tags.set(i, (id, tag));
            proof {
                lemma_lookup_first(ts, id, i as int);
            }
        } else {
            self.tags.insert(i, (id, tag));
            proof {
                assert forall|j: int| 0 <= j < ts.len() implies #[trigger] ts[j].0 != id by {
                    if j == i as int {
                        assert(ts[j].0 != id);
                    } else if j > i as int {
                        assert(ts[i as int].0 < ts[j].0);
                    }
                }
                lemma_lookup_none(ts, id);
            }
        }
        duplicate
    }

    /// Look up the tag stored under an identifier.
    pub fn get_tag(&self, id: u64) -> (r: Option<&Tag>)
        ensures
            match r {
                Some(t) => spec_tag_lookup(self.tags@, id) == Some(*t),
                None => spec_tag_lookup(self.tags@, id) is None,
            },
    {
        let n = self.tags.len();
        let mut i: usize = 0;
        proof {
            assert(self.tags@.subrange(0, n as int) =~= self.tags@);
        }
        while i < n
            invariant
                i <= n,
                n == self.tags@.len(),
                spec_tag_lookup(self.tags@, id) == spec_tag_lookup(
                    self.tags@.subrange(i as int, n as int),
                    id,
                ),
            decreases n - i,
        {
            proof {
                let rest = self.tags@.subrange(i as int, n as int);
                assert(rest.drop_first() =~= self.tags@.subrange(i + 1, n as int));
                assert(rest[0] == self.tags@[i as int]);
            }
            if self.tags[i].0 == id {
                return Some(&self.tags[i].1);
            }
            i = i + 1;
        }
        None
    }

    /// Whether the directory stores a tag under the identifier.
    pub fn contains_tag(&self, id: u64) -> (r: bool)
        ensures
            r == spec_tag_lookup(self.tags@, id).is_some(),
    {
        self.get_tag(id).is_some()
    }

    /// An independent copy of a directory that satisfies the structural
    /// invariant of decoded directories.  It stands in for the `Clone` the
    /// recursive type cannot carry, so a caller can hand one copy to the
    /// synthesizer and keep the other.
    pub fn duplicate(&self) -> (r: Ifd)
        requires
            ifd_subifds_empty(*self),
        ensures
            ifd_model(r) == ifd_model(*self),
            ifd_subifds_empty(r),
            tags_sorted(self.tags@) ==> tags_sorted(r.tags@),
    {
        let mut tags: Vec<(u64, Tag)> = Vec::new();
        let n = self.tags.len();
        let mut i: usize = 0;
        while i < n
            invariant
                i <= n,
                n == self.tags@.len(),
                ifd_subifds_empty(*self),
                tags@.len() == i,
                forall|j: int| 0 <= j < i ==> #[trigger] tags@[j].0 == self.tags@[j].0,
                forall|j: int|
                    0 <= j < i ==> tag_model(#[trigger] tags@[j].1) == tag_model(self.tags@[j].1),
                forall|j: int|
                    0 <= j < i ==> match (#[trigger] tags@[j].1.ifds) {
                        Some(v) => v@.len() == 0,
                        None => true,
                    },
            decreases n - i,
        {
            let id = self.tags[i].0;
            let copy = self.tags[i].1.duplicate();
            tags.push((id, copy));
            i = i + 1;
        }
        let r = Ifd {
            endian: self.endian,
            big_tiff: self.big_tiff,
            offset: self.offset,
            size: self.size,
            tag_count: self.tag_count,
            tags,
        };
        proof {
            assert(tag_models_of(r.tags@) =~= tag_models_of(self.tags@));
            if tags_sorted(self.tags@) {
                assert forall|x: int, y: int|
                    0 <= x < y < r.tags@.len() implies #[trigger] r.tags@[x].0
                    < #[trigger] r.tags@[y].0 by {
                    assert(r.tags@[x].0 == self.tags@[x].0);
                    assert(r.tags@[y].0 == self.tags@[y].0);
                }
            }
        }
        r
    }
}

/// When no entry carries the identifier, the lookup finds nothing.
pub proof fn lemma_lookup_none<T>(ts: Seq<(u64, T)>, id: u64)
    requires
        forall|j: int| 0 <= j < ts.len() ==> #[trigger] ts[j].0 != id,
    ensures
        spec_tag_lookup(ts, id) is None,
    decreases ts.len(),
{
    if ts.len() > 0 {
        assert forall|j: int| 0 <= j < ts.drop_first().len() implies #[trigger] ts.drop_first()[j].0
            != id by {
            assert(ts[j + 1].0 != id);
        }
        lemma_lookup_none(ts.drop_first(), id);
    }
}

/// The lookup returns the first entry that carries the identifier.
pub proof fn lemma_lookup_first<T>(ts: Seq<(u64, T)>, id: u64, i: int)
    requires
        0 <= i < ts.len(),
        ts[i].0 == id,
        forall|j: int| 0 <= j < i ==> #[trigger] ts[j].0 != id,
    ensures
        spec_tag_lookup(ts, id) == Some(ts[i].1),
    decreases ts.len(),
{
    if i > 0 {
        assert forall|j: int| 0 <= j < i - 1 implies #[trigger] ts.drop_first()[j].0 != id by {
            assert(ts[j + 1].0 != id);
        }
        lemma_lookup_first(ts.drop_first(), id, i - 1);
    }
}

} // verus!
