//! Endian read and write.
//!
//! Fixed-width unsigned integers (1 to 8 bytes) are read from and appended to
//! byte buffers in either big- or little-endian order.  The specification
//! functions `bytes_value` and `bytes_of` give the mathematical meaning of a
//! byte sequence under an endianness, and the executable readers and writers
//! are proved exact against them.

use vstd::arithmetic::mul::lemma_mul_inequality;
use vstd::prelude::*;

verus! {

/// Byte order of multi-byte integers in a buffer.
#[derive(Clone, Copy, Debug, PartialEq, Eq, Structural)]
pub enum Endian {
    Big,
    Little,
}

/// 256 raised to the power `n`: the number of values representable in `n` bytes.
pub open spec fn pow256(n: nat) -> nat
    decreases n,
{
    if n == 0 {
        1
    } else {
        256 * pow256((n - 1) as nat)
    }
}

/// The value of a byte sequence read in big-endian order: the first byte is
/// the most significant.
pub open spec fn be_bytes_value(b: Seq<u8>) -> nat
    decreases b.len(),
{
    if b.len() == 0 {
        0
    } else {
        be_bytes_value(b.drop_last()) * 256 + b.last() as nat
    }
}

/// The value of a byte sequence read in little-endian order: the first byte
/// is the least significant.
pub open spec fn le_bytes_value(b: Seq<u8>) -> nat
    decreases b.len(),
{
    if b.len() == 0 {
        0
    } else {
        b.first() as nat + 256 * le_bytes_value(b.drop_first())
    }
}

/// The value of a byte sequence under the given byte order.
pub open spec fn bytes_value(endian: Endian, b: Seq<u8>) -> nat {
    match endian {
        Endian::Big => be_bytes_value(b),
        Endian::Little => le_bytes_value(b),
    }
}

/// The `n`-byte big-endian encoding of `v % pow256(n)`.
pub open spec fn be_bytes_of(v: nat, n: nat) -> Seq<u8>
    decreases n,
{
    if n == 0 {
        Seq::empty()
    } else {
        be_bytes_of(v / 256, (n - 1) as nat) + seq![(v % 256) as u8]
    }
}

/// The `n`-byte little-endian encoding of `v % pow256(n)`.
pub open spec fn le_bytes_of(v: nat, n: nat) -> Seq<u8>
    decreases n,
{
    if n == 0 {
        Seq::empty()
    } else {
        seq![(v % 256) as u8] + le_bytes_of(v / 256, (n - 1) as nat)
    }
}

/// The `n`-byte encoding of `v % pow256(n)` under the given byte order.
pub open spec fn bytes_of(endian: Endian, v: nat, n: nat) -> Seq<u8> {
    match endian {
        Endian::Big => be_bytes_of(v, n),
        Endian::Little => le_bytes_of(v, n),
    }
}

/// `pow256` never falls below one.
pub proof fn lemma_pow256_positive(n: nat)
    ensures
        pow256(n) >= 1,
    decreases n,
{
    if n > 0 {
        lemma_pow256_positive((n - 1) as nat);
    }
}

/// `pow256` grows monotonically with the byte count.
pub proof fn lemma_pow256_increases(i: nat, j: nat)
    requires
        i <= j,
    ensures
        pow256(i) <= pow256(j),
    decreases j,
{
    if i < j {
        lemma_pow256_increases(i, (j - 1) as nat);
        lemma_pow256_positive((j - 1) as nat);
    }
}

/// An encoding has exactly the requested number of bytes.
pub proof fn lemma_bytes_of_len(endian: Endian, v: nat, n: nat)
    ensures
        bytes_of(endian, v, n).len() == n,
    decreases n,
{
    if n > 0 {
        lemma_bytes_of_len(endian, v / 256, (n - 1) as nat);
    }
}

/// A byte sequence of length `n` denotes a value below `pow256(n)`.
pub proof fn lemma_bytes_value_bound(endian: Endian, b: Seq<u8>)
    ensures
        bytes_value(endian, b) < pow256(b.len()),
    decreases b.len(),
{
    if b.len() == 0 {
    } else {
        match endian {
            Endian::Big => {
                lemma_bytes_value_bound(endian, b.drop_last());
                let v = be_bytes_value(b.drop_last());
                lemma_mul_inequality(v as int, pow256((b.len() - 1) as nat) as int - 1, 256);
            },
            Endian::Little => {
                lemma_bytes_value_bound(endian, b.drop_first());
                let v = le_bytes_value(b.drop_first());
                lemma_mul_inequality(v as int, pow256((b.len() - 1) as nat) as int - 1, 256);
            },
        }
    }
}

/// Decoding an encoding returns the value: the core round-trip fact of the
/// endian codec, for every value that fits in `n` bytes.
pub proof fn lemma_bytes_roundtrip(endian: Endian, v: nat, n: nat)
    requires
        v < pow256(n),
    ensures
        bytes_value(endian, bytes_of(endian, v, n)) == v,
    decreases n,
{
    if n == 0 {
    } else {
        assert(v / 256 < pow256((n - 1) as nat)) by (nonlinear_arith)
            requires
                v < 256 * pow256((n - 1) as nat),
        ;
        lemma_bytes_roundtrip(endian, v / 256, (n - 1) as nat);
        lemma_bytes_of_len(endian, v / 256, (n - 1) as nat);
        match endian {
            Endian::Big => {
                let rest = be_bytes_of(v / 256, (n - 1) as nat);
                let whole = rest + seq![(v % 256) as u8];
                assert(whole.drop_last() =~= rest);
                assert(whole.last() == (v % 256) as u8);
            },
            Endian::Little => {
                let rest = le_bytes_of(v / 256, (n - 1) as nat);
                let whole = seq![(v % 256) as u8] + rest;
                assert(whole.drop_first() =~= rest);
                assert(whole.first() == (v % 256) as u8);
            },
        }
    }
}

/// Read an `size`-byte unsigned integer from the start of `buffer` in the
/// given byte order.
pub fn order_read(endian: Endian, buffer: &[u8], size: usize) -> (value: u64)
    requires
        1 <= size <= 8,
        size <= buffer@.len(),
    ensures
        value == bytes_value(endian, buffer@.take(size as int)),
        value < pow256(size as nat),
{
    proof {
        lemma_pow256_increases(size as nat, 8);
        assert(pow256(8) == 0x1_0000_0000_0000_0000) by {
            reveal_with_fuel(pow256, 9);
        }
    }
    let mut acc: u64 = 0;
    match endian {
        Endian::Big => {
            let mut i: usize = 0;
            while i < size
                invariant
                    i <= size <= 8,
                    size <= buffer@.len(),
                    acc == be_bytes_value(buffer@.take(size as int).take(i as int)),
                    acc < pow256(i as nat),
                    pow256(size as nat) <= pow256(8),
                    pow256(8) == 0x1_0000_0000_0000_0000,
                decreases size - i,
            {
                proof {
                    lemma_pow256_increases((i + 1) as nat, size as nat);
                    lemma_mul_inequality(acc as int, pow256(i as nat) as int - 1, 256);
                    let cur = buffer@.take(size as int).take(i + 1);
                    assert(cur.drop_last() =~= buffer@.take(size as int).take(i as int));
                    assert(cur.last() == buffer@[i as int]);
                }
                acc = acc * 256 + buffer[i] as u64;
                i = i + 1;
            }
            proof {
                assert(buffer@.take(size as int).take(size as int) =~= buffer@.take(size as int));
            }
        },
        Endian::Little => {
            let mut j: usize = size;
            while j > 0
                invariant
                    j <= size <= 8,
                    size <= buffer@.len(),
                    acc == le_bytes_value(buffer@.subrange(j as int, size as int)),
                    acc < pow256((size - j) as nat),
                    pow256(size as nat) <= pow256(8),
                    pow256(8) == 0x1_0000_0000_0000_0000,
                decreases j,
            {
                proof {
                    lemma_pow256_increases((size - j + 1) as nat, size as nat);
                    lemma_mul_inequality(acc as int, pow256((size - j) as nat) as int - 1, 256);
                    let cur = buffer@.subrange(j - 1, size as int);
                    assert(cur.drop_first() =~= buffer@.subrange(j as int, size as int));
                    assert(cur.first() == buffer@[j - 1]);
                }
                j = j - 1;
                acc = buffer[j] as u64 + 256 * acc;
            }
            proof {
                assert(buffer@.subrange(0, size as int) =~= buffer@.take(size as int));
            }
        },
    }
    proof {
        lemma_bytes_value_bound(endian, buffer@.take(size as int));
    }
    acc
}

/// Append one byte to the buffer.  A single byte is the same in either order.
pub fn order_write_8(endian: Endian, buffer: &mut Vec<u8>, data: u8)
    ensures
        final(buffer)@ == old(buffer)@ + bytes_of(endian, data as nat, 1),
{
    proof {
        reveal_with_fuel(be_bytes_of, 2);
        reveal_with_fuel(le_bytes_of, 2);
        assert(bytes_of(endian, data as nat, 1) =~= seq![data]);
    }
    buffer.push(data);
    proof {
        assert(final(buffer)@ =~= old(buffer)@ + seq![data]);
    }
}

/// Append a 16-bit value to the buffer in the given byte order.
pub fn order_write_16(endian: Endian, buffer: &mut Vec<u8>, data: u16)
    ensures
        final(buffer)@ == old(buffer)@ + bytes_of(endian, data as nat, 2),
{
    let b0 = (data % 256) as u8;
    let b1 = ((data / 256) % 256) as u8;
    match endian {
        Endian::Big => {
            buffer.push(b1);
            buffer.push(b0);
        },
        Endian::Little => {
            buffer.push(b0);
            buffer.push(b1);
        },
    }
    proof {
        reveal_with_fuel(be_bytes_of, 3);
        reveal_with_fuel(le_bytes_of, 3);
        assert(final(buffer)@ =~= old(buffer)@ + bytes_of(endian, data as nat, 2));
    }
}

/// Append a 32-bit value to the buffer in the given byte order.
pub fn order_write_32(endian: Endian, buffer: &mut Vec<u8>, data: u32)
    ensures
        final(buffer)@ == old(buffer)@ + bytes_of(endian, data as nat, 4),
{
    let d1 = data / 256;
    let d2 = d1 / 256;
    let d3 = d2 / 256;
    let b0 = (data % 256) as u8;
    let b1 = (d1 % 256) as u8;
    let b2 = (d2 % 256) as u8;
    let b3 = (d3 % 256) as u8;
    match endian {
        Endian::Big => {
            buffer.push(b3);
            buffer.push(b2);
            buffer.push(b1);
            buffer.push(b0);
        },
        Endian::Little => {
            buffer.push(b0);
            buffer.push(b1);
            buffer.push(b2);
            buffer.push(b3);
        },
    }
    proof {
        reveal_with_fuel(be_bytes_of, 5);
        reveal_with_fuel(le_bytes_of, 5);
        assert(final(buffer)@ =~= old(buffer)@ + bytes_of(endian, data as nat, 4));
    }
}

/// Append a 64-bit value to the buffer in the given byte order.
pub fn order_write_64(endian: Endian, buffer: &mut Vec<u8>, data: u64)
    ensures
        final(buffer)@ == old(buffer)@ + bytes_of(endian, data as nat, 8),
{
    let d1 = data / 256;
    let d2 = d1 / 256;
    let d3 = d2 / 256;
    let d4 = d3 / 256;
    let d5 = d4 / 256;
    let d6 = d5 / 256;
    let d7 = d6 / 256;
    let b0 = (data % 256) as u8;
    let b1 = (d1 % 256) as u8;
    let b2 = (d2 % 256) as u8;
    let b3 = (d3 % 256) as u8;
    let b4 = (d4 % 256) as u8;
    let b5 = (d5 % 256) as u8;
    let b6 = (d6 % 256) as u8;
    let b7 = (d7 % 256) as u8;
    match endian {
        Endian::Big => {
            buffer.push(b7);
            buffer.push(b6);
            buffer.push(b5);
            buffer.push(b4);
            buffer.push(b3);
            buffer.push(b2);
            buffer.push(b1);
            buffer.push(b0);
        },
        Endian::Little => {
            buffer.push(b0);
            buffer.push(b1);
            buffer.push(b2);
            buffer.push(b3);
            buffer.push(b4);
            buffer.push(b5);
            buffer.push(b6);
            buffer.push(b7);
        },
    }
    proof {
        reveal_with_fuel(be_bytes_of, 9);
        reveal_with_fuel(le_bytes_of, 9);
        assert(final(buffer)@ =~= old(buffer)@ + bytes_of(endian, data as nat, 8));
    }
}

/// Read an `n`-byte unsigned integer at position `pos` of `data` in the
/// given byte order.
pub fn read_at(endian: Endian, data: &[u8], pos: usize, n: usize) -> (value: u64)
    requires
        1 <= n <= 8,
        pos + n <= data@.len(),
    ensures
        value == bytes_value(endian, data@.subrange(pos as int, pos + n)),
        value < pow256(n as nat),
{
    let len = data.len();
    assert(pos + n <= len);
    let window = vstd::slice::slice_subrange(data, pos, pos + n);
    let value = order_read(endian, window, n);
    proof {
        assert(window@.take(n as int) =~= data@.subrange(pos as int, pos + n));
    }
    value
}

} // verus!
