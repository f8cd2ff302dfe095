use vstd::prelude::*;

use crate::error::Error;

verus! {

/// `256` to the power `n`.
pub open spec fn pow256(n: nat) -> nat
    decreases n,
{
    if n == 0 {
        1
    } else {
        256 * pow256((n - 1) as nat)
    }
}

/// The number that a byte sequence encodes, most significant byte first.
pub open spec fn be_value(s: Seq<u8>) -> nat
    decreases s.len(),
{
    if s.len() == 0 {
        0
    } else {
        (be_value(s.drop_last()) * 256 + s.last()) as nat
    }
}

/// The number that a byte sequence encodes, least significant byte first.
pub open spec fn le_value(s: Seq<u8>) -> nat
    decreases s.len(),
{
    if s.len() == 0 {
        0
    } else {
        (s[0] + 256 * le_value(s.drop_first())) as nat
    }
}

/// The `n` bytes that encode `v` modulo `256^n`, most significant byte first.
pub open spec fn be_bytes(v: nat, n: nat) -> Seq<u8>
    decreases n,
{
    if n == 0 {
        Seq::empty()
    } else {
        be_bytes(v / 256, (n - 1) as nat).push((v % 256) as u8)
    }
}

/// The view of a result that holds a byte vector.
pub open spec fn bytes_view(r: Result<Vec<u8>, Error>) -> Result<Seq<u8>, Error> {
    match r {
        Ok(b) => Ok(b@),
        Err(e) => Err(e),
    }
}

/// The contents of each byte vector.
pub open spec fn byte_vecs(v: Seq<Vec<u8>>) -> Seq<Seq<u8>> {
    Seq::new(v.len(), |i: int| v[i]@)
}

/// The big-endian `u32` stored at `pos`.
pub open spec fn be_u32_at(s: Seq<u8>, pos: int) -> u32 {
    be_value(s.subrange(pos, pos + 4)) as u32
}

/// The big-endian `u64` stored at `pos`.
pub open spec fn be_u64_at(s: Seq<u8>, pos: int) -> u64 {
    be_value(s.subrange(pos, pos + 8)) as u64
}

/// The little-endian `u16` stored at `pos`.
pub open spec fn le_u16_at(s: Seq<u8>, pos: int) -> u16 {
    le_value(s.subrange(pos, pos + 2)) as u16
}

/// The little-endian `u32` stored at `pos`.
pub open spec fn le_u32_at(s: Seq<u8>, pos: int) -> u32 {
    le_value(s.subrange(pos, pos + 4)) as u32
}

/// The little-endian `u64` stored at `pos`.
pub open spec fn le_u64_at(s: Seq<u8>, pos: int) -> u64 {
    le_value(s.subrange(pos, pos + 8)) as u64
}

/// The four big-endian bytes of a `u32`.
pub open spec fn u32_be(v: u32) -> Seq<u8> {
    be_bytes(v as nat, 4)
}

/// The eight big-endian bytes of a `u64`.
pub open spec fn u64_be(v: u64) -> Seq<u8> {
    be_bytes(v as nat, 8)
}

pub proof fn lemma_pow256_values()
    ensures
        pow256(0) == 1,
        pow256(1) == 256,
        pow256(2) == 0x1_0000,
        pow256(3) == 0x100_0000,
        pow256(4) == 0x1_0000_0000,
        pow256(5) == 0x100_0000_0000,
        pow256(6) == 0x1_0000_0000_0000,
        pow256(7) == 0x100_0000_0000_0000,
        pow256(8) == 0x1_0000_0000_0000_0000,
{
    reveal_with_fuel(pow256, 9);
}

pub proof fn lemma_be_bytes_len(v: nat, n: nat)
    ensures
        be_bytes(v, n).len() == n,
    decreases n,
{
    if n > 0 {
        lemma_be_bytes_len(v / 256, (n - 1) as nat);
    }
}

pub proof fn lemma_be_value_bound(s: Seq<u8>)
    ensures
        be_value(s) < pow256(s.len()),
    decreases s.len(),
{
    if s.len() > 0 {
        lemma_be_value_bound(s.drop_last());
    }
}

pub proof fn lemma_le_value_bound(s: Seq<u8>)
    ensures
        le_value(s) < pow256(s.len()),
    decreases s.len(),
{
    if s.len() > 0 {
        lemma_le_value_bound(s.drop_first());
    }
}

/// Decoding the big-endian bytes of a number gives the number back.
pub proof fn lemma_be_roundtrip(v: nat, n: nat)
    requires
        v < pow256(n),
    ensures
        be_value(be_bytes(v, n)) == v,
    decreases n,
{
    if n > 0 {
        let p = pow256((n - 1) as nat);
        assert(v / 256 < p) by (nonlinear_arith)
            requires
                v < 256 * p,
        ;
        lemma_be_roundtrip(v / 256, (n - 1) as nat);
        let b = be_bytes(v, n);
        assert(b.drop_last() =~= be_bytes(v / 256, (n - 1) as nat));
    }
}

/// Encoding the number that some bytes encode gives the bytes back.
pub proof fn lemma_be_bytes_of_value(s: Seq<u8>)
    ensures
        be_bytes(be_value(s), s.len()) == s,
    decreases s.len(),
{
    if s.len() > 0 {
        let v = be_value(s);
        let w = be_value(s.drop_last());
        assert(v / 256 == w);
        assert(v % 256 == s.last());
        lemma_be_bytes_of_value(s.drop_last());
        assert(be_bytes(v, s.len()) =~= s.drop_last().push(s.last()));
        assert(s.drop_last().push(s.last()) =~= s);
    }
}

/// Reads the `n` big-endian bytes at `pos` as a number.
pub fn read_be(data: &[u8], pos: usize, n: usize) -> (v: u64)
    requires
        n <= 8,
        pos + n <= data@.len(),
    ensures
        v == be_value(data@.subrange(pos as int, pos + n)),
    decreases n,
{
    if n == 0 {
        assert(data@.subrange(pos as int, pos as int).len() == 0);
        0
    } else {
        let high = read_be(data, pos, n - 1);
        proof {
            let s = data@.subrange(pos as int, pos + n);
            assert(s.drop_last() =~= data@.subrange(pos as int, pos + n - 1));
            lemma_be_value_bound(s.drop_last());
            lemma_pow256_values();
            assert(pow256((n - 1) as nat) <= 0x100_0000_0000_0000) by {
                reveal_with_fuel(pow256, 9);
            }
        }
        assert(data@.len() == data.len());
        high * 256 + data[pos + (n - 1)] as u64
    }
}

/// Reads the `n` little-endian bytes at `pos` as a number.
pub fn read_le(data: &[u8], pos: usize, n: usize) -> (v: u64)
    requires
        n <= 8,
        pos + n <= data@.len(),
    ensures
        v == le_value(data@.subrange(pos as int, pos + n)),
    decreases n,
{
    if n == 0 {
        assert(data@.subrange(pos as int, pos as int).len() == 0);
        0
    } else {
        assert(data@.len() == data.len());
        let high = read_le(data, pos + 1, n - 1);
        proof {
            let s = data@.subrange(pos as int, pos + n);
            assert(s.drop_first() =~= data@.subrange(pos + 1, pos + n));
            lemma_le_value_bound(s.drop_first());
            lemma_pow256_values();
            assert(pow256((n - 1) as nat) <= 0x100_0000_0000_0000) by {
                reveal_with_fuel(pow256, 9);
            }
        }
        data[pos] as u64 + 256 * high
    }
}

/// Appends the `n` big-endian bytes of `v` (modulo `256^n`).
pub fn push_be(out: &mut Vec<u8>, v: u64, n: usize)
    ensures
        final(out)@ == old(out)@ + be_bytes(v as nat, n as nat),
    decreases n,
{
    if n > 0 {
        push_be(out, v / 256, n - 1);
        out.push((v % 256) as u8);
        proof {
            let a = old(out)@;
            let b = be_bytes((v / 256) as nat, (n - 1) as nat);
            assert((a + b).push((v % 256) as u8) =~= a + b.push((v % 256) as u8));
        }
    }
}

/// Reads a big-endian `u32`.
pub fn read_u32_be(data: &[u8], pos: usize) -> (r: Result<u32, Error>)
    ensures
        pos + 4 <= data@.len() ==> r == Ok::<u32, Error>(be_u32_at(data@, pos as int)),
        pos + 4 > data@.len() ==> r == Err::<u32, Error>(Error::UnexpectedEof),
{
    if pos <= data.len() && 4 <= data.len() - pos {
        let v = read_be(data, pos, 4);
        proof {
            lemma_be_value_bound(data@.subrange(pos as int, pos + 4));
            lemma_pow256_values();
        }
        Ok(v as u32)
    } else {
        Err(Error::UnexpectedEof)
    }
}

/// Reads a big-endian `u64`.
pub fn read_u64_be(data: &[u8], pos: usize) -> (r: Result<u64, Error>)
    ensures
        pos + 8 <= data@.len() ==> r == Ok::<u64, Error>(be_u64_at(data@, pos as int)),
        pos + 8 > data@.len() ==> r == Err::<u64, Error>(Error::UnexpectedEof),
{
    if pos <= data.len() && 8 <= data.len() - pos {
        Ok(read_be(data, pos, 8))
    } else {
        Err(Error::UnexpectedEof)
    }
}

/// Appends the four big-endian bytes of a `u32`.
pub fn push_u32_be(out: &mut Vec<u8>, v: u32)
    ensures
        final(out)@ == old(out)@ + u32_be(v),
{
    push_be(out, v as u64, 4);
}

/// Appends the eight big-endian bytes of a `u64`.
pub fn push_u64_be(out: &mut Vec<u8>, v: u64)
    ensures
        final(out)@ == old(out)@ + u64_be(v),
{
    push_be(out, v, 8);
}

/// A big-endian `u32` reads back as itself.
pub proof fn lemma_u32_be_roundtrip(v: u32)
    ensures
        u32_be(v).len() == 4,
        be_value(u32_be(v)) == v,
{
    lemma_pow256_values();
    lemma_be_bytes_len(v as nat, 4);
    lemma_be_roundtrip(v as nat, 4);
}

/// A big-endian `u64` reads back as itself.
pub proof fn lemma_u64_be_roundtrip(v: u64)
    ensures
        u64_be(v).len() == 8,
        be_value(u64_be(v)) == v,
{
    lemma_pow256_values();
    lemma_be_bytes_len(v as nat, 8);
    lemma_be_roundtrip(v as nat, 8);
}

/// A signed byte survives the trip through its unsigned bits.
pub proof fn lemma_i8_bits(x: i8)
    ensures
        (x as u8) as i8 == x,
{
    assert((x as u8) as i8 == x) by (bit_vector);
}

/// A signed 32-bit value survives the trip through its unsigned bits.
pub proof fn lemma_i32_bits(x: i32)
    ensures
        (x as u32) as i32 == x,
{
    assert((x as u32) as i32 == x) by (bit_vector);
}

/// Whether the eight bytes at `pos` are `magic`.
pub fn has_magic_at(data: &[u8], pos: usize, magic: &[u8; 8]) -> (b: bool)
    requires
        pos + 8 <= data@.len(),
    ensures
        b == (data@.subrange(pos as int, pos + 8) == magic@),
{
    for k in 0..8
        invariant
            pos + 8 <= data@.len(),
            data@.len() == data.len(),
            forall|t: int| 0 <= t < k ==> data@[pos + t] == magic@[t],
    {
        if data[pos + k] != magic[k] {
            assert(data@.subrange(pos as int, pos + 8)[k as int] != magic@[k as int]);
            return false;
        }
    }
    assert(data@.subrange(pos as int, pos + 8) =~= magic@);
    true
}

/// Reads the `n` bytes at `pos`.
pub fn read_bytes(data: &[u8], pos: usize, n: usize) -> (r: Result<Vec<u8>, Error>)
    ensures
        pos + n <= data@.len() ==> (r matches Ok(b) && b@ == data@.subrange(pos as int, pos + n)),
        pos + n > data@.len() ==> r == Err::<Vec<u8>, Error>(Error::UnexpectedEof),
{
    if pos > data.len() || data.len() - pos < n {
        return Err(Error::UnexpectedEof);
    }
    Ok(vstd::slice::slice_to_vec(&data[pos..pos + n]))
}

/// Reads a little-endian `u16`.
pub fn read_u16_le(data: &[u8], pos: usize) -> (r: Result<u16, Error>)
    ensures
        pos + 2 <= data@.len() ==> r == Ok::<u16, Error>(le_u16_at(data@, pos as int)),
        pos + 2 > data@.len() ==> r == Err::<u16, Error>(Error::UnexpectedEof),
{
    if pos <= data.len() && 2 <= data.len() - pos {
        let v = read_le(data, pos, 2);
        proof {
            lemma_le_value_bound(data@.subrange(pos as int, pos + 2));
            lemma_pow256_values();
        }
        Ok(v as u16)
    } else {
        Err(Error::UnexpectedEof)
    }
}

/// Reads a little-endian `u32`.
pub fn read_u32_le(data: &[u8], pos: usize) -> (r: Result<u32, Error>)
    ensures
        pos + 4 <= data@.len() ==> r == Ok::<u32, Error>(le_u32_at(data@, pos as int)),
        pos + 4 > data@.len() ==> r == Err::<u32, Error>(Error::UnexpectedEof),
{
    if pos <= data.len() && 4 <= data.len() - pos {
        let v = read_le(data, pos, 4);
        proof {
            lemma_le_value_bound(data@.subrange(pos as int, pos + 4));
            lemma_pow256_values();
        }
        Ok(v as u32)
    } else {
        Err(Error::UnexpectedEof)
    }
}

/// Reads a little-endian `u64`.
pub fn read_u64_le(data: &[u8], pos: usize) -> (r: Result<u64, Error>)
    ensures
        pos + 8 <= data@.len() ==> r == Ok::<u64, Error>(le_u64_at(data@, pos as int)),
        pos + 8 > data@.len() ==> r == Err::<u64, Error>(Error::UnexpectedEof),
{
    if pos <= data.len() && 8 <= data.len() - pos {
        Ok(read_le(data, pos, 8))
    } else {
        Err(Error::UnexpectedEof)
    }
}

} // verus!
