//! File names and file kinds: coordinates out of `r.<x>.<z>.*` or
//! `c.<x>.<z>.*` names, the external chunk files of a region, and telling a
//! linear file from an anvil one by its first bytes.

use vstd::prelude::*;
use vstd::utf8::decode_utf8;
use vstd::utf8::encode_utf8;
use vstd::utf8::valid_utf8;

use crate::bytes::has_magic_at;
use crate::codec::string_from_utf8;
use crate::error::CoordsError;
use crate::error::Error;
use crate::models::linear_v2::lemma_superblock_roundtrip as lemma_linear_superblock_roundtrip;
use crate::models::linear_v2::superblock_bytes as linear_superblock_bytes;
use crate::models::linear_v2::SuperBlock as LinearSuperBlock;
use crate::models::linear_v2::MAGIC;
use crate::error::IntErrorKind;
use crate::utils::bytes_equal;
use crate::utils::dot;
use crate::utils::is_digit;
use crate::utils::lemma_parse_digits_push;
use crate::utils::lemma_split_dots_join;
use crate::utils::lemma_split_dots_no_dot;
use crate::utils::parse_digits;
use crate::utils::parse_i32;
use crate::utils::parse_i32_spec;
use crate::utils::split_at_dots;
use crate::utils::split_dots;

verus! {

/// What reading coordinates out of a file name's bytes gives: at least three
/// dotted pieces, the first `r` or `c`.
pub open spec fn coords_spec(name: Seq<u8>) -> Result<(i32, i32), CoordsError> {
    let parts = split_dots(name);
    if parts.len() < 3 || (parts[0] != seq![0x72u8] && parts[0] != seq![0x63u8]) {
        Err(CoordsError::InvalidFormat)
    } else {
        match parse_i32_spec(parts[1]) {
            Err(e) => Err(CoordsError::ParseInt(e)),
            Ok(x) => match parse_i32_spec(parts[2]) {
                Err(e) => Err(CoordsError::ParseInt(e)),
                Ok(z) => Ok((x, z)),
            },
        }
    }
}

/// Reads `(x, z)` out of a file name of the form `r.<x>.<z>...` or `c.<x>.<z>...`.
pub fn parse_region_coords(file_name: &str) -> (r: Result<(i32, i32), CoordsError>)
    ensures
        r == coords_spec(encode_utf8(file_name@)),
{
    let name = file_name.as_bytes();
    let parts = split_at_dots(name);
    let r_tag: [u8; 1] = [0x72];
    let c_tag: [u8; 1] = [0x63];
    proof {
        assert(r_tag@ =~= seq![0x72u8]);
        assert(c_tag@ =~= seq![0x63u8]);
    }
    if parts.len() < 3 || (!bytes_equal(&parts[0], r_tag.as_slice()) && !bytes_equal(&parts[0], c_tag.as_slice())) {
        return Err(CoordsError::InvalidFormat);
    }
    let region_x = match parse_i32(parts[1].as_slice()) {
        Ok(v) => v,
        Err(e) => {
            return Err(CoordsError::ParseInt(e));
        },
    };
    let region_z = match parse_i32(parts[2].as_slice()) {
        Ok(v) => v,
        Err(e) => {
            return Err(CoordsError::ParseInt(e));
        },
    };
    Ok((region_x, region_z))
}

/// The decimal digits of a natural number.
pub open spec fn digits(n: nat) -> Seq<u8>
    decreases n,
{
    if n < 10 {
        seq![(0x30 + n) as u8]
    } else {
        digits(n / 10).push((0x30 + n % 10) as u8)
    }
}

/// An integer in decimal, with a `-` in front when negative.
pub open spec fn decimal(v: int) -> Seq<u8> {
    if v < 0 {
        seq![0x2Du8] + digits((-v) as nat)
    } else {
        digits(v as nat)
    }
}

/// The name of the external file of the chunk at `(x, z)`: `c.<x>.<z>.mcc`.
pub open spec fn mcc_name(x: int, z: int) -> Seq<u8> {
    seq![0x63u8, 0x2E] + decimal(x) + seq![0x2Eu8] + decimal(z) + seq![0x2Eu8, 0x6D, 0x63, 0x63]
}

/// The digits of a number are decimal digits, at least one.
proof fn lemma_digits_are_digits(n: nat)
    ensures
        digits(n).len() >= 1,
        forall|i: int| 0 <= i < digits(n).len() ==> is_digit(#[trigger] digits(n)[i]),
    decreases n,
{
    if n >= 10 {
        lemma_digits_are_digits(n / 10);
    }
}

/// The digits of a number read back as the number, or as its negation when
/// read as negative, within the `i32` range.
proof fn lemma_parse_digits_of(n: nat, negative: bool)
    requires
        negative ==> n <= 0x8000_0000,
        !negative ==> n <= 0x7FFF_FFFF,
    ensures
        parse_digits(digits(n), 0, negative) == Ok::<int, IntErrorKind>(if negative {
            -n
        } else {
            n as int
        }),
    decreases n,
{
    if n < 10 {
        let c = (0x30 + n) as u8;
        assert(digits(n) == seq![c]);
        assert(seq![c].drop_first() =~= Seq::<u8>::empty());
        assert(c - 0x30 == n);
        let w: int = if negative { -n } else { n as int };
        assert(parse_digits(seq![c].drop_first(), w, negative) == Ok::<int, IntErrorKind>(w));
    } else {
        lemma_parse_digits_of(n / 10, negative);
        let c = (0x30 + n % 10) as u8;
        lemma_parse_digits_push(digits(n / 10), c, 0, negative);
        assert(seq![c].drop_first() =~= Seq::<u8>::empty());
        assert(c - 0x30 == n % 10);
        assert((n / 10) * 10 + n % 10 == n);
        assert(digits(n) == digits(n / 10).push(c));
        let v: int = if negative { -(n / 10) } else { (n / 10) as int };
        let w: int = if negative { -n } else { n as int };
        assert(parse_digits(seq![c].drop_first(), w, negative) == Ok::<int, IntErrorKind>(w));
        assert(parse_digits(seq![c], v, negative) == Ok::<int, IntErrorKind>(w));
    }
}

/// A number written in decimal reads back as itself.
pub proof fn lemma_decimal_parses(v: i32)
    ensures
        parse_i32_spec(decimal(v as int)) == Ok::<i32, IntErrorKind>(v),
        forall|i: int| 0 <= i < decimal(v as int).len() ==> #[trigger] decimal(v as int)[i] != dot(),
{
    if v < 0 {
        let n = (-v) as nat;
        lemma_digits_are_digits(n);
        lemma_parse_digits_of(n, true);
        let s = decimal(v as int);
        assert(s.drop_first() =~= digits(n));
        assert forall|i: int| 0 <= i < s.len() implies #[trigger] s[i] != dot() by {
            if i > 0 {
                assert(s[i] == digits(n)[i - 1]);
            }
        }
    } else {
        lemma_digits_are_digits(v as nat);
        lemma_parse_digits_of(v as nat, false);
        assert(is_digit(digits(v as nat)[0]));
    }
}

/// The name of the external file of the chunk at `(x, z)` reads back as `(x, z)`.
pub proof fn lemma_mcc_name_coords(x: i32, z: i32)
    ensures
        coords_spec(mcc_name(x as int, z as int)) == Ok::<(i32, i32), CoordsError>((x, z)),
{
    lemma_decimal_parses(x);
    lemma_decimal_parses(z);
    let c = seq![0x63u8];
    let m = seq![0x6Du8, 0x63, 0x63];
    let dx = decimal(x as int);
    let dz = decimal(z as int);
    assert forall|i: int| 0 <= i < c.len() implies c[i] != dot() by {}
    assert forall|i: int| 0 <= i < m.len() implies m[i] != dot() by {}
    lemma_split_dots_no_dot(c);
    lemma_split_dots_no_dot(dx);
    lemma_split_dots_no_dot(dz);
    lemma_split_dots_no_dot(m);
    let cx = c + seq![dot()] + dx;
    let cxz = cx + seq![dot()] + dz;
    lemma_split_dots_join(c, dx);
    lemma_split_dots_join(cx, dz);
    lemma_split_dots_join(cxz, m);
    assert(mcc_name(x as int, z as int) =~= cxz + seq![dot()] + m);
    let parts = split_dots(mcc_name(x as int, z as int));
    assert(parts =~= seq![c, dx, dz, m]);
}

/// Every byte is ASCII.
pub open spec fn all_ascii(s: Seq<u8>) -> bool {
    forall|i: int| 0 <= i < s.len() ==> #[trigger] s[i] < 0x80
}

fn push_digits(out: &mut Vec<u8>, n: u64)
    ensures
        final(out)@ == old(out)@ + digits(n as nat),
        all_ascii(old(out)@) ==> all_ascii(final(out)@),
    decreases n,
{
    if n >= 10 {
        push_digits(out, n / 10);
    }
    out.push((0x30 + n % 10) as u8);
    proof {
        assert(final(out)@ =~= old(out)@ + digits(n as nat));
    }
}

fn push_decimal(out: &mut Vec<u8>, v: i64)
    ensures
        final(out)@ == old(out)@ + decimal(v as int),
        all_ascii(old(out)@) ==> all_ascii(final(out)@),
{
    if v < 0 {
        out.push(0x2D);
        let magnitude = ((0 - (v + 1)) as u64) + 1;
        push_digits(out, magnitude);
        proof {
            assert(final(out)@ =~= old(out)@ + decimal(v as int));
        }
    } else {
        push_digits(out, v as u64);
    }
}

proof fn lemma_ascii_valid_utf8(s: Seq<u8>)
    requires
        all_ascii(s),
    ensures
        valid_utf8(s),
{
    broadcast use vstd::utf8::group_utf8_lib;

    assert(s.subrange(0, 0) =~= Seq::<u8>::empty());
    assert(valid_utf8(Seq::<u8>::empty()));
    assert forall|i: int| 0 <= 0 <= i < s.len() <= s.len() implies #[trigger] vstd::utf8::is_leading_byte_width_1(s[i]) by {
        assert(s[i] < 0x80);
    }
    vstd::utf8::partial_valid_utf8_extend_ascii_block(s, 0, s.len() as int);
    assert(s.subrange(0, s.len() as int) =~= s);
}

/// The names of the external files of the 1024 chunks of region `(x, z)`, in
/// chunk order.
pub open spec fn mcc_candidates(x: i32, z: i32) -> Seq<Seq<char>> {
    Seq::new(1024, |i: int| decode_utf8(mcc_name(x * 32 + i % 32, z * 32 + i / 32)))
}

/// The candidate for chunk `i` of region `(x, z)` names the chunk at world
/// coordinates `32 * x + i % 32`, `32 * z + i / 32`, negative regions included.
pub proof fn lemma_mcc_candidate(x: i32, z: i32, i: int)
    requires
        0 <= i < 1024,
    ensures
        mcc_candidates(x, z)[i] == decode_utf8(mcc_name(32 * (x as int) + i % 32, 32 * (z as int) + i / 32)),
{
}

/// The names that occur among `present`, in order.
pub open spec fn names_present(cands: Seq<Seq<char>>, present: Seq<Seq<char>>) -> Seq<Seq<char>>
    decreases cands.len(),
{
    if cands.len() == 0 {
        Seq::empty()
    } else if present.contains(cands.last()) {
        names_present(cands.drop_last(), present).push(cands.last())
    } else {
        names_present(cands.drop_last(), present)
    }
}

/// A candidate that is present is among the names found, and every name
/// found is present.
proof fn lemma_names_present(cands: Seq<Seq<char>>, present: Seq<Seq<char>>)
    ensures
        forall|i: int|
            0 <= i < cands.len() && present.contains(cands[i]) ==> #[trigger] names_present(
                cands,
                present,
            ).contains(cands[i]),
        forall|n: Seq<char>| #[trigger] names_present(cands, present).contains(n) ==> present.contains(n),
    decreases cands.len(),
{
    if cands.len() > 0 {
        let init = cands.drop_last();
        lemma_names_present(init, present);
        let f0 = names_present(init, present);
        assert forall|i: int| 0 <= i < cands.len() && present.contains(cands[i]) implies #[trigger] names_present(
            cands,
            present,
        ).contains(cands[i]) by {
            if i < cands.len() - 1 {
                assert(init[i] == cands[i]);
                assert(f0.contains(cands[i]));
                if present.contains(cands.last()) {
                    let k = choose|k: int| 0 <= k < f0.len() && f0[k] == cands[i];
                    assert(f0.push(cands.last())[k] == cands[i]);
                }
            } else {
                assert(f0.push(cands.last())[f0.len() as int] == cands[i]);
            }
        }
        assert forall|n: Seq<char>| #[trigger] names_present(cands, present).contains(n) implies present.contains(n) by {
            if present.contains(cands.last()) {
                let f = f0.push(cands.last());
                let k = choose|k: int| 0 <= k < f.len() && f[k] == n;
                if k < f0.len() {
                    assert(f0[k] == n);
                    assert(f0.contains(n));
                }
            } else {
                assert(names_present(cands, present) == f0);
                assert(f0.contains(n));
            }
        }
    }
}

/// The file names as character sequences.
pub open spec fn names_view(v: Seq<String>) -> Seq<Seq<char>> {
    Seq::new(v.len(), |i: int| v[i]@)
}

fn name_present(files: &Vec<String>, name: &String) -> (b: bool)
    ensures
        b == names_view(files@).contains(name@),
{
    let n = files.len();
    for i in 0..n
        invariant
            n == files@.len(),
            forall|k: int| 0 <= k < i ==> files@[k]@ != name@,
    {
        if files[i] == *name {
            assert(names_view(files@)[i as int] == name@);
            return true;
        }
    }
    proof {
        if names_view(files@).contains(name@) {
            let k = choose|k: int| 0 <= k < names_view(files@).len() && names_view(files@)[k] == name@;
            assert(files@[k]@ == name@);
        }
    }
    false
}

/// The external chunk files of a region, given the name of its region file
/// and the names of the files in its directory: for each of its 1024 chunks
/// in order, `c.<x>.<z>.mcc` if that name is present; `None` when none is.
pub fn collect_mcc_files(file_name: &str, files_in_dir: &Vec<String>) -> (r: Result<Option<Vec<String>>, CoordsError>)
    ensures
        match coords_spec(encode_utf8(file_name@)) {
            Err(e) => r == Err::<Option<Vec<String>>, CoordsError>(e),
            Ok((x, z)) => {
                let found = names_present(mcc_candidates(x, z), names_view(files_in_dir@));
                &&& found.len() == 0 ==> r == Ok::<Option<Vec<String>>, CoordsError>(None)
                &&& found.len() > 0 ==> (r matches Ok(Some(v)) && names_view(v@) == found)
            },
        },
        match coords_spec(encode_utf8(file_name@)) {
            Err(_) => true,
            Ok((x, z)) => forall|cx: int, cz: int|
                32 * x <= cx < 32 * x + 32 && 32 * z <= cz < 32 * z + 32 && names_view(files_in_dir@).contains(
                    #[trigger] decode_utf8(mcc_name(cx, cz)),
                ) ==> (r matches Ok(Some(v)) && names_view(v@).contains(decode_utf8(mcc_name(cx, cz)))),
        },
        r matches Ok(Some(v)) ==> forall|n: Seq<char>|
            #[trigger] names_view(v@).contains(n) ==> names_view(files_in_dir@).contains(n),
{
    let (region_x, region_z) = parse_region_coords(file_name)?;
    let ghost cands = mcc_candidates(region_x, region_z);
    let ghost present = names_view(files_in_dir@);
    let mut files: Vec<String> = Vec::new();
    for i in 0..1024
        invariant
            cands == mcc_candidates(region_x, region_z),
            present == names_view(files_in_dir@),
            names_view(files@) == names_present(cands.take(i as int), present),
    {
        let chunk_x = region_x as i64 * 32 + (i % 32) as i64;
        let chunk_z = region_z as i64 * 32 + (i / 32) as i64;
        let mut name: Vec<u8> = Vec::new();
        name.push(0x63);
        name.push(0x2E);
        push_decimal(&mut name, chunk_x);
        name.push(0x2E);
        push_decimal(&mut name, chunk_z);
        name.push(0x2E);
        name.push(0x6D);
        name.push(0x63);
        name.push(0x63);
        proof {
            assert(name@ =~= mcc_name(region_x * 32 + i % 32, region_z * 32 + i / 32));
            lemma_ascii_valid_utf8(name@);
            assert(cands.take(i + 1).drop_last() =~= cands.take(i as int));
            assert(cands.take(i + 1).last() == cands[i as int]);
        }
        let candidate = match string_from_utf8(name) {
            Some(s) => s,
            None => {
                return Ok(None);
            },
        };
        if name_present(files_in_dir, &candidate) {
            let ghost before = names_view(files@);
            files.push(candidate);
            proof {
                assert(names_view(files@) =~= before.push(cands[i as int]));
            }
        }
    }
    proof {
        assert(cands.take(1024) =~= cands);
        lemma_names_present(cands, present);
        assert forall|cx: int, cz: int|
            32 * region_x <= cx < 32 * region_x + 32 && 32 * region_z <= cz < 32 * region_z + 32
                && present.contains(#[trigger] decode_utf8(mcc_name(cx, cz))) implies names_present(
            cands,
            present,
        ).contains(decode_utf8(mcc_name(cx, cz))) by {
            let i = (cz - 32 * region_z) * 32 + (cx - 32 * region_x);
            assert(0 <= i < 1024);
            assert(i % 32 == cx - 32 * region_x && i / 32 == cz - 32 * region_z);
            assert(cands[i] == decode_utf8(mcc_name(cx, cz)));
        }
    }
    if files.len() == 0 {
        Ok(None)
    } else {
        Ok(Some(files))
    }
}

/// The first bytes of a linear file: the magic, then the version.
#[derive(Debug, Clone, Copy, PartialEq, Eq, Structural)]
pub struct Linear {
    pub version: u8,
}

impl Linear {
    /// Reads the magic and version at `pos`.
    pub fn read(data: &[u8], pos: usize) -> (r: Result<Linear, Error>)
        ensures
            pos + 8 > data@.len() ==> r == Err::<Linear, Error>(Error::UnexpectedEof),
            pos + 8 <= data@.len() && data@.subrange(pos as int, pos + 8) != MAGIC@ ==> r == Err::<Linear, Error>(
                Error::BadMagic,
            ),
            pos + 8 <= data@.len() && data@.subrange(pos as int, pos + 8) == MAGIC@ ==> (pos + 9 > data@.len()
                ==> r == Err::<Linear, Error>(Error::UnexpectedEof)) && (pos + 9 <= data@.len() ==> r == Ok::<
                Linear,
                Error,
            >(Linear { version: data@[pos + 8] })),
    {
        if pos > data.len() || data.len() - pos < 8 {
            return Err(Error::UnexpectedEof);
        }
        if !has_magic_at(data, pos, &MAGIC) {
            return Err(Error::BadMagic);
        }
        if data.len() - pos < 9 {
            return Err(Error::UnexpectedEof);
        }
        Ok(Linear { version: data[pos + 8] })
    }
}

/// The kinds of region file.
#[derive(Debug, Clone, Copy, PartialEq, Eq, Structural)]
pub enum FileType {
    Anvil,
    LinearV1,
    LinearV2,
}

/// What the first bytes of a file say of its kind: no linear magic means
/// anvil (which has no magic of its own); linear versions 1 and 2 are v1,
/// version 3 is v2.
pub open spec fn file_type_spec(s: Seq<u8>) -> Result<FileType, Error> {
    if s.len() < 8 {
        Err(Error::UnexpectedEof)
    } else if s.subrange(0, 8) != MAGIC@ {
        Ok(FileType::Anvil)
    } else if s.len() < 9 {
        Err(Error::UnexpectedEof)
    } else if s[8] == 1 || s[8] == 2 {
        Ok(FileType::LinearV1)
    } else if s[8] == 3 {
        Ok(FileType::LinearV2)
    } else {
        Err(Error::UnknownLinearVersion(s[8]))
    }
}

/// Tells the kind of a region file from its first bytes.
pub fn get_file_type(header: &[u8]) -> (r: Result<FileType, Error>)
    ensures
        r == file_type_spec(header@),
{
    match Linear::read(header, 0) {
        Err(Error::BadMagic) => Ok(FileType::Anvil),
        Err(e) => Err(e),
        Ok(linear) => {
            if linear.version == 1 || linear.version == 2 {
                Ok(FileType::LinearV1)
            } else if linear.version == 3 {
                Ok(FileType::LinearV2)
            } else {
                Err(Error::UnknownLinearVersion(linear.version))
            }
        },
    }
}

/// A written linear v2 superblock says the kind of its file by its version:
/// 1 and 2 are v1 files, 3 a v2 file, any other version is refused.
pub proof fn lemma_superblock_file_type(sb: LinearSuperBlock, rest: Seq<u8>)
    ensures
        file_type_spec(linear_superblock_bytes(sb) + rest) == if sb.version == 1 || sb.version == 2 {
            Ok::<FileType, Error>(FileType::LinearV1)
        } else if sb.version == 3 {
            Ok::<FileType, Error>(FileType::LinearV2)
        } else {
            Err::<FileType, Error>(Error::UnknownLinearVersion(sb.version))
        },
{
    lemma_linear_superblock_roundtrip(sb, rest);
    let s = linear_superblock_bytes(sb) + rest;
    assert(s.subrange(0, 8) =~= MAGIC@);
    assert(s[8] == sb.version);
}

} // verus!
