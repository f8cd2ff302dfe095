//! Reading region coordinates out of file names such as `r.-3.7.linear`.

use vstd::prelude::*;

use vstd::utf8::encode_utf8;

use crate::error::CoordsError;
use crate::error::IntErrorKind;

verus! {

/// The byte of `.`.
pub open spec fn dot() -> u8 {
    0x2Eu8
}

/// The pieces of a byte string between dots (there is always at least one).
pub open spec fn split_dots(s: Seq<u8>) -> Seq<Seq<u8>>
    decreases s.len(),
{
    if s.len() == 0 {
        seq![Seq::empty()]
    } else {
        let init = split_dots(s.drop_last());
        if s.last() == dot() {
            init.push(Seq::empty())
        } else {
            init.update(init.len() - 1, init.last().push(s.last()))
        }
    }
}

pub proof fn lemma_split_dots_nonempty(s: Seq<u8>)
    ensures
        split_dots(s).len() >= 1,
    decreases s.len(),
{
    if s.len() > 0 {
        lemma_split_dots_nonempty(s.drop_last());
    }
}

/// Splits a byte string at its dots.
pub fn split_at_dots(s: &[u8]) -> (parts: Vec<Vec<u8>>)
    ensures
        parts@.len() == split_dots(s@).len(),
        forall|i: int| 0 <= i < parts@.len() ==> (#[trigger] parts@[i])@ == split_dots(s@)[i],
{
    let mut done: Vec<Vec<u8>> = Vec::new();
    let mut current: Vec<u8> = Vec::new();
    let n = s.len();
    for k in 0..n
        invariant
            n == s@.len(),
            split_dots(s@.take(k as int)).len() == done@.len() + 1,
            forall|i: int| 0 <= i < done@.len() ==> (#[trigger] done@[i])@ == split_dots(s@.take(k as int))[i],
            current@ == split_dots(s@.take(k as int)).last(),
    {
        proof {
            assert(s@.take(k + 1).drop_last() =~= s@.take(k as int));
            lemma_split_dots_nonempty(s@.take(k as int));
        }
        if s[k] == 0x2E {
            let mut fresh: Vec<u8> = Vec::new();
            std::mem::swap(&mut fresh, &mut current);
            done.push(fresh);
        } else {
            current.push(s[k]);
        }
    }
    done.push(current);
    proof {
        assert(s@.take(n as int) =~= s@);
    }
    done
}

/// Whether a byte is an ASCII digit.
pub open spec fn is_digit(c: u8) -> bool {
    0x30 <= c <= 0x39
}

/// Reading decimal digits left to right onto `acc` (subtracting them when
/// `negative`): the first non-digit, or the first prefix whose value leaves
/// the `i32` range, is an error.
pub open spec fn parse_digits(ds: Seq<u8>, acc: int, negative: bool) -> Result<int, IntErrorKind>
    decreases ds.len(),
{
    if ds.len() == 0 {
        Ok(acc)
    } else if !is_digit(ds[0]) {
        Err(IntErrorKind::InvalidDigit)
    } else {
        let d = ds[0] - 0x30;
        let v = if negative {
            acc * 10 - d
        } else {
            acc * 10 + d
        };
        if v > i32::MAX {
            Err(IntErrorKind::PosOverflow)
        } else if v < i32::MIN {
            Err(IntErrorKind::NegOverflow)
        } else {
            parse_digits(ds.drop_first(), v, negative)
        }
    }
}

/// What reading a decimal `i32` gives: an optional `+` or `-`, then digits.
pub open spec fn parse_i32_spec(s: Seq<u8>) -> Result<i32, IntErrorKind> {
    if s.len() == 0 {
        Err(IntErrorKind::Empty)
    } else if s.len() == 1 && (s[0] == 0x2B || s[0] == 0x2D) {
        Err(IntErrorKind::InvalidDigit)
    } else {
        let negative = s[0] == 0x2D;
        let ds = if s[0] == 0x2B || s[0] == 0x2D {
            s.drop_first()
        } else {
            s
        };
        match parse_digits(ds, 0, negative) {
            Ok(v) => Ok(v as i32),
            Err(e) => Err(e),
        }
    }
}

pub proof fn lemma_parse_digits_range(ds: Seq<u8>, acc: int, negative: bool)
    requires
        i32::MIN <= acc <= i32::MAX,
    ensures
        parse_digits(ds, acc, negative) matches Ok(v) ==> i32::MIN <= v <= i32::MAX,
    decreases ds.len(),
{
    if ds.len() > 0 && is_digit(ds[0]) {
        let d = ds[0] - 0x30;
        let v = if negative {
            acc * 10 - d
        } else {
            acc * 10 + d
        };
        if i32::MIN <= v <= i32::MAX {
            lemma_parse_digits_range(ds.drop_first(), v, negative);
        }
    }
}

/// A string with no dot is one piece.
pub proof fn lemma_split_dots_no_dot(t: Seq<u8>)
    requires
        forall|i: int| 0 <= i < t.len() ==> t[i] != dot(),
    ensures
        split_dots(t) == seq![t],
    decreases t.len(),
{
    if t.len() == 0 {
        assert(t =~= Seq::<u8>::empty());
    } else {
        lemma_split_dots_no_dot(t.drop_last());
        assert(t.drop_last().push(t.last()) =~= t);
        assert(seq![t.drop_last()].update(0, t.drop_last().push(t.last())) =~= seq![t]);
    }
}

/// The pieces of two strings joined by a dot are the pieces of each.
pub proof fn lemma_split_dots_join(s: Seq<u8>, t: Seq<u8>)
    ensures
        split_dots(s + seq![dot()] + t) == split_dots(s) + split_dots(t),
    decreases t.len(),
{
    let j = s + seq![dot()] + t;
    lemma_split_dots_nonempty(s);
    if t.len() == 0 {
        assert(j.drop_last() =~= s);
        assert(split_dots(s).push(Seq::<u8>::empty()) =~= split_dots(s) + split_dots(t));
    } else {
        lemma_split_dots_join(s, t.drop_last());
        lemma_split_dots_nonempty(t.drop_last());
        assert(j.drop_last() =~= s + seq![dot()] + t.drop_last());
        assert(j.last() == t.last());
        let a = split_dots(s);
        let b = split_dots(t.drop_last());
        if t.last() == dot() {
            assert((a + b).push(Seq::<u8>::empty()) =~= a + b.push(Seq::<u8>::empty()));
        } else {
            assert((a + b).update((a + b).len() - 1, (a + b).last().push(t.last())) =~= a + b.update(
                b.len() - 1,
                b.last().push(t.last()),
            ));
        }
    }
}

/// Reading one more digit after the others.
pub proof fn lemma_parse_digits_push(ds: Seq<u8>, c: u8, acc: int, negative: bool)
    ensures
        parse_digits(ds.push(c), acc, negative) == match parse_digits(ds, acc, negative) {
            Err(e) => Err(e),
            Ok(v) => parse_digits(seq![c], v, negative),
        },
    decreases ds.len(),
{
    if ds.len() == 0 {
        assert(ds.push(c) =~= seq![c]);
    } else {
        assert(ds.push(c).drop_first() =~= ds.drop_first().push(c));
        assert(ds.push(c)[0] == ds[0]);
        if is_digit(ds[0]) {
            let d = ds[0] - 0x30;
            let v = if negative {
                acc * 10 - d
            } else {
                acc * 10 + d
            };
            lemma_parse_digits_push(ds.drop_first(), c, v, negative);
        }
    }
}

/// Reads a decimal `i32` as `str::parse` does: an optional `+` or `-`, then digits.
pub fn parse_i32(s: &[u8]) -> (r: Result<i32, IntErrorKind>)
    ensures
        r == parse_i32_spec(s@),
{
    let n = s.len();
    if n == 0 {
        return Err(IntErrorKind::Empty);
    }
    let first = s[0];
    if n == 1 && (first == 0x2B || first == 0x2D) {
        return Err(IntErrorKind::InvalidDigit);
    }
    let negative = first == 0x2D;
    let start: usize = if first == 0x2B || first == 0x2D {
        1
    } else {
        0
    };
    let ghost ds = if first == 0x2B || first == 0x2D {
        s@.drop_first()
    } else {
        s@
    };
    let mut acc: i64 = 0;
    proof {
        assert(s@.skip(start as int) =~= ds);
    }
    assert(parse_i32_spec(s@) == match parse_digits(ds, 0, negative) {
        Ok(v) => Ok(v as i32),
        Err(e) => Err(e),
    });
    for k in start..n
        invariant
            parse_i32_spec(s@) == match parse_digits(ds, 0, negative) {
                Ok(v) => Ok(v as i32),
                Err(e) => Err(e),
            },
            n == s@.len(),
            start <= n,
            ds == s@.skip(start as int),
            i32::MIN <= acc <= i32::MAX,
            parse_digits(ds, 0, negative) == parse_digits(s@.skip(k as int), acc as int, negative),
    {
        let c = s[k];
        proof {
            assert(s@.skip(k as int)[0] == c);
            assert(s@.skip(k as int).drop_first() =~= s@.skip(k + 1));
        }
        if c < 0x30 || c > 0x39 {
            return Err(IntErrorKind::InvalidDigit);
        }
        let d = (c - 0x30) as i64;
        let v = if negative {
            acc * 10 - d
        } else {
            acc * 10 + d
        };
        if v > 2147483647 {
            return Err(IntErrorKind::PosOverflow);
        }
        if v < -2147483648 {
            return Err(IntErrorKind::NegOverflow);
        }
        acc = v;
    }
    proof {
        assert(s@.skip(n as int).len() == 0);
    }
    Ok(acc as i32)
}

/// What reading region coordinates out of a file name's bytes gives: the name
/// must be `r.<x>.<z>.linear`.
pub open spec fn region_coords_spec(name: Seq<u8>) -> Result<(i32, i32), CoordsError> {
    let parts = split_dots(name);
    if parts.len() != 4 || parts[0] != seq![0x72u8] || parts[3] != seq![0x6Cu8, 0x69, 0x6E, 0x65, 0x61, 0x72] {
        Err(CoordsError::InvalidFormat)
    } else {
        match parse_i32_spec(parts[1]) {
            Err(e) => Err(CoordsError::ParseInt(e)),
            Ok(x) => match parse_i32_spec(parts[2]) {
                Err(e) => Err(CoordsError::ParseInt(e)),
                Ok(z) => Ok((x, z)),
            },
        }
    }
}

/// Whether a byte vector holds exactly the given bytes.
pub fn bytes_equal(a: &Vec<u8>, b: &[u8]) -> (r: bool)
    ensures
        r == (a@ == b@),
{
    if a.len() != b.len() {
        return false;
    }
    let n = a.len();
    for k in 0..n
        invariant
            n == a@.len(),
            n == b@.len(),
            forall|t: int| 0 <= t < k ==> a@[t] == b@[t],
    {
        if a[k] != b[k] {
            return false;
        }
    }
    assert(a@ =~= b@);
    true
}

/// Reads the region coordinates `(x, z)` out of a file name of the form
/// `r.<x>.<z>.linear`.
pub fn parse_region_coords(file_name: &str) -> (r: Result<(i32, i32), CoordsError>)
    ensures
        r == region_coords_spec(encode_utf8(file_name@)),
{
    let name = file_name.as_bytes();
    let parts = split_at_dots(name);
    let r_tag: [u8; 1] = [0x72];
    let linear_tag: [u8; 6] = [0x6C, 0x69, 0x6E, 0x65, 0x61, 0x72];
    proof {
        assert(r_tag@ =~= seq![0x72u8]);
        assert(linear_tag@ =~= seq![0x6Cu8, 0x69, 0x6E, 0x65, 0x61, 0x72]);
    }
    if parts.len() != 4 || !bytes_equal(&parts[0], r_tag.as_slice()) || !bytes_equal(&parts[3], linear_tag.as_slice()) {
        return Err(CoordsError::InvalidFormat);
    }
    let region_x = match parse_i32(parts[1].as_slice()) {
        Ok(v) => v,
        Err(e) => {
            return Err(CoordsError::ParseInt(e));
        },
    };
    let region_z = match parse_i32(parts[2].as_slice()) {
        Ok(v) => v,
        Err(e) => {
            return Err(CoordsError::ParseInt(e));
        },
    };
    Ok((region_x, region_z))
}

} // verus!
