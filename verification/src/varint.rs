//! Byte-level integer primitives of the tile wire format.
//!
//! Unsigned values are written as a variable-length integer: values up to
//! 250 as a single byte, larger ones as a marker byte (251, 252 or 253)
//! followed by the value in 2, 4 or 8 little-endian bytes.  Signed values
//! are first mapped to unsigned ones by the zigzag scheme, which stores
//! small magnitudes of either sign in small codes.

use vstd::prelude::*;

verus! {

/// The zigzag image of `v`: `0, -1, 1, -2, 2, ...` map to `0, 1, 2, 3, 4, ...`.
pub open spec fn spec_zigzag(v: i64) -> u64 {
    if v >= 0 {
        (2 * v) as u64
    } else {
        (-2 * v - 1) as u64
    }
}

/// The inverse of [`spec_zigzag`].
pub open spec fn spec_unzigzag(u: u64) -> i64 {
    if u % 2 == 0 {
        (u / 2) as i64
    } else {
        (-((u / 2) as int) - 1) as i64
    }
}

/// Zigzag is undone exactly by its inverse.
pub proof fn lemma_zigzag_round(v: i64)
    ensures
        spec_unzigzag(spec_zigzag(v)) == v,
{
    if v >= 0 {
        assert((2 * v) as u64 % 2 == 0);
    } else {
        assert((-2 * v - 1) as u64 % 2 == 1);
    }
}

/// Map a signed value onto the unsigned code space.
pub fn zigzag(v: i64) -> (r: u64)
    ensures
        r == spec_zigzag(v),
{
    if v >= 0 {
        (v as u64) * 2
    } else {
        ((-(v + 1)) as u64) * 2 + 1
    }
}

/// Recover a signed value from its zigzag code.
pub fn unzigzag(u: u64) -> (r: i64)
    ensures
        r == spec_unzigzag(u),
{
    if u % 2 == 0 {
        (u / 2) as i64
    } else {
        -((u / 2) as i64) - 1
    }
}

/// `v` in two little-endian bytes.
pub open spec fn spec_le2(v: u64) -> Seq<u8> {
    seq![(v % 256) as u8, ((v / 256) % 256) as u8]
}

/// `v` in four little-endian bytes.
pub open spec fn spec_le4(v: u64) -> Seq<u8> {
    seq![
        (v % 256) as u8,
        ((v / 256) % 256) as u8,
        ((v / 0x10000) % 256) as u8,
        ((v / 0x1000000) % 256) as u8,
    ]
}

/// `v` in eight little-endian bytes.
pub open spec fn spec_le8(v: u64) -> Seq<u8> {
    seq![
        (v % 256) as u8,
        ((v / 256) % 256) as u8,
        ((v / 0x10000) % 256) as u8,
        ((v / 0x1000000) % 256) as u8,
        ((v / 0x100000000) % 256) as u8,
        ((v / 0x10000000000) % 256) as u8,
        ((v / 0x1000000000000) % 256) as u8,
        ((v / 0x100000000000000) % 256) as u8,
    ]
}

/// The variable-length encoding of an unsigned value.
pub open spec fn spec_varu64(v: u64) -> Seq<u8> {
    if v <= 250 {
        seq![v as u8]
    } else if v <= 0xFFFF {
        seq![251u8] + spec_le2(v)
    } else if v <= 0xFFFF_FFFF {
        seq![252u8] + spec_le4(v)
    } else {
        seq![253u8] + spec_le8(v)
    }
}

/// The encoding of a signed value: zigzag, then variable-length.
pub open spec fn spec_vari64(v: i64) -> Seq<u8> {
    spec_varu64(spec_zigzag(v))
}

/// Parse one unsigned value at `pos`, giving the value and the position
/// after it.  Fails on a truncated buffer and on the markers (254, 255)
/// that the format does not use.
pub open spec fn spec_parse_varu64(b: Seq<u8>, pos: int) -> Option<(u64, int)> {
    if !(0 <= pos < b.len()) {
        None
    } else {
        let tag = b[pos];
        if tag <= 250 {
            Some(((tag as u64), pos + 1))
        } else if tag == 251 {
            if pos + 3 <= b.len() {
                Some((((b[pos + 1] + 256 * b[pos + 2]) as u64), pos + 3))
            } else {
                None
            }
        } else if tag == 252 {
            if pos + 5 <= b.len() {
                Some((
                    ((b[pos + 1] + 256 * b[pos + 2] + 0x10000 * b[pos + 3] + 0x1000000 * b[pos
                        + 4]) as u64),
                    pos + 5,
                ))
            } else {
                None
            }
        } else if tag == 253 {
            if pos + 9 <= b.len() {
                Some((
                    ((b[pos + 1] + 256 * b[pos + 2] + 0x10000 * b[pos + 3] + 0x1000000 * b[pos + 4]
                        + 0x100000000 * b[pos + 5] + 0x10000000000 * b[pos + 6] + 0x1000000000000
                        * b[pos + 7] + 0x100000000000000 * b[pos + 8]) as u64),
                    pos + 9,
                ))
            } else {
                None
            }
        } else {
            None
        }
    }
}

/// Parse one signed value: an unsigned parse followed by unzigzag.
pub open spec fn spec_parse_vari64(b: Seq<u8>, pos: int) -> Option<(i64, int)> {
    match spec_parse_varu64(b, pos) {
        Some((u, p)) => Some((spec_unzigzag(u), p)),
        None => None,
    }
}

proof fn lemma_le2_value(v: u64)
    requires
        v <= 0xFFFF,
    ensures
        (v % 256) + 256 * ((v / 256) % 256) == v,
{
    let x = v as int;
    let q1 = x / 256;
    vstd::arithmetic::div_mod::lemma_multiply_divide_lt(x, 256, 256);
    vstd::arithmetic::div_mod::lemma_fundamental_div_mod(x, 256);
    assert(q1 % 256 == q1);
}

proof fn lemma_le4_value(v: u64)
    requires
        v <= 0xFFFF_FFFF,
    ensures
        (v % 256) + 256 * ((v / 256) % 256) + 0x10000 * ((v / 0x10000) % 256) + 0x1000000 * ((v
            / 0x1000000) % 256) == v,
{
    let x = v as int;
    let q1 = x / 256;
    let q2 = x / 0x10000;
    let q3 = x / 0x1000000;
    vstd::arithmetic::div_mod::lemma_div_denominator(x, 256, 256);
    vstd::arithmetic::div_mod::lemma_div_denominator(x, 0x10000, 256);
    assert(q1 / 256 == q2);
    assert(q2 / 256 == q3);
    vstd::arithmetic::div_mod::lemma_multiply_divide_lt(x, 0x1000000, 256);
    assert(q3 % 256 == q3);
    vstd::arithmetic::div_mod::lemma_fundamental_div_mod(x, 256);
    vstd::arithmetic::div_mod::lemma_fundamental_div_mod(q1, 256);
    vstd::arithmetic::div_mod::lemma_fundamental_div_mod(q2, 256);
    assert(x == x % 256 + 256 * q1);
    assert(q1 == q1 % 256 + 256 * q2);
    assert(q2 == q2 % 256 + 256 * q3);
    assert(x == x % 256 + 256 * (q1 % 256) + 0x10000 * (q2 % 256) + 0x1000000 * q3);
}

proof fn lemma_le8_value(v: u64)
    ensures
        (v % 256) + 256 * ((v / 256) % 256) + 0x10000 * ((v / 0x10000) % 256) + 0x1000000 * ((v
            / 0x1000000) % 256) + 0x100000000 * ((v / 0x100000000) % 256) + 0x10000000000 * ((v
            / 0x10000000000) % 256) + 0x1000000000000 * ((v / 0x1000000000000) % 256)
            + 0x100000000000000 * ((v / 0x100000000000000) % 256) == v,
{
    let x = v as int;
    let q1 = x / 256;
    let q2 = x / 0x10000;
    let q3 = x / 0x1000000;
    let q4 = x / 0x100000000;
    let q5 = x / 0x10000000000;
    let q6 = x / 0x1000000000000;
    let q7 = x / 0x100000000000000;
    vstd::arithmetic::div_mod::lemma_div_denominator(x, 256, 256);
    vstd::arithmetic::div_mod::lemma_div_denominator(x, 0x10000, 256);
    vstd::arithmetic::div_mod::lemma_div_denominator(x, 0x1000000, 256);
    vstd::arithmetic::div_mod::lemma_div_denominator(x, 0x100000000, 256);
    vstd::arithmetic::div_mod::lemma_div_denominator(x, 0x10000000000, 256);
    vstd::arithmetic::div_mod::lemma_div_denominator(x, 0x1000000000000, 256);
    assert(q1 / 256 == q2);
    assert(q2 / 256 == q3);
    assert(q3 / 256 == q4);
    assert(q4 / 256 == q5);
    assert(q5 / 256 == q6);
    assert(q6 / 256 == q7);
    vstd::arithmetic::div_mod::lemma_multiply_divide_lt(x, 0x100000000000000, 256);
    assert(q7 % 256 == q7);
    vstd::arithmetic::div_mod::lemma_fundamental_div_mod(x, 256);
    vstd::arithmetic::div_mod::lemma_fundamental_div_mod(q1, 256);
    vstd::arithmetic::div_mod::lemma_fundamental_div_mod(q2, 256);
    vstd::arithmetic::div_mod::lemma_fundamental_div_mod(q3, 256);
    vstd::arithmetic::div_mod::lemma_fundamental_div_mod(q4, 256);
    vstd::arithmetic::div_mod::lemma_fundamental_div_mod(q5, 256);
    vstd::arithmetic::div_mod::lemma_fundamental_div_mod(q6, 256);
    assert(x == x % 256 + 256 * q1);
    assert(q1 == q1 % 256 + 256 * q2);
    assert(q2 == q2 % 256 + 256 * q3);
    assert(q3 == q3 % 256 + 256 * q4);
    assert(q4 == q4 % 256 + 256 * q5);
    assert(q5 == q5 % 256 + 256 * q6);
    assert(q6 == q6 % 256 + 256 * q7);
    assert(x == x % 256 + 256 * (q1 % 256) + 0x10000 * (q2 % 256) + 0x1000000 * (q3 % 256)
        + 0x100000000 * (q4 % 256) + 0x10000000000 * (q5 % 256) + 0x1000000000000 * (q6 % 256)
        + 0x100000000000000 * q7);
}

/// Parsing recovers any value from its encoding, wherever the encoding
/// stands inside a larger buffer.
pub proof fn lemma_parse_varu64(b: Seq<u8>, pos: int, v: u64)
    requires
        0 <= pos,
        pos + spec_varu64(v).len() <= b.len(),
        b.subrange(pos, pos + spec_varu64(v).len()) == spec_varu64(v),
    ensures
        spec_parse_varu64(b, pos) == Some((v, pos + spec_varu64(v).len())),
{
    let e = spec_varu64(v);
    let sub = b.subrange(pos, pos + e.len());
    if v <= 250 {
        assert(b[pos] == sub[0] && sub[0] == e[0]);
    } else if v <= 0xFFFF {
        assert(e[0] == 251 && e[1] == (v % 256) as u8 && e[2] == ((v / 256) % 256) as u8);
        assert(b[pos] == sub[0] && b[pos + 1] == sub[1] && b[pos + 2] == sub[2]);
        lemma_le2_value(v);
    } else if v <= 0xFFFF_FFFF {
        assert(e[0] == 252 && e[1] == (v % 256) as u8 && e[2] == ((v / 256) % 256) as u8 && e[3]
            == ((v / 0x10000) % 256) as u8 && e[4] == ((v / 0x1000000) % 256) as u8);
        assert(b[pos] == sub[0] && b[pos + 1] == sub[1] && b[pos + 2] == sub[2] && b[pos + 3]
            == sub[3] && b[pos + 4] == sub[4]);
        lemma_le4_value(v);
    } else {
        assert(e[0] == 253 && e[1] == (v % 256) as u8 && e[2] == ((v / 256) % 256) as u8 && e[3]
            == ((v / 0x10000) % 256) as u8 && e[4] == ((v / 0x1000000) % 256) as u8 && e[5] == ((v
            / 0x100000000) % 256) as u8 && e[6] == ((v / 0x10000000000) % 256) as u8 && e[7] == ((v
            / 0x1000000000000) % 256) as u8 && e[8] == ((v / 0x100000000000000) % 256) as u8);
        assert(b[pos] == sub[0] && b[pos + 1] == sub[1] && b[pos + 2] == sub[2] && b[pos + 3]
            == sub[3] && b[pos + 4] == sub[4] && b[pos + 5] == sub[5] && b[pos + 6] == sub[6] && b[
            pos + 7] == sub[7] && b[pos + 8] == sub[8]);
        lemma_le8_value(v);
    }
}

/// Signed counterpart of [`lemma_parse_varu64`].
pub proof fn lemma_parse_vari64(b: Seq<u8>, pos: int, v: i64)
    requires
        0 <= pos,
        pos + spec_vari64(v).len() <= b.len(),
        b.subrange(pos, pos + spec_vari64(v).len()) == spec_vari64(v),
    ensures
        spec_parse_vari64(b, pos) == Some((v, pos + spec_vari64(v).len())),
{
    lemma_parse_varu64(b, pos, spec_zigzag(v));
    lemma_zigzag_round(v);
}

/// Append the encoding of an unsigned value.
pub fn push_varu64(out: &mut Vec<u8>, v: u64)
    ensures
        final(out)@ == old(out)@ + spec_varu64(v),
{
    if v <= 250 {
        out.push(v as u8);
        assert(out@ =~= old(out)@ + spec_varu64(v));
    } else if v <= 0xFFFF {
        out.push(251);
        out.push((v % 256) as u8);
        out.push(((v / 256) % 256) as u8);
        assert(out@ =~= old(out)@ + spec_varu64(v));
    } else if v <= 0xFFFF_FFFF {
        out.push(252);
        out.push((v % 256) as u8);
        out.push(((v / 256) % 256) as u8);
        out.push(((v / 0x10000) % 256) as u8);
        out.push(((v / 0x1000000) % 256) as u8);
        assert(out@ =~= old(out)@ + spec_varu64(v));
    } else {
        out.push(253);
        out.push((v % 256) as u8);
        out.push(((v / 256) % 256) as u8);
        out.push(((v / 0x10000) % 256) as u8);
        out.push(((v / 0x1000000) % 256) as u8);
        out.push(((v / 0x100000000) % 256) as u8);
        out.push(((v / 0x10000000000) % 256) as u8);
        out.push(((v / 0x1000000000000) % 256) as u8);
        out.push(((v / 0x100000000000000) % 256) as u8);
        assert(out@ =~= old(out)@ + spec_varu64(v));
    }
}

/// Append the encoding of a signed value.
pub fn push_vari64(out: &mut Vec<u8>, v: i64)
    ensures
        final(out)@ == old(out)@ + spec_vari64(v),
{
    let u = zigzag(v);
    push_varu64(out, u);
}

/// Parse one unsigned value at `pos`, as [`spec_parse_varu64`] describes.
pub fn read_varu64(b: &Vec<u8>, pos: usize) -> (r: Option<(u64, usize)>)
    ensures
        match r {
            Some((v, p)) => {
                &&& spec_parse_varu64(b@, pos as int) == Some((v, p as int))
                &&& pos < p <= b@.len()
            },
            None => spec_parse_varu64(b@, pos as int) is None,
        },
{
    if pos >= b.len() {
        return None;
    }
    let tag = b[pos];
    if tag <= 250 {
        Some((tag as u64, pos + 1))
    } else if tag == 251 {
        if b.len() - pos < 3 {
            None
        } else {
            let v = b[pos + 1] as u64 + 256 * (b[pos + 2] as u64);
            Some((v, pos + 3))
        }
    } else if tag == 252 {
        if b.len() - pos < 5 {
            None
        } else {
            let v = b[pos + 1] as u64 + 256 * (b[pos + 2] as u64) + 0x10000 * (b[pos + 3] as u64)
                + 0x1000000 * (b[pos + 4] as u64);
            Some((v, pos + 5))
        }
    } else if tag == 253 {
        if b.len() - pos < 9 {
            None
        } else {
            let v = b[pos + 1] as u64 + 256 * (b[pos + 2] as u64) + 0x10000 * (b[pos + 3] as u64)
                + 0x1000000 * (b[pos + 4] as u64) + 0x100000000 * (b[pos + 5] as u64)
                + 0x10000000000 * (b[pos + 6] as u64) + 0x1000000000000 * (b[pos + 7] as u64)
                + 0x100000000000000 * (b[pos + 8] as u64);
            Some((v, pos + 9))
        }
    } else {
        None
    }
}

/// Parse one signed value at `pos`, as [`spec_parse_vari64`] describes.
pub fn read_vari64(b: &Vec<u8>, pos: usize) -> (r: Option<(i64, usize)>)
    ensures
        match r {
            Some((v, p)) => {
                &&& spec_parse_vari64(b@, pos as int) == Some((v, p as int))
                &&& pos < p <= b@.len()
            },
            None => spec_parse_vari64(b@, pos as int) is None,
        },
{
    match read_varu64(b, pos) {
        Some((u, p)) => Some((unzigzag(u), p)),
        None => None,
    }
}

} // verus!
