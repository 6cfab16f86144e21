//! Column-level wire format of a tile record.
//!
//! Every sequence is written as a variable-length count followed by its
//! elements; strings are written as their UTF-8 bytes with a byte count in
//! front; the string table is a sequence of `(text, id)` entries.  Parsing
//! is specified as a total function on byte sequences, and proved to
//! recover whatever the builders wrote.

use vstd::prelude::*;
use crate::varint::{
    push_varu64, push_vari64, read_varu64, read_vari64, spec_varu64, spec_vari64,
    spec_parse_varu64, spec_parse_vari64, lemma_parse_varu64, lemma_parse_vari64,
};
use vstd::utf8::{encode_utf8, decode_utf8, valid_utf8};

verus! {

/// Bytes of the elements of an `i64` column, in order.
pub open spec fn spec_i64_elems(s: Seq<i64>) -> Seq<u8>
    decreases s.len(),
{
    if s.len() == 0 {
        Seq::empty()
    } else {
        spec_vari64(s.first()) + spec_i64_elems(s.drop_first())
    }
}

/// An `i64` column: element count, then elements.
pub open spec fn spec_i64_col(s: Seq<i64>) -> Seq<u8> {
    spec_varu64(s.len() as u64) + spec_i64_elems(s)
}

/// Bytes of the elements of an `i32` column; each element is widened to
/// `i64` before encoding.
pub open spec fn spec_i32_elems(s: Seq<i32>) -> Seq<u8>
    decreases s.len(),
{
    if s.len() == 0 {
        Seq::empty()
    } else {
        spec_vari64(s.first() as i64) + spec_i32_elems(s.drop_first())
    }
}

/// An `i32` column: element count, then elements.
pub open spec fn spec_i32_col(s: Seq<i32>) -> Seq<u8> {
    spec_varu64(s.len() as u64) + spec_i32_elems(s)
}

/// Bytes of the elements of a `u64` column.
pub open spec fn spec_u64_elems(s: Seq<u64>) -> Seq<u8>
    decreases s.len(),
{
    if s.len() == 0 {
        Seq::empty()
    } else {
        spec_varu64(s.first()) + spec_u64_elems(s.drop_first())
    }
}

/// A `u64` column: element count, then elements.
pub open spec fn spec_u64_col(s: Seq<u64>) -> Seq<u8> {
    spec_varu64(s.len() as u64) + spec_u64_elems(s)
}

/// Bytes of the elements of a nested column: each element is itself an
/// `i64` column.
pub open spec fn spec_nested_elems(s: Seq<Seq<i64>>) -> Seq<u8>
    decreases s.len(),
{
    if s.len() == 0 {
        Seq::empty()
    } else {
        spec_i64_col(s.first()) + spec_nested_elems(s.drop_first())
    }
}

/// A nested column: outer count, then one `i64` column per element.
pub open spec fn spec_nested_col(s: Seq<Seq<i64>>) -> Seq<u8> {
    spec_varu64(s.len() as u64) + spec_nested_elems(s)
}

/// One string-table entry: UTF-8 byte count, the bytes, then the id.
pub open spec fn spec_entry(text: Seq<char>, id: u64) -> Seq<u8> {
    spec_varu64(encode_utf8(text).len() as u64) + encode_utf8(text) + spec_varu64(id)
}

/// Bytes of the entries of a string table, in order.
pub open spec fn spec_table_elems(s: Seq<(Seq<char>, u64)>) -> Seq<u8>
    decreases s.len(),
{
    if s.len() == 0 {
        Seq::empty()
    } else {
        spec_entry(s.first().0, s.first().1) + spec_table_elems(s.drop_first())
    }
}

/// A string table: entry count, then entries.
pub open spec fn spec_table_col(s: Seq<(Seq<char>, u64)>) -> Seq<u8> {
    spec_varu64(s.len() as u64) + spec_table_elems(s)
}

/// A column (or any piece) fits the wire format only if its count fits in
/// the unsigned 64-bit count field.
pub open spec fn fits_u64(n: nat) -> bool {
    n < 0x1_0000_0000_0000_0000
}

// ---------------------------------------------------------------------
// parsing
// ---------------------------------------------------------------------

/// Parse `n` signed elements starting at `pos`.
pub open spec fn spec_parse_i64_elems(b: Seq<u8>, pos: int, n: nat) -> Option<(Seq<i64>, int)>
    decreases n,
{
    if n == 0 {
        Some((Seq::empty(), pos))
    } else {
        match spec_parse_vari64(b, pos) {
            Some((v, p)) => match spec_parse_i64_elems(b, p, (n - 1) as nat) {
                Some((s, p2)) => Some((seq![v] + s, p2)),
                None => None,
            },
            None => None,
        }
    }
}

/// Parse an `i64` column at `pos`.
pub open spec fn spec_parse_i64_col(b: Seq<u8>, pos: int) -> Option<(Seq<i64>, int)> {
    match spec_parse_varu64(b, pos) {
        Some((n, p)) => spec_parse_i64_elems(b, p, n as nat),
        None => None,
    }
}

/// Parse `n` elements that must fit in `i32`.
pub open spec fn spec_parse_i32_elems(b: Seq<u8>, pos: int, n: nat) -> Option<(Seq<i32>, int)>
    decreases n,
{
    if n == 0 {
        Some((Seq::empty(), pos))
    } else {
        match spec_parse_vari64(b, pos) {
            Some((v, p)) => if i32::MIN <= v <= i32::MAX {
                match spec_parse_i32_elems(b, p, (n - 1) as nat) {
                    Some((s, p2)) => Some((seq![v as i32] + s, p2)),
                    None => None,
                }
            } else {
                None
            },
            None => None,
        }
    }
}

/// Parse an `i32` column at `pos`.
pub open spec fn spec_parse_i32_col(b: Seq<u8>, pos: int) -> Option<(Seq<i32>, int)> {
    match spec_parse_varu64(b, pos) {
        Some((n, p)) => spec_parse_i32_elems(b, p, n as nat),
        None => None,
    }
}

/// Parse `n` unsigned elements starting at `pos`.
pub open spec fn spec_parse_u64_elems(b: Seq<u8>, pos: int, n: nat) -> Option<(Seq<u64>, int)>
    decreases n,
{
    if n == 0 {
        Some((Seq::empty(), pos))
    } else {
        match spec_parse_varu64(b, pos) {
            Some((v, p)) => match spec_parse_u64_elems(b, p, (n - 1) as nat) {
                Some((s, p2)) => Some((seq![v] + s, p2)),
                None => None,
            },
            None => None,
        }
    }
}

/// Parse a `u64` column at `pos`.
pub open spec fn spec_parse_u64_col(b: Seq<u8>, pos: int) -> Option<(Seq<u64>, int)> {
    match spec_parse_varu64(b, pos) {
        Some((n, p)) => spec_parse_u64_elems(b, p, n as nat),
        None => None,
    }
}

/// Parse `n` inner `i64` columns starting at `pos`.
pub open spec fn spec_parse_nested_elems(b: Seq<u8>, pos: int, n: nat) -> Option<
    (Seq<Seq<i64>>, int),
>
    decreases n,
{
    if n == 0 {
        Some((Seq::empty(), pos))
    } else {
        match spec_parse_i64_col(b, pos) {
            Some((v, p)) => match spec_parse_nested_elems(b, p, (n - 1) as nat) {
                Some((s, p2)) => Some((seq![v] + s, p2)),
                None => None,
            },
            None => None,
        }
    }
}

/// Parse a nested column at `pos`.
pub open spec fn spec_parse_nested_col(b: Seq<u8>, pos: int) -> Option<(Seq<Seq<i64>>, int)> {
    match spec_parse_varu64(b, pos) {
        Some((n, p)) => spec_parse_nested_elems(b, p, n as nat),
        None => None,
    }
}

/// Parse one string-table entry at `pos`: a byte count, that many bytes
/// (which must be valid UTF-8), and an id.
pub open spec fn spec_parse_entry(b: Seq<u8>, pos: int) -> Option<((Seq<char>, u64), int)> {
    match spec_parse_varu64(b, pos) {
        Some((n, p)) => if p + n <= b.len() && valid_utf8(b.subrange(p, p + n)) {
            match spec_parse_varu64(b, p + n) {
                Some((id, p2)) => Some(((decode_utf8(b.subrange(p, p + n)), id), p2)),
                None => None,
            }
        } else {
            None
        },
        None => None,
    }
}

/// Parse `n` string-table entries starting at `pos`.
pub open spec fn spec_parse_table_elems(b: Seq<u8>, pos: int, n: nat) -> Option<
    (Seq<(Seq<char>, u64)>, int),
>
    decreases n,
{
    if n == 0 {
        Some((Seq::empty(), pos))
    } else {
        match spec_parse_entry(b, pos) {
            Some((v, p)) => match spec_parse_table_elems(b, p, (n - 1) as nat) {
                Some((s, p2)) => Some((seq![v] + s, p2)),
                None => None,
            },
            None => None,
        }
    }
}

/// Parse a string table at `pos`.
pub open spec fn spec_parse_table_col(b: Seq<u8>, pos: int) -> Option<(Seq<(Seq<char>, u64)>, int)> {
    match spec_parse_varu64(b, pos) {
        Some((n, p)) => spec_parse_table_elems(b, p, n as nat),
        None => None,
    }
}

// ---------------------------------------------------------------------
// splitting helper
// ---------------------------------------------------------------------

/// A subrange equal to a concatenation splits into subranges equal to the
/// two halves.
pub proof fn lemma_subrange_split(b: Seq<u8>, pos: int, x: Seq<u8>, y: Seq<u8>)
    requires
        0 <= pos,
        pos + x.len() + y.len() <= b.len(),
        b.subrange(pos, pos + x.len() + y.len()) == x + y,
    ensures
        b.subrange(pos, pos + x.len() as int) == x,
        b.subrange(pos + x.len(), pos + x.len() + y.len()) == y,
{
    let whole = b.subrange(pos, pos + x.len() + y.len());
    assert forall|i: int| 0 <= i < x.len() implies b.subrange(pos, pos + x.len() as int)[i] == x[i]
        by {
        assert(whole[i] == (x + y)[i]);
    }
    assert(b.subrange(pos, pos + x.len() as int) =~= x);
    assert forall|i: int| 0 <= i < y.len() implies b.subrange(
        pos + x.len(),
        pos + x.len() + y.len(),
    )[i] == y[i] by {
        assert(whole[x.len() + i] == (x + y)[x.len() + i]);
    }
    assert(b.subrange(pos + x.len(), pos + x.len() + y.len()) =~= y);
}

// ---------------------------------------------------------------------
// round-trip lemmas: parsing what the builders wrote
// ---------------------------------------------------------------------

proof fn lemma_parse_i64_elems_of(b: Seq<u8>, pos: int, s: Seq<i64>)
    requires
        0 <= pos,
        pos + spec_i64_elems(s).len() <= b.len(),
        b.subrange(pos, pos + spec_i64_elems(s).len()) == spec_i64_elems(s),
    ensures
        spec_parse_i64_elems(b, pos, s.len()) == Some((s, pos + spec_i64_elems(s).len())),
    decreases s.len(),
{
    if s.len() == 0 {
        assert(spec_parse_i64_elems(b, pos, 0) == Some((Seq::<i64>::empty(), pos)));
        assert(s =~= Seq::<i64>::empty());
    } else {
        let head = spec_vari64(s.first());
        let tail = spec_i64_elems(s.drop_first());
        lemma_subrange_split(b, pos, head, tail);
        lemma_parse_vari64(b, pos, s.first());
        lemma_parse_i64_elems_of(b, pos + head.len(), s.drop_first());
        assert(seq![s.first()] + s.drop_first() =~= s);
    }
}

/// An `i64` column written at `pos` parses back to the same sequence.
pub proof fn lemma_parse_i64_col_of(b: Seq<u8>, pos: int, s: Seq<i64>)
    requires
        0 <= pos,
        fits_u64(s.len()),
        pos + spec_i64_col(s).len() <= b.len(),
        b.subrange(pos, pos + spec_i64_col(s).len()) == spec_i64_col(s),
    ensures
        spec_parse_i64_col(b, pos) == Some((s, pos + spec_i64_col(s).len())),
{
    let head = spec_varu64(s.len() as u64);
    let tail = spec_i64_elems(s);
    lemma_subrange_split(b, pos, head, tail);
    lemma_parse_varu64(b, pos, s.len() as u64);
    lemma_parse_i64_elems_of(b, pos + head.len(), s);
}

proof fn lemma_parse_i32_elems_of(b: Seq<u8>, pos: int, s: Seq<i32>)
    requires
        0 <= pos,
        pos + spec_i32_elems(s).len() <= b.len(),
        b.subrange(pos, pos + spec_i32_elems(s).len()) == spec_i32_elems(s),
    ensures
        spec_parse_i32_elems(b, pos, s.len()) == Some((s, pos + spec_i32_elems(s).len())),
    decreases s.len(),
{
    if s.len() == 0 {
        assert(s =~= Seq::<i32>::empty());
    } else {
        let head = spec_vari64(s.first() as i64);
        let tail = spec_i32_elems(s.drop_first());
        lemma_subrange_split(b, pos, head, tail);
        lemma_parse_vari64(b, pos, s.first() as i64);
        lemma_parse_i32_elems_of(b, pos + head.len(), s.drop_first());
        assert(seq![s.first()] + s.drop_first() =~= s);
    }
}

/// An `i32` column written at `pos` parses back to the same sequence.
pub proof fn lemma_parse_i32_col_of(b: Seq<u8>, pos: int, s: Seq<i32>)
    requires
        0 <= pos,
        fits_u64(s.len()),
        pos + spec_i32_col(s).len() <= b.len(),
        b.subrange(pos, pos + spec_i32_col(s).len()) == spec_i32_col(s),
    ensures
        spec_parse_i32_col(b, pos) == Some((s, pos + spec_i32_col(s).len())),
{
    let head = spec_varu64(s.len() as u64);
    let tail = spec_i32_elems(s);
    lemma_subrange_split(b, pos, head, tail);
    lemma_parse_varu64(b, pos, s.len() as u64);
    lemma_parse_i32_elems_of(b, pos + head.len(), s);
}

proof fn lemma_parse_u64_elems_of(b: Seq<u8>, pos: int, s: Seq<u64>)
    requires
        0 <= pos,
        pos + spec_u64_elems(s).len() <= b.len(),
        b.subrange(pos, pos + spec_u64_elems(s).len()) == spec_u64_elems(s),
    ensures
        spec_parse_u64_elems(b, pos, s.len()) == Some((s, pos + spec_u64_elems(s).len())),
    decreases s.len(),
{
    if s.len() == 0 {
        assert(s =~= Seq::<u64>::empty());
    } else {
        let head = spec_varu64(s.first());
        let tail = spec_u64_elems(s.drop_first());
        lemma_subrange_split(b, pos, head, tail);
        lemma_parse_varu64(b, pos, s.first());
        lemma_parse_u64_elems_of(b, pos + head.len(), s.drop_first());
        assert(seq![s.first()] + s.drop_first() =~= s);
    }
}

/// A `u64` column written at `pos` parses back to the same sequence.
pub proof fn lemma_parse_u64_col_of(b: Seq<u8>, pos: int, s: Seq<u64>)
    requires
        0 <= pos,
        fits_u64(s.len()),
        pos + spec_u64_col(s).len() <= b.len(),
        b.subrange(pos, pos + spec_u64_col(s).len()) == spec_u64_col(s),
    ensures
        spec_parse_u64_col(b, pos) == Some((s, pos + spec_u64_col(s).len())),
{
    let head = spec_varu64(s.len() as u64);
    let tail = spec_u64_elems(s);
    lemma_subrange_split(b, pos, head, tail);
    lemma_parse_varu64(b, pos, s.len() as u64);
    lemma_parse_u64_elems_of(b, pos + head.len(), s);
}

proof fn lemma_parse_nested_elems_of(b: Seq<u8>, pos: int, s: Seq<Seq<i64>>)
    requires
        0 <= pos,
        forall|i: int| 0 <= i < s.len() ==> fits_u64(#[trigger] s[i].len()),
        pos + spec_nested_elems(s).len() <= b.len(),
        b.subrange(pos, pos + spec_nested_elems(s).len()) == spec_nested_elems(s),
    ensures
        spec_parse_nested_elems(b, pos, s.len()) == Some((s, pos + spec_nested_elems(s).len())),
    decreases s.len(),
{
    if s.len() == 0 {
        assert(s =~= Seq::<Seq<i64>>::empty());
    } else {
        let head = spec_i64_col(s.first());
        let tail = spec_nested_elems(s.drop_first());
        lemma_subrange_split(b, pos, head, tail);
        assert(s.first() == s[0]);
        lemma_parse_i64_col_of(b, pos, s.first());
        assert(forall|i: int|
            0 <= i < s.drop_first().len() ==> fits_u64(#[trigger] s.drop_first()[i].len()));
        lemma_parse_nested_elems_of(b, pos + head.len(), s.drop_first());
        assert(seq![s.first()] + s.drop_first() =~= s);
    }
}

/// A nested column written at `pos` parses back to the same sequences.
pub proof fn lemma_parse_nested_col_of(b: Seq<u8>, pos: int, s: Seq<Seq<i64>>)
    requires
        0 <= pos,
        fits_u64(s.len()),
        forall|i: int| 0 <= i < s.len() ==> fits_u64(#[trigger] s[i].len()),
        pos + spec_nested_col(s).len() <= b.len(),
        b.subrange(pos, pos + spec_nested_col(s).len()) == spec_nested_col(s),
    ensures
        spec_parse_nested_col(b, pos) == Some((s, pos + spec_nested_col(s).len())),
{
    let head = spec_varu64(s.len() as u64);
    let tail = spec_nested_elems(s);
    lemma_subrange_split(b, pos, head, tail);
    lemma_parse_varu64(b, pos, s.len() as u64);
    lemma_parse_nested_elems_of(b, pos + head.len(), s);
}

#[verifier::rlimit(50)]
proof fn lemma_parse_entry_of(b: Seq<u8>, pos: int, text: Seq<char>, id: u64)
    requires
        0 <= pos,
        fits_u64(encode_utf8(text).len()),
        pos + spec_entry(text, id).len() <= b.len(),
        b.subrange(pos, pos + spec_entry(text, id).len()) == spec_entry(text, id),
    ensures
        spec_parse_entry(b, pos) == Some(((text, id), pos + spec_entry(text, id).len())),
{
    let utf8 = encode_utf8(text);
    let head = spec_varu64(utf8.len() as u64);
    let idpart = spec_varu64(id);
    let e = spec_entry(text, id);
    assert(e =~= head + (utf8 + idpart));
    assert((utf8 + idpart).len() == utf8.len() + idpart.len());
    assert(b.subrange(pos, pos + head.len() + (utf8 + idpart).len()) == head + (utf8 + idpart));
    lemma_subrange_split(b, pos, head, utf8 + idpart);
    lemma_subrange_split(b, pos + head.len(), utf8, idpart);
    lemma_parse_varu64(b, pos, utf8.len() as u64);
    let p = pos + head.len();
    assert(b.subrange(p, p + utf8.len()) == utf8);
    lemma_parse_varu64(b, p + utf8.len(), id);
    vstd::utf8::encode_utf8_valid_utf8(text);
    vstd::utf8::encode_utf8_decode_utf8(text);
    assert(decode_utf8(utf8) == text);
}

proof fn lemma_parse_table_elems_of(b: Seq<u8>, pos: int, s: Seq<(Seq<char>, u64)>)
    requires
        0 <= pos,
        forall|i: int| 0 <= i < s.len() ==> fits_u64(encode_utf8(#[trigger] s[i].0).len()),
        pos + spec_table_elems(s).len() <= b.len(),
        b.subrange(pos, pos + spec_table_elems(s).len()) == spec_table_elems(s),
    ensures
        spec_parse_table_elems(b, pos, s.len()) == Some((s, pos + spec_table_elems(s).len())),
    decreases s.len(),
{
    if s.len() == 0 {
        assert(s =~= Seq::<(Seq<char>, u64)>::empty());
    } else {
        let head = spec_entry(s.first().0, s.first().1);
        let tail = spec_table_elems(s.drop_first());
        lemma_subrange_split(b, pos, head, tail);
        assert(s.first() == s[0]);
        lemma_parse_entry_of(b, pos, s.first().0, s.first().1);
        assert(forall|i: int|
            0 <= i < s.drop_first().len() ==> fits_u64(
                encode_utf8(#[trigger] s.drop_first()[i].0).len(),
            ));
        lemma_parse_table_elems_of(b, pos + head.len(), s.drop_first());
        assert(seq![s.first()] + s.drop_first() =~= s);
        assert((s.first().0, s.first().1) == s.first());
    }
}

// ---------------------------------------------------------------------
// executable builders
// ---------------------------------------------------------------------

/// Append an `i64` column.
pub fn push_i64_col(out: &mut Vec<u8>, v: &Vec<i64>)
    ensures
        final(out)@ == old(out)@ + spec_i64_col(v@),
{
    push_varu64(out, v.len() as u64);
    let ghost base = out@;
    proof {
        assert(v@.skip(0) =~= v@);
    }
    let mut i: usize = 0;
    while i < v.len()
        invariant
            i <= v.len(),
            out@ + spec_i64_elems(v@.skip(i as int)) == base + spec_i64_elems(v@),
        decreases v.len() - i,
    {
        let ghost pre = out@;
        let ghost sk = v@.skip(i as int);
        proof {
            assert(sk.first() == v@[i as int]);
            assert(sk.drop_first() =~= v@.skip(i as int + 1));
        }
        push_vari64(out, v[i]);
        proof {
            assert(out@ + spec_i64_elems(v@.skip(i as int + 1)) =~= pre + spec_i64_elems(sk));
        }
        i = i + 1;
    }
    proof {
        assert(v@.skip(v@.len() as int) =~= Seq::<i64>::empty());
        assert(out@ + spec_i64_elems(v@.skip(v@.len() as int)) =~= out@);
        assert(base + spec_i64_elems(v@) =~= old(out)@ + spec_i64_col(v@));
    }
}

/// Append an `i32` column.
pub fn push_i32_col(out: &mut Vec<u8>, v: &Vec<i32>)
    ensures
        final(out)@ == old(out)@ + spec_i32_col(v@),
{
    push_varu64(out, v.len() as u64);
    let ghost base = out@;
    proof {
        assert(v@.skip(0) =~= v@);
    }
    let mut i: usize = 0;
    while i < v.len()
        invariant
            i <= v.len(),
            out@ + spec_i32_elems(v@.skip(i as int)) == base + spec_i32_elems(v@),
        decreases v.len() - i,
    {
        let ghost pre = out@;
        let ghost sk = v@.skip(i as int);
        proof {
            assert(sk.first() == v@[i as int]);
            assert(sk.drop_first() =~= v@.skip(i as int + 1));
        }
        push_vari64(out, v[i] as i64);
        proof {
            assert(out@ + spec_i32_elems(v@.skip(i as int + 1)) =~= pre + spec_i32_elems(sk));
        }
        i = i + 1;
    }
    proof {
        assert(v@.skip(v@.len() as int) =~= Seq::<i32>::empty());
        assert(out@ + spec_i32_elems(v@.skip(v@.len() as int)) =~= out@);
        assert(base + spec_i32_elems(v@) =~= old(out)@ + spec_i32_col(v@));
    }
}

/// Append a `u64` column.
pub fn push_u64_col(out: &mut Vec<u8>, v: &Vec<u64>)
    ensures
        final(out)@ == old(out)@ + spec_u64_col(v@),
{
    push_varu64(out, v.len() as u64);
    let ghost base = out@;
    proof {
        assert(v@.skip(0) =~= v@);
    }
    let mut i: usize = 0;
    while i < v.len()
        invariant
            i <= v.len(),
            out@ + spec_u64_elems(v@.skip(i as int)) == base + spec_u64_elems(v@),
        decreases v.len() - i,
    {
        let ghost pre = out@;
        let ghost sk = v@.skip(i as int);
        proof {
            assert(sk.first() == v@[i as int]);
            assert(sk.drop_first() =~= v@.skip(i as int + 1));
        }
        push_varu64(out, v[i]);
        proof {
            assert(out@ + spec_u64_elems(v@.skip(i as int + 1)) =~= pre + spec_u64_elems(sk));
        }
        i = i + 1;
    }
    proof {
        assert(v@.skip(v@.len() as int) =~= Seq::<u64>::empty());
        assert(out@ + spec_u64_elems(v@.skip(v@.len() as int)) =~= out@);
        assert(base + spec_u64_elems(v@) =~= old(out)@ + spec_u64_col(v@));
    }
}

/// The views of a vector of `i64` vectors, element by element.
pub open spec fn views_of(v: Seq<Vec<i64>>) -> Seq<Seq<i64>> {
    v.map(|i: int, e: Vec<i64>| e@)
}

/// Append a nested column.
pub fn push_nested_col(out: &mut Vec<u8>, v: &Vec<Vec<i64>>)
    ensures
        final(out)@ == old(out)@ + spec_nested_col(views_of(v@)),
{
    push_varu64(out, v.len() as u64);
    let ghost vs = views_of(v@);
    let ghost base = out@;
    proof {
        assert(vs.skip(0) =~= vs);
    }
    let mut i: usize = 0;
    while i < v.len()
        invariant
            i <= v.len(),
            vs == views_of(v@),
            vs.len() == v@.len(),
            out@ + spec_nested_elems(vs.skip(i as int)) == base + spec_nested_elems(vs),
        decreases v.len() - i,
    {
        let ghost pre = out@;
        let ghost sk = vs.skip(i as int);
        proof {
            assert(sk.first() == vs[i as int]);
            assert(vs[i as int] == v@[i as int]@);
            assert(sk.drop_first() =~= vs.skip(i as int + 1));
        }
        push_i64_col(out, &v[i]);
        proof {
            assert(out@ + spec_nested_elems(vs.skip(i as int + 1)) =~= pre + spec_nested_elems(sk));
        }
        i = i + 1;
    }
    proof {
        assert(vs.skip(vs.len() as int) =~= Seq::<Seq<i64>>::empty());
        assert(out@ + spec_nested_elems(vs.skip(vs.len() as int)) =~= out@);
        assert(base + spec_nested_elems(vs) =~= old(out)@ + spec_nested_col(vs));
    }
}

/// The `(text, id)` views of a vector of string-table entries.
pub open spec fn entries_of(v: Seq<(String, u64)>) -> Seq<(Seq<char>, u64)> {
    v.map(|i: int, e: (String, u64)| (e.0@, e.1))
}

/// Append one string-table entry.
fn push_entry(out: &mut Vec<u8>, text: &String, id: u64)
    ensures
        final(out)@ == old(out)@ + spec_entry(text@, id),
{
    let bytes = text.as_str().as_bytes();
    push_varu64(out, bytes.len() as u64);
    out.extend_from_slice(bytes);
    push_varu64(out, id);
    proof {
        assert(out@ =~= old(out)@ + spec_entry(text@, id));
    }
}

/// Append a string table.
pub fn push_table_col(out: &mut Vec<u8>, v: &Vec<(String, u64)>)
    ensures
        final(out)@ == old(out)@ + spec_table_col(entries_of(v@)),
{
    push_varu64(out, v.len() as u64);
    let ghost vs = entries_of(v@);
    let ghost base = out@;
    proof {
        assert(vs.skip(0) =~= vs);
    }
    let mut i: usize = 0;
    while i < v.len()
        invariant
            i <= v.len(),
            vs == entries_of(v@),
            vs.len() == v@.len(),
            out@ + spec_table_elems(vs.skip(i as int)) == base + spec_table_elems(vs),
        decreases v.len() - i,
    {
        let ghost pre = out@;
        let ghost sk = vs.skip(i as int);
        proof {
            assert(sk.first() == vs[i as int]);
            assert(vs[i as int] == (v@[i as int].0@, v@[i as int].1));
            assert(sk.drop_first() =~= vs.skip(i as int + 1));
        }
        push_entry(out, &v[i].0, v[i].1);
        proof {
            assert(out@ + spec_table_elems(vs.skip(i as int + 1)) =~= pre + spec_table_elems(sk));
        }
        i = i + 1;
    }
    proof {
        assert(vs.skip(vs.len() as int) =~= Seq::<(Seq<char>, u64)>::empty());
        assert(out@ + spec_table_elems(vs.skip(vs.len() as int)) =~= out@);
        assert(base + spec_table_elems(vs) =~= old(out)@ + spec_table_col(vs));
    }
}

// ---------------------------------------------------------------------
// executable parsers
// ---------------------------------------------------------------------

/// Prepend an already-parsed prefix to the result of parsing a suffix.
pub open spec fn spec_append_parsed<T>(pre: Seq<T>, r: Option<(Seq<T>, int)>) -> Option<
    (Seq<T>, int),
> {
    match r {
        Some((s, p)) => Some((pre + s, p)),
        None => None,
    }
}

/// Parse an `i64` column, as [`spec_parse_i64_col`] describes.
pub fn read_i64_col(b: &Vec<u8>, pos: usize) -> (r: Option<(Vec<i64>, usize)>)
    ensures
        match r {
            Some((v, p)) => {
                &&& spec_parse_i64_col(b@, pos as int) == Some((v@, p as int))
                &&& pos <= p <= b@.len()
            },
            None => spec_parse_i64_col(b@, pos as int) is None,
        },
{
    let (n, start) = match read_varu64(b, pos) {
        Some(x) => x,
        None => {
            return None;
        },
    };
    let mut cur: usize = start;
    let mut acc: Vec<i64> = Vec::new();
    let mut i: u64 = 0;
    proof {
        assert(acc@ + Seq::<i64>::empty() =~= acc@);
    }
    while i < n
        invariant
            i <= n,
            pos <= cur <= b@.len(),
            spec_parse_varu64(b@, pos as int) == Some((n, start as int)),
            spec_parse_i64_elems(b@, start as int, n as nat) == spec_append_parsed(
                acc@,
                spec_parse_i64_elems(b@, cur as int, (n - i) as nat),
            ),
        decreases n - i,
    {
        match read_vari64(b, cur) {
            Some((v, p2)) => {
                proof {
                    let rest = spec_parse_i64_elems(b@, p2 as int, (n - i - 1) as nat);
                    if let Some((s, pp)) = rest {
                        assert(acc@ + (seq![v] + s) =~= acc@.push(v) + s);
                    }
                }
                acc.push(v);
                cur = p2;
                i = i + 1;
            },
            None => {
                return None;
            },
        }
    }
    proof {
        assert(acc@ + Seq::<i64>::empty() =~= acc@);
    }
    Some((acc, cur))
}

/// Parse an `i32` column, as [`spec_parse_i32_col`] describes.
pub fn read_i32_col(b: &Vec<u8>, pos: usize) -> (r: Option<(Vec<i32>, usize)>)
    ensures
        match r {
            Some((v, p)) => {
                &&& spec_parse_i32_col(b@, pos as int) == Some((v@, p as int))
                &&& pos <= p <= b@.len()
            },
            None => spec_parse_i32_col(b@, pos as int) is None,
        },
{
    let (n, start) = match read_varu64(b, pos) {
        Some(x) => x,
        None => {
            return None;
        },
    };
    let mut cur: usize = start;
    let mut acc: Vec<i32> = Vec::new();
    let mut i: u64 = 0;
    proof {
        assert(acc@ + Seq::<i32>::empty() =~= acc@);
    }
    while i < n
        invariant
            i <= n,
            pos <= cur <= b@.len(),
            spec_parse_varu64(b@, pos as int) == Some((n, start as int)),
            spec_parse_i32_elems(b@, start as int, n as nat) == spec_append_parsed(
                acc@,
                spec_parse_i32_elems(b@, cur as int, (n - i) as nat),
            ),
        decreases n - i,
    {
        match read_vari64(b, cur) {
            Some((v, p2)) => {
                if v < i32::MIN as i64 || v > i32::MAX as i64 {
                    return None;
                }
                proof {
                    let rest = spec_parse_i32_elems(b@, p2 as int, (n - i - 1) as nat);
                    if let Some((s, pp)) = rest {
                        assert(acc@ + (seq![v as i32] + s) =~= acc@.push(v as i32) + s);
                    }
                }
                acc.push(v as i32);
                cur = p2;
                i = i + 1;
            },
            None => {
                return None;
            },
        }
    }
    proof {
        assert(acc@ + Seq::<i32>::empty() =~= acc@);
    }
    Some((acc, cur))
}

/// Parse a `u64` column, as [`spec_parse_u64_col`] describes.
pub fn read_u64_col(b: &Vec<u8>, pos: usize) -> (r: Option<(Vec<u64>, usize)>)
    ensures
        match r {
            Some((v, p)) => {
                &&& spec_parse_u64_col(b@, pos as int) == Some((v@, p as int))
                &&& pos <= p <= b@.len()
            },
            None => spec_parse_u64_col(b@, pos as int) is None,
        },
{
    let (n, start) = match read_varu64(b, pos) {
        Some(x) => x,
        None => {
            return None;
        },
    };
    let mut cur: usize = start;
    let mut acc: Vec<u64> = Vec::new();
    let mut i: u64 = 0;
    proof {
        assert(acc@ + Seq::<u64>::empty() =~= acc@);
    }
    while i < n
        invariant
            i <= n,
            pos <= cur <= b@.len(),
            spec_parse_varu64(b@, pos as int) == Some((n, start as int)),
            spec_parse_u64_elems(b@, start as int, n as nat) == spec_append_parsed(
                acc@,
                spec_parse_u64_elems(b@, cur as int, (n - i) as nat),
            ),
        decreases n - i,
    {
        match read_varu64(b, cur) {
            Some((v, p2)) => {
                proof {
                    let rest = spec_parse_u64_elems(b@, p2 as int, (n - i - 1) as nat);
                    if let Some((s, pp)) = rest {
                        assert(acc@ + (seq![v] + s) =~= acc@.push(v) + s);
                    }
                }
                acc.push(v);
                cur = p2;
                i = i + 1;
            },
            None => {
                return None;
            },
        }
    }
    proof {
        assert(acc@ + Seq::<u64>::empty() =~= acc@);
    }
    Some((acc, cur))
}

/// Parse a nested column, as [`spec_parse_nested_col`] describes.
pub fn read_nested_col(b: &Vec<u8>, pos: usize) -> (r: Option<(Vec<Vec<i64>>, usize)>)
    ensures
        match r {
            Some((v, p)) => {
                &&& spec_parse_nested_col(b@, pos as int) == Some((views_of(v@), p as int))
                &&& pos <= p <= b@.len()
            },
            None => spec_parse_nested_col(b@, pos as int) is None,
        },
{
    let (n, start) = match read_varu64(b, pos) {
        Some(x) => x,
        None => {
            return None;
        },
    };
    let mut cur: usize = start;
    let mut acc: Vec<Vec<i64>> = Vec::new();
    let mut i: u64 = 0;
    proof {
        assert(views_of(acc@) =~= Seq::<Seq<i64>>::empty());
        assert(views_of(acc@) + Seq::<Seq<i64>>::empty() =~= views_of(acc@));
    }
    while i < n
        invariant
            i <= n,
            pos <= cur <= b@.len(),
            spec_parse_varu64(b@, pos as int) == Some((n, start as int)),
            spec_parse_nested_elems(b@, start as int, n as nat) == spec_append_parsed(
                views_of(acc@),
                spec_parse_nested_elems(b@, cur as int, (n - i) as nat),
            ),
        decreases n - i,
    {
        match read_i64_col(b, cur) {
            Some((v, p2)) => {
                proof {
                    let ghost pre = views_of(acc@);
                    let rest = spec_parse_nested_elems(b@, p2 as int, (n - i - 1) as nat);
                    assert(views_of(acc@.push(v)) =~= views_of(acc@).push(v@));
                    if let Some((s, pp)) = rest {
                        assert(pre + (seq![v@] + s) =~= pre.push(v@) + s);
                    }
                }
                acc.push(v);
                cur = p2;
                i = i + 1;
            },
            None => {
                return None;
            },
        }
    }
    proof {
        assert(views_of(acc@) + Seq::<Seq<i64>>::empty() =~= views_of(acc@));
    }
    Some((acc, cur))
}

/// Relies on `String::from_utf8`: it succeeds exactly on valid UTF-8
/// input and returns the string whose UTF-8 encoding those bytes are
/// (its documented inverse is `String::into_bytes`).
#[verifier::external_body]
fn string_from_utf8(bytes: Vec<u8>) -> (r: Option<String>)
    ensures
        r matches Some(s) ==> encode_utf8(s@) == bytes@,
        valid_utf8(bytes@) ==> r is Some,
{
    String::from_utf8(bytes).ok()
}

/// Parse one string-table entry, as [`spec_parse_entry`] describes.
fn read_entry(b: &Vec<u8>, pos: usize) -> (r: Option<(String, u64, usize)>)
    ensures
        match r {
            Some((s, id, p)) => {
                &&& spec_parse_entry(b@, pos as int) == Some(((s@, id), p as int))
                &&& pos <= p <= b@.len()
            },
            None => spec_parse_entry(b@, pos as int) is None,
        },
{
    let (nlen, p) = match read_varu64(b, pos) {
        Some(x) => x,
        None => {
            return None;
        },
    };
    if nlen > (b.len() - p) as u64 {
        return None;
    }
    let n = nlen as usize;
    let mut bytes: Vec<u8> = Vec::new();
    let mut j: usize = 0;
    while j < n
        invariant
            j <= n,
            p + n <= b@.len(),
            b@.len() <= usize::MAX,
            bytes@ == b@.subrange(p as int, p as int + j as int),
        decreases n - j,
    {
        bytes.push(b[p + j]);
        proof {
            assert(b@.subrange(p as int, p as int + j as int + 1) =~= b@.subrange(
                p as int,
                p as int + j as int,
            ).push(b@[p as int + j as int]));
        }
        j = j + 1;
    }
    let ghost utf8 = b@.subrange(p as int, p as int + n as int);
    match string_from_utf8(bytes) {
        Some(s) => {
            proof {
                vstd::utf8::encode_utf8_valid_utf8(s@);
                vstd::utf8::encode_utf8_decode_utf8(s@);
                assert(valid_utf8(utf8));
                assert(decode_utf8(utf8) == s@);
            }
            match read_varu64(b, p + n) {
                Some((id, p2)) => Some((s, id, p2)),
                None => None,
            }
        },
        None => {
            assert(!valid_utf8(utf8));
            None
        },
    }
}

/// Parse a string table, as [`spec_parse_table_col`] describes.
pub fn read_table_col(b: &Vec<u8>, pos: usize) -> (r: Option<(Vec<(String, u64)>, usize)>)
    ensures
        match r {
            Some((v, p)) => {
                &&& spec_parse_table_col(b@, pos as int) == Some((entries_of(v@), p as int))
                &&& pos <= p <= b@.len()
            },
            None => spec_parse_table_col(b@, pos as int) is None,
        },
{
    let (n, start) = match read_varu64(b, pos) {
        Some(x) => x,
        None => {
            return None;
        },
    };
    let mut cur: usize = start;
    let mut acc: Vec<(String, u64)> = Vec::new();
    let mut i: u64 = 0;
    proof {
        assert(entries_of(acc@) =~= Seq::<(Seq<char>, u64)>::empty());
        assert(entries_of(acc@) + Seq::<(Seq<char>, u64)>::empty() =~= entries_of(acc@));
    }
    while i < n
        invariant
            i <= n,
            pos <= cur <= b@.len(),
            spec_parse_varu64(b@, pos as int) == Some((n, start as int)),
            spec_parse_table_elems(b@, start as int, n as nat) == spec_append_parsed(
                entries_of(acc@),
                spec_parse_table_elems(b@, cur as int, (n - i) as nat),
            ),
        decreases n - i,
    {
        match read_entry(b, cur) {
            Some((s, id, p2)) => {
                proof {
                    let ghost pre = entries_of(acc@);
                    let rest = spec_parse_table_elems(b@, p2 as int, (n - i - 1) as nat);
                    assert(entries_of(acc@.push((s, id))) =~= entries_of(acc@).push((s@, id)));
                    if let Some((es, pp)) = rest {
                        assert(pre + (seq![(s@, id)] + es) =~= pre.push((s@, id)) + es);
                    }
                }
                acc.push((s, id));
                cur = p2;
                i = i + 1;
            },
            None => {
                return None;
            },
        }
    }
    proof {
        assert(entries_of(acc@) + Seq::<(Seq<char>, u64)>::empty() =~= entries_of(acc@));
    }
    Some((acc, cur))
}

/// A string table written at `pos` parses back to the same entries.
pub proof fn lemma_parse_table_col_of(b: Seq<u8>, pos: int, s: Seq<(Seq<char>, u64)>)
    requires
        0 <= pos,
        fits_u64(s.len()),
        forall|i: int| 0 <= i < s.len() ==> fits_u64(encode_utf8(#[trigger] s[i].0).len()),
        pos + spec_table_col(s).len() <= b.len(),
        b.subrange(pos, pos + spec_table_col(s).len()) == spec_table_col(s),
    ensures
        spec_parse_table_col(b, pos) == Some((s, pos + spec_table_col(s).len())),
{
    let head = spec_varu64(s.len() as u64);
    let tail = spec_table_elems(s);
    lemma_subrange_split(b, pos, head, tail);
    lemma_parse_varu64(b, pos, s.len() as u64);
    lemma_parse_table_elems_of(b, pos + head.len(), s);
}

} // verus!
