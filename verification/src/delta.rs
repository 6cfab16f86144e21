//! Delta encoding of integer columns.
//!
//! A sequence `x0, x1, ..., xn` is stored as `x0, x1-x0, ..., xn-x(n-1)`;
//! the inverse restores it by a running (prefix) sum.  Differences use
//! wrapping arithmetic, so every sequence round-trips exactly.

use vstd::prelude::*;

verus! {

/// The delta encoding of `s`: first element kept, then successive
/// wrapping differences.
pub open spec fn spec_deltas_i64(s: Seq<i64>) -> Seq<i64> {
    Seq::new(s.len(), |i: int| if i == 0 { s[0] } else { s[i].wrapping_sub(s[i - 1]) })
}

/// The inverse of [`spec_deltas_i64`]: the wrapping prefix sums of `d`.
pub open spec fn spec_undelta_i64(d: Seq<i64>) -> Seq<i64>
    decreases d.len(),
{
    if d.len() == 0 {
        Seq::empty()
    } else {
        let prev = spec_undelta_i64(d.drop_last());
        prev.push(if d.len() == 1 { d[0] } else { prev.last().wrapping_add(d.last()) })
    }
}

/// The delta encoding of an `i32` sequence.
pub open spec fn spec_deltas_i32(s: Seq<i32>) -> Seq<i32> {
    Seq::new(s.len(), |i: int| if i == 0 { s[0] } else { s[i].wrapping_sub(s[i - 1]) })
}

/// The inverse of [`spec_deltas_i32`].
pub open spec fn spec_undelta_i32(d: Seq<i32>) -> Seq<i32>
    decreases d.len(),
{
    if d.len() == 0 {
        Seq::empty()
    } else {
        let prev = spec_undelta_i32(d.drop_last());
        prev.push(if d.len() == 1 { d[0] } else { prev.last().wrapping_add(d.last()) })
    }
}

/// Each prefix sum only depends on the prefix, so undelta maps index `i`
/// to the wrapping sum of `d[0..=i]`; stated positionally for reuse.
pub proof fn lemma_undelta_i64_index(d: Seq<i64>, i: int)
    requires
        0 <= i < d.len(),
    ensures
        spec_undelta_i64(d).len() == d.len(),
        spec_undelta_i64(d)[i] == if i == 0 {
            d[0]
        } else {
            spec_undelta_i64(d)[i - 1].wrapping_add(d[i])
        },
    decreases d.len(),
{
    lemma_undelta_len_i64(d);
    if d.len() > 1 {
        lemma_undelta_len_i64(d.drop_last());
        if i < d.len() - 1 {
            lemma_undelta_i64_index(d.drop_last(), i);
        }
    }
}

/// Positional characterisation of [`spec_undelta_i32`].
pub proof fn lemma_undelta_i32_index(d: Seq<i32>, i: int)
    requires
        0 <= i < d.len(),
    ensures
        spec_undelta_i32(d).len() == d.len(),
        spec_undelta_i32(d)[i] == if i == 0 {
            d[0]
        } else {
            spec_undelta_i32(d)[i - 1].wrapping_add(d[i])
        },
    decreases d.len(),
{
    lemma_undelta_len_i32(d);
    if d.len() > 1 {
        lemma_undelta_len_i32(d.drop_last());
        if i < d.len() - 1 {
            lemma_undelta_i32_index(d.drop_last(), i);
        }
    }
}

/// Round-trip law: decoding the delta encoding of any `i64` sequence
/// restores the sequence exactly.
pub proof fn lemma_delta_round_trip_i64(s: Seq<i64>)
    ensures
        spec_undelta_i64(spec_deltas_i64(s)) == s,
{
    let d = spec_deltas_i64(s);
    assert forall|i: int| 0 <= i < s.len() implies spec_undelta_i64(d)[i] == s[i] by {
        lemma_undelta_round_i64(s, i);
    }
    lemma_undelta_len_i64(d);
    assert(spec_undelta_i64(d) =~= s);
}

/// Round-trip law: decoding the delta encoding of any `i32` sequence
/// restores the sequence exactly.
pub proof fn lemma_delta_round_trip_i32(s: Seq<i32>)
    ensures
        spec_undelta_i32(spec_deltas_i32(s)) == s,
{
    let d = spec_deltas_i32(s);
    assert forall|i: int| 0 <= i < s.len() implies spec_undelta_i32(d)[i] == s[i] by {
        lemma_undelta_round_i32(s, i);
    }
    lemma_undelta_len_i32(d);
    assert(spec_undelta_i32(d) =~= s);
}

/// Undelta keeps the length.
pub proof fn lemma_undelta_len_i64(d: Seq<i64>)
    ensures
        spec_undelta_i64(d).len() == d.len(),
    decreases d.len(),
{
    if d.len() > 0 {
        lemma_undelta_len_i64(d.drop_last());
    }
}

/// Undelta keeps the length.
pub proof fn lemma_undelta_len_i32(d: Seq<i32>)
    ensures
        spec_undelta_i32(d).len() == d.len(),
    decreases d.len(),
{
    if d.len() > 0 {
        lemma_undelta_len_i32(d.drop_last());
    }
}

proof fn lemma_undelta_round_i64(s: Seq<i64>, i: int)
    requires
        0 <= i < s.len(),
    ensures
        spec_undelta_i64(spec_deltas_i64(s))[i] == s[i],
    decreases i,
{
    let d = spec_deltas_i64(s);
    lemma_undelta_i64_index(d, i);
    if i > 0 {
        lemma_undelta_round_i64(s, i - 1);
    }
}

proof fn lemma_undelta_round_i32(s: Seq<i32>, i: int)
    requires
        0 <= i < s.len(),
    ensures
        spec_undelta_i32(spec_deltas_i32(s))[i] == s[i],
    decreases i,
{
    let d = spec_deltas_i32(s);
    lemma_undelta_i32_index(d, i);
    if i > 0 {
        lemma_undelta_round_i32(s, i - 1);
    }
}

/// Delta-encode an `i64` column.
pub fn delta_encode_i64(v: &Vec<i64>) -> (r: Vec<i64>)
    ensures
        r@ == spec_deltas_i64(v@),
{
    let mut r: Vec<i64> = Vec::new();
    let mut prev: i64 = 0;
    let mut i: usize = 0;
    while i < v.len()
        invariant
            i <= v.len(),
            r@.len() == i as int,
            forall|j: int| 0 <= j < i ==> r@[j] == spec_deltas_i64(v@)[j],
            prev == if i == 0 { 0i64 } else { v@[i - 1] },
        decreases v.len() - i,
    {
        r.push(v[i].wrapping_sub(prev));
        prev = v[i];
        i = i + 1;
    }
    assert(r@ =~= spec_deltas_i64(v@));
    r
}

/// Delta-decode an `i64` column by prefix sums.
pub fn delta_decode_i64(d: &Vec<i64>) -> (r: Vec<i64>)
    ensures
        r@ == spec_undelta_i64(d@),
{
    let mut r: Vec<i64> = Vec::new();
    let mut acc: i64 = 0;
    let mut i: usize = 0;
    while i < d.len()
        invariant
            i <= d.len(),
            r@.len() == i as int,
            forall|j: int| 0 <= j < i ==> r@[j] == spec_undelta_i64(d@)[j],
            acc == if i == 0 { 0i64 } else { spec_undelta_i64(d@)[i - 1] },
        decreases d.len() - i,
    {
        proof {
            lemma_undelta_i64_index(d@, i as int);
        }
        acc = if i == 0 { d[i] } else { acc.wrapping_add(d[i]) };
        r.push(acc);
        i = i + 1;
    }
    proof {
        lemma_undelta_len_i64(d@);
    }
    assert(r@ =~= spec_undelta_i64(d@));
    r
}

/// Delta-encode an `i32` column.
pub fn delta_encode_i32(v: &Vec<i32>) -> (r: Vec<i32>)
    ensures
        r@ == spec_deltas_i32(v@),
{
    let mut r: Vec<i32> = Vec::new();
    let mut prev: i32 = 0;
    let mut i: usize = 0;
    while i < v.len()
        invariant
            i <= v.len(),
            r@.len() == i as int,
            forall|j: int| 0 <= j < i ==> r@[j] == spec_deltas_i32(v@)[j],
            prev == if i == 0 { 0i32 } else { v@[i - 1] },
        decreases v.len() - i,
    {
        r.push(v[i].wrapping_sub(prev));
        prev = v[i];
        i = i + 1;
    }
    assert(r@ =~= spec_deltas_i32(v@));
    r
}

/// Delta-decode an `i32` column by prefix sums.
pub fn delta_decode_i32(d: &Vec<i32>) -> (r: Vec<i32>)
    ensures
        r@ == spec_undelta_i32(d@),
{
    let mut r: Vec<i32> = Vec::new();
    let mut acc: i32 = 0;
    let mut i: usize = 0;
    while i < d.len()
        invariant
            i <= d.len(),
            r@.len() == i as int,
            forall|j: int| 0 <= j < i ==> r@[j] == spec_undelta_i32(d@)[j],
            acc == if i == 0 { 0i32 } else { spec_undelta_i32(d@)[i - 1] },
        decreases d.len() - i,
    {
        proof {
            lemma_undelta_i32_index(d@, i as int);
        }
        acc = if i == 0 { d[i] } else { acc.wrapping_add(d[i]) };
        r.push(acc);
        i = i + 1;
    }
    proof {
        lemma_undelta_len_i32(d@);
    }
    assert(r@ =~= spec_undelta_i32(d@));
    r
}

} // verus!
