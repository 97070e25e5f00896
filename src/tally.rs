//! The tally: from the reveals of all nodes to one consensus result.
use vstd::prelude::*;
use vstd::multiset::Multiset;
use crate::abi::{array_encoding, encode_uint_array};
use crate::decimal::{
    decimal_text, digits_value, is_unsigned_text, lemma_text_of_denotes, parse_unsigned, text_of,
};
use crate::median::{lemma_median_order_independent, median, median_of};

verus! {

/// Why a tally produced no result.
#[derive(Debug, Clone, Copy, PartialEq, Eq, Structural)]
pub enum TallyError {
    /// No reveal carried a usable value.
    NoConsensus,
    /// The reveal that the array result is taken from could not be decoded.
    MalformedReveal,
}

/// The value that a reveal of the scalar flow carries, if it is well formed:
/// unsigned integer text that fits in a `u128`.
pub open spec fn reveal_value(r: Seq<u8>) -> Option<u128> {
    if is_unsigned_text(r) && digits_value(r) <= u128::MAX {
        Some(digits_value(r) as u128)
    } else {
        None
    }
}

/// Whether a reveal of the scalar flow is well formed.
pub open spec fn is_valid_reveal(r: Seq<u8>) -> bool {
    reveal_value(r) is Some
}

/// The values of the well-formed reveals, in reveal order.
pub open spec fn valid_values(rs: Seq<Seq<u8>>) -> Seq<u128>
    decreases rs.len(),
{
    if rs.len() == 0 {
        Seq::empty()
    } else {
        match reveal_value(rs.last()) {
            Some(v) => valid_values(rs.drop_last()).push(v),
            None => valid_values(rs.drop_last()),
        }
    }
}

/// What an observer reports, the decimal text of a number, is a
/// well-formed reveal that carries that number.
pub proof fn lemma_reported_text_is_valid_reveal(n: u128)
    ensures
        reveal_value(text_of(n as nat)) == Some(n),
{
    lemma_text_of_denotes(n as nat);
}

/// `m` with the value of the reveal `r` added when `r` is well formed.
pub open spec fn with_value_of(m: Multiset<u128>, r: Seq<u8>) -> Multiset<u128> {
    match reveal_value(r) {
        Some(v) => m.insert(v),
        None => m,
    }
}

proof fn lemma_values_push(rs: Seq<Seq<u8>>, x: Seq<u8>)
    ensures
        valid_values(rs.push(x)).to_multiset() == with_value_of(valid_values(rs).to_multiset(), x),
{
    broadcast use vstd::seq_lib::group_to_multiset_ensures;

    assert(rs.push(x).drop_last() =~= rs);
    assert(rs.push(x).last() == x);
}

proof fn lemma_values_remove(rs: Seq<Seq<u8>>, j: int)
    requires
        0 <= j < rs.len(),
    ensures
        valid_values(rs).to_multiset() == with_value_of(
            valid_values(rs.remove(j)).to_multiset(),
            rs[j],
        ),
    decreases rs.len(),
{
    broadcast use vstd::seq_lib::group_to_multiset_ensures;
    broadcast use vstd::multiset::group_multiset_axioms;

    let d = rs.drop_last();
    assert(d.push(rs.last()) =~= rs);
    lemma_values_push(d, rs.last());
    if j == rs.len() - 1 {
        assert(rs.remove(j) =~= d);
    } else {
        assert(rs.remove(j) =~= d.remove(j).push(rs.last()));
        lemma_values_remove(d, j);
        lemma_values_push(d.remove(j), rs.last());
        assert(d[j] == rs[j]);
        let m = valid_values(d.remove(j)).to_multiset();
        assert(with_value_of(with_value_of(m, rs[j]), rs.last()) =~= with_value_of(
            with_value_of(m, rs.last()),
            rs[j],
        ));
    }
}

/// Reordering the reveals leaves the well-formed values the same, counted
/// with multiplicity.
proof fn lemma_values_permutation(a: Seq<Seq<u8>>, b: Seq<Seq<u8>>)
    requires
        a.to_multiset() == b.to_multiset(),
    ensures
        valid_values(a).to_multiset() == valid_values(b).to_multiset(),
    decreases a.len(),
{
    broadcast use vstd::seq_lib::group_to_multiset_ensures;
    broadcast use vstd::multiset::group_multiset_axioms;

    if a.len() == 0 {
        vstd::seq_lib::to_multiset_len(a);
        vstd::seq_lib::to_multiset_len(b);
        assert(b.len() == 0);
        assert(b =~= a);
    } else {
        let x = a.last();
        let d = a.drop_last();
        assert(d.push(x) =~= a);
        assert(a.to_multiset().count(x) > 0);
        assert(b.contains(x));
        let j = choose|j: int| 0 <= j < b.len() && b[j] == x;
        assert(d.to_multiset() =~= a.to_multiset().remove(x));
        assert(b.remove(j).to_multiset() == b.to_multiset().remove(x));
        lemma_values_permutation(d, b.remove(j));
        lemma_values_push(d, x);
        lemma_values_remove(b, j);
    }
}

/// The scalar tally does not depend on the order of the reveals: two reveal
/// lists with the same entries, counted with multiplicity, have as many
/// well-formed values and, when there are any, the same median.
pub proof fn lemma_tally_order_independent(a: Seq<Seq<u8>>, b: Seq<Seq<u8>>)
    requires
        a.to_multiset() == b.to_multiset(),
    ensures
        valid_values(a).len() == valid_values(b).len(),
        median_of(valid_values(a)) == median_of(valid_values(b)),
{
    broadcast use vstd::seq_lib::group_to_multiset_ensures;

    lemma_values_permutation(a, b);
    vstd::seq_lib::to_multiset_len(valid_values(a));
    vstd::seq_lib::to_multiset_len(valid_values(b));
    lemma_median_order_independent(valid_values(a), valid_values(b));
}

/// Malformed reveals do not count: removing them from the list leaves the
/// values, and so the median and the result, as they were.
pub proof fn lemma_malformed_reveals_ignored(rs: Seq<Seq<u8>>)
    ensures
        valid_values(rs.filter(|r: Seq<u8>| is_valid_reveal(r))) == valid_values(rs),
    decreases rs.len(),
{
    reveal(Seq::filter);
    if rs.len() > 0 {
        lemma_malformed_reveals_ignored(rs.drop_last());
        let f = rs.filter(|r: Seq<u8>| is_valid_reveal(r));
        let g = rs.drop_last().filter(|r: Seq<u8>| is_valid_reveal(r));
        if is_valid_reveal(rs.last()) {
            assert(f == g.push(rs.last()));
            assert(f.drop_last() =~= g);
        } else {
            assert(f == g);
        }
    }
}

/// The values of the well-formed reveals, in reveal order; the others are
/// skipped.
pub fn collect_values(reveals: &Vec<Vec<u8>>) -> (r: Vec<u128>)
    ensures
        r@ == valid_values(reveals.deep_view()),
{
    let ghost rs = reveals.deep_view();
    let mut out: Vec<u128> = Vec::new();
    let mut i: usize = 0;
    while i < reveals.len()
        invariant
            0 <= i <= reveals.len(),
            rs == reveals.deep_view(),
            out@ == valid_values(rs.take(i as int)),
        decreases reveals.len() - i,
    {
        assert(rs.take(i + 1).drop_last() =~= rs.take(i as int));
        assert(rs[i as int] == reveals[i as int]@);
        match parse_unsigned(reveals[i].as_slice()) {
            Some(v) => {
                out.push(v);
            },
            None => {},
        }
        i = i + 1;
    }
    assert(rs.take(i as int) =~= rs);
    out
}

/// The scalar tally: the median of the values of the well-formed reveals, as
/// decimal text. `NoConsensus` exactly when no reveal is well formed.
pub fn tally_median(reveals: &Vec<Vec<u8>>) -> (r: Result<Vec<u8>, TallyError>)
    ensures
        valid_values(reveals.deep_view()).len() == 0 ==> r == Err::<Vec<u8>, TallyError>(
            TallyError::NoConsensus,
        ),
        valid_values(reveals.deep_view()).len() > 0 ==> (r matches Ok(t) && t@ == text_of(
            median_of(valid_values(reveals.deep_view())) as nat,
        )),
{
    let values = collect_values(reveals);
    if values.len() == 0 {
        return Err(TallyError::NoConsensus);
    }
    let m = median(values);
    Ok(decimal_text(m))
}

/// What the tally of the array flow gets from the first reveal.
pub enum FirstReveal {
    /// There was no reveal.
    Missing,
    /// The first reveal is not an array of prices.
    Malformed,
    /// The prices of the first reveal, scaled to millionths.
    Prices(Vec<u64>),
}

/// The array tally: the scaled prices of the first reveal, encoded as a
/// dynamic array of unsigned integers.
pub fn tally_array(first: FirstReveal) -> (r: Result<Vec<u8>, TallyError>)
    ensures
        first is Missing ==> r == Err::<Vec<u8>, TallyError>(TallyError::NoConsensus),
        first is Malformed ==> r == Err::<Vec<u8>, TallyError>(TallyError::MalformedReveal),
        first matches FirstReveal::Prices(p) ==> (r matches Ok(e) && e@ == array_encoding(p@)),
{
    match first {
        FirstReveal::Missing => Err(TallyError::NoConsensus),
        FirstReveal::Malformed => Err(TallyError::MalformedReveal),
        FirstReveal::Prices(p) => {
            assert(p.len() <= u64::MAX);
            Ok(encode_uint_array(&p))
        },
    }
}

} // verus!
