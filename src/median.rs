//! The median of a non-empty list of unsigned integers.
use vstd::prelude::*;
use vstd::relations::{sorted_by, total_ordering};

verus! {

/// Ascending order on `u128`.
pub open spec fn ascending() -> spec_fn(u128, u128) -> bool {
    |x: u128, y: u128| x <= y
}

/// The values of `s` in ascending order.
pub open spec fn sorted_values(s: Seq<u128>) -> Seq<u128> {
    s.sort_by(ascending())
}

/// The middle of an ascending sequence: the middle element for an odd
/// length, and for an even length the floor of the mean of the two middle
/// elements (`[1, 2]` gives `1`).
pub open spec fn middle(t: Seq<u128>) -> int {
    let n = t.len() as int;
    if n % 2 == 1 {
        t[n / 2] as int
    } else {
        (t[n / 2 - 1] + t[n / 2]) / 2
    }
}

/// The median of a non-empty sequence of values.
pub open spec fn median_of(s: Seq<u128>) -> int {
    middle(sorted_values(s))
}

proof fn lemma_ascending_total()
    ensures
        total_ordering(ascending()),
{
}

/// An ascending sequence with the elements of `s` is `sorted_values(s)`.
proof fn lemma_sorted_is_sort(s: Seq<u128>, t: Seq<u128>)
    requires
        sorted_by(t, ascending()),
        t.to_multiset() == s.to_multiset(),
    ensures
        t == sorted_values(s),
{
    lemma_ascending_total();
    s.lemma_sort_by_ensures(ascending());
    vstd::seq_lib::lemma_sorted_unique(t, sorted_values(s), ascending());
}

/// The median does not depend on the order of the values: two sequences with
/// the same elements, counted with multiplicity, have the same median.
pub proof fn lemma_median_order_independent(a: Seq<u128>, b: Seq<u128>)
    requires
        a.to_multiset() == b.to_multiset(),
    ensures
        median_of(a) == median_of(b),
{
    lemma_ascending_total();
    a.lemma_sort_by_ensures(ascending());
    lemma_sorted_is_sort(b, sorted_values(a));
}

/// Relies on `slice::sort_unstable`: the slice ends in ascending order and
/// holds the same elements as before.
#[verifier::external_body]
fn sort_ascending(v: &mut Vec<u128>)
    ensures
        final(v)@.len() == old(v)@.len(),
        sorted_by(final(v)@, ascending()),
        final(v)@.to_multiset() == old(v)@.to_multiset(),
{
    v.sort_unstable();
}

/// The median of `values`: after an ascending sort, the middle element, or
/// for an even count the floor of the mean of the two middle elements.
pub fn median(values: Vec<u128>) -> (r: u128)
    requires
        values.len() > 0,
    ensures
        r == median_of(values@),
{
    let ghost original = values@;
    let mut t = values;
    sort_ascending(&mut t);
    proof {
        lemma_sorted_is_sort(original, t@);
    }
    let n = t.len();
    if n % 2 == 1 {
        t[n / 2]
    } else {
        let a = t[n / 2 - 1];
        let b = t[n / 2];
        assert(ascending()(a, b));
        a + (b - a) / 2
    }
}

} // verus!
