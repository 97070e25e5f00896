//! The observer's own decisions: which identifiers to query, and what each
//! quote-service response means for the phase.
use vstd::prelude::*;
use crate::decimal::{decimal_text, text_of};
use crate::price::{is_price_text, scale_price, scaled_price};

verus! {

/// Whitespace: the characters with the Unicode White_Space property.
pub open spec fn is_space(c: char) -> bool {
    let u = c as u32;
    (0x9 <= u && u <= 0xd) || u == 0x20 || u == 0x85 || u == 0xa0 || u == 0x1680 || (0x2000 <= u
        && u <= 0x200a) || u == 0x2028 || u == 0x2029 || u == 0x202f || u == 0x205f || u == 0x3000
}

/// `s` without its leading whitespace.
pub open spec fn strip_leading(s: Seq<char>) -> Seq<char>
    decreases s.len(),
{
    if s.len() > 0 && is_space(s[0]) {
        strip_leading(s.drop_first())
    } else {
        s
    }
}

/// `s` without its trailing whitespace.
pub open spec fn strip_trailing(s: Seq<char>) -> Seq<char>
    decreases s.len(),
{
    if s.len() > 0 && is_space(s.last()) {
        strip_trailing(s.drop_last())
    } else {
        s
    }
}

/// `s` without leading and trailing whitespace.
pub open spec fn trimmed(s: Seq<char>) -> Seq<char> {
    strip_trailing(strip_leading(s))
}

/// The pieces of `s` between commas, in order; empty pieces included, so
/// there is always one piece more than there are commas.
pub open spec fn split_commas(s: Seq<char>) -> Seq<Seq<char>>
    decreases s.len(),
{
    if s.len() == 0 {
        seq![Seq::empty()]
    } else {
        let p = split_commas(s.drop_last());
        if s.last() == ',' {
            p.push(Seq::empty())
        } else {
            p.update(p.len() - 1, p.last().push(s.last()))
        }
    }
}

/// The identifiers of an input: the trimmed input split at each comma.
pub open spec fn identifier_list(input: Seq<char>) -> Seq<Seq<char>> {
    split_commas(trimmed(input))
}

proof fn lemma_split_nonempty(s: Seq<char>)
    ensures
        split_commas(s).len() >= 1,
    decreases s.len(),
{
    if s.len() > 0 {
        lemma_split_nonempty(s.drop_last());
    }
}

/// Whether `c` is whitespace (see `is_space`).
fn space(c: char) -> (r: bool)
    ensures
        r == is_space(c),
{
    let u = c as u32;
    (0x9 <= u && u <= 0xd) || u == 0x20 || u == 0x85 || u == 0xa0 || u == 0x1680 || (0x2000 <= u
        && u <= 0x200a) || u == 0x2028 || u == 0x2029 || u == 0x202f || u == 0x205f || u == 0x3000
}

/// The characters of `s`, in order.
fn chars_of(s: &str) -> (r: Vec<char>)
    ensures
        r@ == s@,
{
    broadcast use vstd::string::axiom_spec_iter;

    let mut out: Vec<char> = Vec::new();
    for c in it: s.chars()
        invariant
            out@ == it.seq().take(it.index() as int),
            it.seq() == s@,
    {
        out.push(c);
    }
    out
}

/// The input without leading and trailing whitespace: the one identifier of
/// the scalar flow.
pub fn trim_input(input: &str) -> (r: Vec<char>)
    ensures
        r@ == trimmed(input@),
{
    let cs = chars_of(input);
    let ghost s = cs@;
    let len = cs.len();
    let mut a: usize = 0;
    assert(s.subrange(0, len as int) =~= s);
    while a < len && space(cs[a])
        invariant
            0 <= a <= len,
            len == s.len(),
            s == cs@,
            strip_leading(s) == strip_leading(s.subrange(a as int, len as int)),
        decreases len - a,
    {
        assert(s.subrange(a as int, len as int).drop_first() =~= s.subrange(a + 1, len as int));
        a = a + 1;
    }
    let ghost lead = s.subrange(a as int, len as int);
    assert(strip_leading(lead) == lead);
    let mut b: usize = len;
    assert(lead.subrange(0, (b - a) as int) =~= lead);
    while b > a && space(cs[b - 1])
        invariant
            a <= b <= len,
            len == s.len(),
            s == cs@,
            lead == s.subrange(a as int, len as int),
            strip_trailing(lead) == strip_trailing(s.subrange(a as int, b as int)),
        decreases b - a,
    {
        assert(s.subrange(a as int, b as int).drop_last() =~= s.subrange(a as int, b - 1));
        b = b - 1;
    }
    let ghost t = s.subrange(a as int, b as int);
    assert(strip_trailing(t) == t);
    let mut out: Vec<char> = Vec::new();
    let mut i: usize = a;
    while i < b
        invariant
            a <= i <= b <= len,
            len == cs@.len(),
            s == cs@,
            out@ == s.subrange(a as int, i as int),
        decreases b - i,
    {
        out.push(cs[i]);
        assert(out@ =~= s.subrange(a as int, i + 1));
        i = i + 1;
    }
    out
}

/// The identifiers of the array flow: the trimmed input split at each comma,
/// in input order, empty pieces included.
pub fn split_identifiers(input: &str) -> (r: Vec<Vec<char>>)
    ensures
        r.deep_view() == identifier_list(input@),
{
    let t = trim_input(input);
    let mut pieces: Vec<Vec<char>> = Vec::new();
    let mut cur: Vec<char> = Vec::new();
    let mut i: usize = 0;
    assert(t@.take(0) =~= Seq::<char>::empty());
    assert(pieces.deep_view().push(cur@) =~= split_commas(t@.take(0)));
    while i < t.len()
        invariant
            0 <= i <= t.len(),
            pieces.deep_view().push(cur@) == split_commas(t@.take(i as int)),
        decreases t.len() - i,
    {
        let c = t[i];
        let ghost before = t@.take(i as int);
        assert(t@.take(i + 1).drop_last() =~= before);
        proof {
            lemma_split_nonempty(before);
        }
        if c == ',' {
            let ghost old_view = pieces.deep_view();
            let ghost p = cur@;
            assert(cur.deep_view() =~= p);
            pieces.push(cur);
            cur = Vec::new();
            assert(pieces@.last().deep_view() =~= p);
            assert(pieces.deep_view() =~= old_view.push(p));
            assert(pieces.deep_view().push(cur@) =~= split_commas(t@.take(i + 1)));
        } else {
            cur.push(c);
            assert(pieces.deep_view().push(cur@) =~= split_commas(t@.take(i + 1)));
        }
        i = i + 1;
    }
    assert(t@.take(i as int) =~= t@);
    let ghost done = pieces.deep_view();
    let ghost p = cur@;
    assert(cur.deep_view() =~= p);
    pieces.push(cur);
    assert(pieces@.last().deep_view() =~= p);
    assert(pieces.deep_view() =~= done.push(p));
    pieces
}

/// What came of one request to the quote service.
pub enum QuoteOutcome {
    /// The service answered with a status other than success.
    Rejected,
    /// The response body is not UTF-8 text.
    Undecodable,
    /// The body is not a quote object with a string mid price.
    Unparsable,
    /// The mid price of the quote, as the text that the service sent.
    Mid(Vec<u8>),
}

/// Why the observer gave up on the phase.
#[derive(Debug, Clone, Copy, PartialEq, Eq, Structural)]
pub enum ObserveError {
    /// The quote service did not answer with success.
    FetchFailed,
    /// A response body was not UTF-8 text.
    UndecodableBody,
    /// A response body was not a quote.
    MalformedQuote,
    /// The mid price was not price text, or too large to scale.
    InvalidPrice,
}

/// The scalar flow: one quote gives the phase result, the mid price scaled to
/// millionths (rounded to nearest, halves up) as decimal text. Every failure,
/// a rejected fetch included, ends the phase.
pub fn observe_scalar(outcome: QuoteOutcome) -> (r: Result<Vec<u8>, ObserveError>)
    ensures
        outcome is Rejected ==> r == Err::<Vec<u8>, ObserveError>(ObserveError::FetchFailed),
        outcome is Undecodable ==> r == Err::<Vec<u8>, ObserveError>(
            ObserveError::UndecodableBody,
        ),
        outcome is Unparsable ==> r == Err::<Vec<u8>, ObserveError>(
            ObserveError::MalformedQuote,
        ),
        outcome matches QuoteOutcome::Mid(t) ==> if is_price_text(t@) && scaled_price(t@)
            <= u64::MAX {
            r matches Ok(o) && o@ == text_of(scaled_price(t@))
        } else {
            r == Err::<Vec<u8>, ObserveError>(ObserveError::InvalidPrice)
        },
{
    match outcome {
        QuoteOutcome::Rejected => Err(ObserveError::FetchFailed),
        QuoteOutcome::Undecodable => Err(ObserveError::UndecodableBody),
        QuoteOutcome::Unparsable => Err(ObserveError::MalformedQuote),
        QuoteOutcome::Mid(t) => match scale_price(t.as_slice()) {
            Some(v) => Ok(decimal_text(v as u128)),
            None => Err(ObserveError::InvalidPrice),
        },
    }
}

/// What the array flow does with one identifier's quote.
pub enum ItemStep {
    /// Leave the identifier out and go on with the next one.
    Skip,
    /// Keep this mid price text as the identifier's entry; it is read as a
    /// floating-point number where the entries are emitted.
    Keep(Vec<u8>),
    /// End the phase with this failure.
    Abort(ObserveError),
}

/// The array flow's policy for one quote: a rejected fetch skips the
/// identifier; an undecodable body or a malformed quote ends the phase; the
/// mid price text of a quote is kept as it came.
pub fn observe_item(outcome: QuoteOutcome) -> (r: ItemStep)
    ensures
        outcome is Rejected ==> r is Skip,
        outcome is Undecodable ==> r matches ItemStep::Abort(ObserveError::UndecodableBody),
        outcome is Unparsable ==> r matches ItemStep::Abort(ObserveError::MalformedQuote),
        outcome matches QuoteOutcome::Mid(t) ==> (r matches ItemStep::Keep(k) && k@ == t@),
{
    match outcome {
        QuoteOutcome::Rejected => ItemStep::Skip,
        QuoteOutcome::Undecodable => ItemStep::Abort(ObserveError::UndecodableBody),
        QuoteOutcome::Unparsable => ItemStep::Abort(ObserveError::MalformedQuote),
        QuoteOutcome::Mid(t) => ItemStep::Keep(t),
    }
}

} // verus!
