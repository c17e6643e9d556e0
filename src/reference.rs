//! The reference data as a whole: its entries, the order they must be in,
//! and what a correct lookup of a hash in it returns.
use vstd::prelude::*;
use crate::line::{is_line_start, line_count, line_from, line_key, well_formed_line};
use crate::order::{lemma_lex_trichotomy, lex_lt};
use crate::search::LookupResult;

verus! {

/// The key of the line that begins at `p`.
pub open spec fn key_at(d: Seq<u8>, p: int) -> Seq<u8> {
    line_key(line_from(d, p))
}

/// A line begins at `p`, or `p` is the end of the data.
pub open spec fn at_line(d: Seq<u8>, p: int) -> bool {
    is_line_start(d, p) || p == d.len()
}

/// Every line is a well-formed `HASH:COUNT` entry.
pub open spec fn well_formed(d: Seq<u8>) -> bool {
    forall|p: int| is_line_start(d, p) ==> well_formed_line(#[trigger] line_from(d, p))
}

/// Keys strictly ascend from each line to the next.
pub open spec fn sorted(d: Seq<u8>) -> bool {
    forall|p: int, q: int|
        is_line_start(d, p) && is_line_start(d, q) && p < q ==> lex_lt(
            #[trigger] key_at(d, p),
            #[trigger] key_at(d, q),
        )
}

/// Some line of `d` has key `t`.
pub open spec fn has_key(d: Seq<u8>, t: Seq<u8>) -> bool {
    exists|p: int| is_line_start(d, p) && key_at(d, p) == t
}

/// The correct answer for `t`, found by looking at every line: the count of
/// the line whose key is `t`, if there is one.
pub open spec fn lookup_spec(d: Seq<u8>, t: Seq<u8>) -> LookupResult {
    if has_key(d, t) {
        LookupResult::Found(
            line_count(line_from(d, choose|p: int| is_line_start(d, p) && key_at(d, p) == t)),
        )
    } else {
        LookupResult::NotFound
    }
}

/// Every line before `p` has a key below `t`.
pub open spec fn all_below(d: Seq<u8>, p: int, t: Seq<u8>) -> bool {
    forall|q: int| is_line_start(d, q) && q < p ==> lex_lt(#[trigger] key_at(d, q), t)
}

/// Every line from `p` on has a key above `t`.
pub open spec fn all_above(d: Seq<u8>, p: int, t: Seq<u8>) -> bool {
    forall|q: int| is_line_start(d, q) && q >= p ==> lex_lt(t, #[trigger] key_at(d, q))
}

/// In sorted data a key names at most one line.
pub proof fn lemma_key_unique(d: Seq<u8>, p: int, q: int)
    requires
        sorted(d),
        is_line_start(d, p),
        is_line_start(d, q),
        key_at(d, p) == key_at(d, q),
    ensures
        p == q,
{
    lemma_lex_trichotomy(key_at(d, p), key_at(d, q));
    if p < q {
        assert(lex_lt(key_at(d, p), key_at(d, q)));
    } else if q < p {
        assert(lex_lt(key_at(d, q), key_at(d, p)));
    }
}

/// The line at `p` has key `t`, so a correct lookup returns its count.
pub proof fn lemma_found_at(d: Seq<u8>, p: int, t: Seq<u8>)
    requires
        sorted(d),
        is_line_start(d, p),
        key_at(d, p) == t,
    ensures
        lookup_spec(d, t) == LookupResult::Found(line_count(line_from(d, p))),
{
    assert(has_key(d, t));
    let w = choose|w: int| is_line_start(d, w) && key_at(d, w) == t;
    lemma_key_unique(d, p, w);
}

/// No line is neither below `lo`'s bound nor above `hi`'s: `t` is absent.
pub proof fn lemma_absent_between(d: Seq<u8>, lo: int, hi: int, t: Seq<u8>)
    requires
        all_below(d, lo, t),
        all_above(d, hi, t),
        forall|q: int| is_line_start(d, q) ==> q < lo || q >= hi,
    ensures
        lookup_spec(d, t) == LookupResult::NotFound,
{
    assert forall|q: int| is_line_start(d, q) implies key_at(d, q) != t by {
        lemma_lex_trichotomy(key_at(d, q), t);
    }
}

/// A hash above every key of the data is not found.
pub proof fn lemma_above_every_key(d: Seq<u8>, t: Seq<u8>)
    requires
        forall|p: int| is_line_start(d, p) ==> lex_lt(#[trigger] key_at(d, p), t),
    ensures
        lookup_spec(d, t) == LookupResult::NotFound,
{
    lemma_absent_between(d, d.len() as int, d.len() as int, t);
}

} // verus!
