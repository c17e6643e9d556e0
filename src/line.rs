//! Lines of the reference data: where they end, and how a `HASH:COUNT` line
//! is split into its key and count.
use vstd::prelude::*;
use vstd::slice::slice_subrange;
use crate::order::{KeyOrder, compare_keys, key_order};

verus! {

pub const NEWLINE: u8 = 10;

pub const COLON: u8 = 58;

/// Fatal conditions of a search.
#[derive(Clone, Copy, Debug, PartialEq, Eq, Structural)]
pub enum SearchError {
    /// A probed line has no colon, or no decimal count that fits in 64 bits.
    MalformedLine,
    /// A query sorts before one that was already searched.
    OrderingViolation,
}

/// A probed line compared with the target: before it, equal (with the line's
/// count), or after it.
#[derive(Clone, Copy, Debug, PartialEq, Eq, Structural)]
pub enum Probe {
    Less,
    Equal(u64),
    Greater,
}

/// The position just past the line that holds byte `p` (past its newline, or
/// the end of the data); `p` itself where `p` is at or past the end.
pub open spec fn line_end(d: Seq<u8>, p: int) -> int
    decreases d.len() - p,
{
    if p < 0 || p >= d.len() {
        p
    } else if d[p] == NEWLINE {
        p + 1
    } else {
        line_end(d, p + 1)
    }
}

/// A line of `d` begins at `p`.
pub open spec fn is_line_start(d: Seq<u8>, p: int) -> bool {
    0 <= p < d.len() && (p == 0 || d[p - 1] == NEWLINE)
}

/// What one line read at `p` yields: the rest of the line holding `p`, with
/// its newline; empty at or past the end.
pub open spec fn line_from(d: Seq<u8>, p: int) -> Seq<u8> {
    if 0 <= p < d.len() {
        d.subrange(p, line_end(d, p))
    } else {
        Seq::empty()
    }
}

pub open spec fn is_space(b: u8) -> bool {
    b == 32 || (9 <= b && b <= 13)
}

pub open spec fn is_digit(b: u8) -> bool {
    48 <= b && b <= 57
}

/// Index of the first colon of `l` at or after `i`, or `l.len()` if none.
pub open spec fn colon_from(l: Seq<u8>, i: int) -> int
    decreases l.len() - i,
{
    if i < 0 || i >= l.len() {
        l.len() as int
    } else if l[i] == COLON {
        i
    } else {
        colon_from(l, i + 1)
    }
}

pub open spec fn colon_index(l: Seq<u8>) -> int {
    colon_from(l, 0)
}

/// The key of a line: what stands before its first colon.
pub open spec fn line_key(l: Seq<u8>) -> Seq<u8> {
    l.take(colon_index(l))
}

pub open spec fn trim_end(s: Seq<u8>) -> Seq<u8>
    decreases s.len(),
{
    if s.len() > 0 && is_space(s.last()) {
        trim_end(s.drop_last())
    } else {
        s
    }
}

/// The count field of a line: what follows its first colon, trailing
/// whitespace removed.
pub open spec fn line_value(l: Seq<u8>) -> Seq<u8> {
    trim_end(l.skip(colon_index(l) + 1))
}

pub open spec fn decimal_value(s: Seq<u8>) -> nat
    decreases s.len(),
{
    if s.len() == 0 {
        0
    } else {
        decimal_value(s.drop_last()) * 10 + (s.last() - 48) as nat
    }
}

pub open spec fn is_decimal(s: Seq<u8>) -> bool {
    s.len() > 0 && forall|i: int| 0 <= i < s.len() ==> is_digit(#[trigger] s[i])
}

/// A line with a colon followed by a decimal count that fits in a `u64`.
pub open spec fn well_formed_line(l: Seq<u8>) -> bool {
    colon_index(l) < l.len() && is_decimal(line_value(l)) && decimal_value(line_value(l))
        <= u64::MAX
}

pub open spec fn line_count(l: Seq<u8>) -> u64 {
    decimal_value(line_value(l)) as u64
}

/// What probing line `l` for `target` gives.
pub open spec fn probe_spec(l: Seq<u8>, target: Seq<u8>) -> Result<Probe, SearchError> {
    if !well_formed_line(l) {
        Err(SearchError::MalformedLine)
    } else {
        match key_order(line_key(l), target) {
            KeyOrder::Less => Ok(Probe::Less),
            KeyOrder::Equal => Ok(Probe::Equal(line_count(l))),
            KeyOrder::Greater => Ok(Probe::Greater),
        }
    }
}

pub proof fn lemma_line_end(d: Seq<u8>, p: int)
    requires
        0 <= p < d.len(),
    ensures
        p < line_end(d, p) <= d.len(),
        line_end(d, p) == d.len() || d[line_end(d, p) - 1] == NEWLINE,
        forall|k: int| p <= k < line_end(d, p) - 1 ==> d[k] != NEWLINE,
    decreases d.len() - p,
{
    if d[p] != NEWLINE {
        if p + 1 < d.len() {
            lemma_line_end(d, p + 1);
        } else {
            assert(line_end(d, p + 1) == p + 1);
        }
    }
}

/// No line begins strictly inside the line read at `p`, and the next one
/// begins where it ends.
pub proof fn lemma_next_line_start(d: Seq<u8>, p: int)
    requires
        0 <= p < d.len(),
    ensures
        forall|q: int| p < q < line_end(d, p) ==> !is_line_start(d, q),
        line_end(d, p) < d.len() ==> is_line_start(d, line_end(d, p)),
{
    lemma_line_end(d, p);
}

proof fn lemma_colon_from(l: Seq<u8>, i: int)
    requires
        0 <= i <= l.len(),
    ensures
        i <= colon_from(l, i) <= l.len(),
        colon_from(l, i) < l.len() ==> l[colon_from(l, i)] == COLON,
        forall|k: int| i <= k < colon_from(l, i) ==> l[k] != COLON,
    decreases l.len() - i,
{
    if i < l.len() && l[i] != COLON {
        lemma_colon_from(l, i + 1);
    }
}

proof fn lemma_decimal_step(s: Seq<u8>, i: int)
    requires
        0 <= i < s.len(),
    ensures
        decimal_value(s.take(i + 1)) == decimal_value(s.take(i)) * 10 + (s[i] - 48) as nat,
{
    assert(s.take(i + 1).drop_last() =~= s.take(i));
}

proof fn lemma_decimal_grows(s: Seq<u8>, i: int)
    requires
        0 <= i <= s.len(),
        forall|k: int| 0 <= k < s.len() ==> is_digit(#[trigger] s[k]),
    ensures
        decimal_value(s.take(i)) <= decimal_value(s),
    decreases s.len() - i,
{
    if i < s.len() {
        lemma_decimal_step(s, i);
        lemma_decimal_grows(s, i + 1);
    } else {
        assert(s.take(i) =~= s);
    }
}

/// Reads the decimal count `s`; `None` unless it is a non-empty run of
/// digits whose value fits in a `u64`.
pub fn parse_count(s: &[u8]) -> (r: Option<u64>)
    ensures
        r == (if is_decimal(s@) && decimal_value(s@) <= u64::MAX {
            Some(decimal_value(s@) as u64)
        } else {
            None::<u64>
        }),
{
    if s.len() == 0 {
        return None;
    }
    let mut acc: u64 = 0;
    let mut i: usize = 0;
    while i < s.len()
        invariant
            0 <= i <= s.len(),
            s.len() > 0,
            acc as nat == decimal_value(s@.take(i as int)),
            forall|k: int| 0 <= k < i ==> is_digit(#[trigger] s@[k]),
        decreases s.len() - i,
    {
        let b = s[i];
        if b < 48 || b > 57 {
            return None;
        }
        proof {
            lemma_decimal_step(s@, i as int);
        }
        let digit: u64 = (b - 48) as u64;
        if acc > (u64::MAX - digit) / 10 {
            proof {
                assert(acc * 10 + digit > u64::MAX) by (nonlinear_arith)
                    requires
                        acc > (u64::MAX - digit) / 10,
                        digit <= 9,
                ;
                if forall|k: int| 0 <= k < s.len() ==> is_digit(#[trigger] s@[k]) {
                    lemma_decimal_grows(s@, i + 1);
                }
            }
            return None;
        }
        acc = acc * 10 + digit;
        i = i + 1;
    }
    assert(s@.take(s.len() as int) =~= s@);
    Some(acc)
}

proof fn lemma_colon_index_is(l: Seq<u8>, i: int, c: int)
    requires
        0 <= i <= c <= l.len(),
        forall|k: int| 0 <= k < c ==> l[k] != COLON,
        c == l.len() || l[c] == COLON,
    ensures
        colon_from(l, i) == c,
    decreases c - i,
{
    if i < c {
        lemma_colon_index_is(l, i + 1, c);
    }
}

proof fn lemma_line_end_is(d: Seq<u8>, p: int, e: int)
    requires
        0 <= p <= e <= d.len(),
        forall|k: int| p <= k < e ==> d[k] != NEWLINE,
        e < d.len() ==> d[e] == NEWLINE,
    ensures
        line_end(d, p) == (if e < d.len() { e + 1 } else { d.len() as int }),
    decreases e - p,
{
    if p < e {
        lemma_line_end_is(d, p + 1, e);
    }
}

/// Splits `line` at its first colon, reads the count after it, and compares
/// the key before it with `target`.
pub fn probe(line: &[u8], target: &[u8]) -> (r: Result<Probe, SearchError>)
    ensures
        r == probe_spec(line@, target@),
{
    let mut c: usize = 0;
    while c < line.len() && line[c] != COLON
        invariant
            0 <= c <= line.len(),
            forall|k: int| 0 <= k < c ==> line@[k] != COLON,
        decreases line.len() - c,
    {
        c = c + 1;
    }
    proof {
        lemma_colon_index_is(line@, 0, c as int);
    }
    if c == line.len() {
        return Err(SearchError::MalformedLine);
    }
    let mut e: usize = line.len();
    assert(line@.skip(c + 1) =~= line@.subrange(c + 1, e as int));
    while e > c + 1 && (line[e - 1] == 32 || (9 <= line[e - 1] && line[e - 1] <= 13))
        invariant
            c + 1 <= e <= line.len(),
            trim_end(line@.skip(c + 1)) == trim_end(line@.subrange(c + 1, e as int)),
        decreases e,
    {
        assert(line@.subrange(c + 1, e as int).drop_last() =~= line@.subrange(
            c + 1,
            e as int - 1,
        ));
        e = e - 1;
    }
    let value = slice_subrange(line, c + 1, e);
    assert(trim_end(line@.subrange(c + 1, e as int)) == value@);
    let count = match parse_count(value) {
        Some(n) => n,
        None => {
            return Err(SearchError::MalformedLine);
        },
    };
    let key = slice_subrange(line, 0, c);
    assert(key@ =~= line_key(line@));
    match compare_keys(key, target) {
        KeyOrder::Less => Ok(Probe::Less),
        KeyOrder::Equal => Ok(Probe::Equal(count)),
        KeyOrder::Greater => Ok(Probe::Greater),
    }
}

/// Reads one line of in-memory reference data at byte `offset`: the rest of
/// the line holding that byte, and the offset just past it. At or past the
/// end the line is empty and the offset stays where it was.
pub fn read_line_at(data: &[u8], offset: u64) -> (r: (&[u8], u64))
    ensures
        r.0@ == line_from(data@, offset as int),
        r.1 == (if offset < data.len() { line_end(data@, offset as int) } else { offset as int }),
{
    if offset >= data.len() as u64 {
        let empty = slice_subrange(data, 0, 0);
        assert(empty@ =~= Seq::<u8>::empty());
        return (empty, offset);
    }
    let start = offset as usize;
    let mut i: usize = start;
    while i < data.len() && data[i] != NEWLINE
        invariant
            start <= i <= data.len(),
            forall|k: int| start <= k < i ==> data@[k] != NEWLINE,
        decreases data.len() - i,
    {
        i = i + 1;
    }
    proof {
        lemma_line_end_is(data@, start as int, i as int);
    }
    let end: usize = if i < data.len() {
        i + 1
    } else {
        i
    };
    (slice_subrange(data, start, end), end as u64)
}

} // verus!
