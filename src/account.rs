//! Accounts whose password hashes are looked up, and the lines of the
//! account export they are read from.
use vstd::prelude::*;
use vstd::slice::slice_subrange;
use crate::line::{decimal_value, is_decimal, is_space, parse_count};
use crate::search::copy_bytes;

verus! {

/// The `userAccountControl` bit that marks an account as disabled.
pub const UAC_ACCOUNT_DISABLE: u32 = 0x0002;

/// An account: its relative id, name, password hash and
/// `userAccountControl` flags.
pub struct User {
    pub rid: u64,
    pub username: Vec<u8>,
    pub password: Vec<u8>,
    pub uac: u32,
}

impl User {
    /// The account is not disabled.
    pub fn is_active(&self) -> (r: bool)
        ensures
            r == (self.uac & UAC_ACCOUNT_DISABLE == 0),
    {
        self.uac & UAC_ACCOUNT_DISABLE == 0
    }
}

/// First position at or after `i` that holds no whitespace.
pub open spec fn skip_spaces(s: Seq<u8>, i: int) -> int
    decreases s.len() - i,
{
    if i < 0 || i >= s.len() {
        s.len() as int
    } else if is_space(s[i]) {
        skip_spaces(s, i + 1)
    } else {
        i
    }
}

/// First position at or after `i` that holds whitespace.
pub open spec fn word_end(s: Seq<u8>, i: int) -> int
    decreases s.len() - i,
{
    if i < 0 || i >= s.len() {
        s.len() as int
    } else if is_space(s[i]) {
        i
    } else {
        word_end(s, i + 1)
    }
}

/// Where the `k`-th whitespace-separated word of `s` begins and ends.
pub open spec fn word_bounds(s: Seq<u8>, k: nat) -> (int, int)
    decreases k,
{
    let from = if k == 0 {
        0
    } else {
        word_bounds(s, (k - 1) as nat).1
    };
    let a = skip_spaces(s, from);
    (a, word_end(s, a))
}

pub open spec fn has_word(s: Seq<u8>, k: nat) -> bool {
    word_bounds(s, k).0 < s.len()
}

pub open spec fn word(s: Seq<u8>, k: nat) -> Seq<u8> {
    s.subrange(word_bounds(s, k).0, word_bounds(s, k).1)
}

pub open spec fn upper_byte(b: u8) -> u8 {
    if 97 <= b && b <= 122 {
        (b - 32) as u8
    } else {
        b
    }
}

pub open spec fn upper(s: Seq<u8>) -> Seq<u8> {
    s.map_values(|b: u8| upper_byte(b))
}

/// A decimal word whose value is at most `max`.
pub open spec fn number_at_most(w: Seq<u8>, max: nat) -> bool {
    is_decimal(w) && decimal_value(w) <= max
}

/// The line holds at least four words, the first and the fourth decimal
/// numbers that fit a `u64` and a `u32`.
pub open spec fn account_line_ok(s: Seq<u8>) -> bool {
    &&& has_word(s, 0) && has_word(s, 1) && has_word(s, 2) && has_word(s, 3)
    &&& number_at_most(word(s, 0), u64::MAX as nat)
    &&& number_at_most(word(s, 3), u32::MAX as nat)
}

proof fn lemma_skip_spaces_is(s: Seq<u8>, i: int, a: int)
    requires
        0 <= i <= a <= s.len(),
        forall|k: int| i <= k < a ==> is_space(s[k]),
        a == s.len() || !is_space(s[a]),
    ensures
        skip_spaces(s, i) == a,
    decreases a - i,
{
    if i < a {
        lemma_skip_spaces_is(s, i + 1, a);
    }
}

proof fn lemma_word_end_is(s: Seq<u8>, i: int, e: int)
    requires
        0 <= i <= e <= s.len(),
        forall|k: int| i <= k < e ==> !is_space(s[k]),
        e == s.len() || is_space(s[e]),
    ensures
        word_end(s, i) == e,
    decreases e - i,
{
    if i < e {
        lemma_word_end_is(s, i + 1, e);
    }
}

/// The next word of `s` from `from` on: where it begins and ends.
fn word_at(s: &[u8], from: usize) -> (r: (usize, usize))
    requires
        from <= s.len(),
    ensures
        r.0 == skip_spaces(s@, from as int),
        r.1 == word_end(s@, r.0 as int),
        from <= r.0 <= r.1 <= s.len(),
{
    let mut a: usize = from;
    while a < s.len() && (s[a] == 32 || (9 <= s[a] && s[a] <= 13))
        invariant
            from <= a <= s.len(),
            forall|k: int| from <= k < a ==> is_space(s@[k]),
        decreases s.len() - a,
    {
        a = a + 1;
    }
    proof {
        lemma_skip_spaces_is(s@, from as int, a as int);
    }
    let mut e: usize = a;
    while e < s.len() && !(s[e] == 32 || (9 <= s[e] && s[e] <= 13))
        invariant
            a <= e <= s.len(),
            forall|k: int| a <= k < e ==> !is_space(s@[k]),
        decreases s.len() - e,
    {
        e = e + 1;
    }
    proof {
        lemma_word_end_is(s@, a as int, e as int);
    }
    (a, e)
}

/// `s` with its ASCII lower-case letters made upper-case.
pub fn to_upper(s: &[u8]) -> (r: Vec<u8>)
    ensures
        r@ == upper(s@),
{
    let mut r: Vec<u8> = Vec::with_capacity(s.len());
    let mut i: usize = 0;
    while i < s.len()
        invariant
            0 <= i <= s.len(),
            r@ == upper(s@.take(i as int)),
        decreases s.len() - i,
    {
        let b = s[i];
        let u = if 97 <= b && b <= 122 {
            b - 32
        } else {
            b
        };
        r.push(u);
        i = i + 1;
        assert(r@ =~= upper(s@.take(i as int)));
    }
    assert(s@.take(s.len() as int) =~= s@);
    r
}

/// Reads one line of the account export: relative id, user name, password
/// hash and flags, separated by whitespace; further words are ignored. The
/// hash is made upper-case, as the reference file writes it.
pub fn parse_user(line: &[u8]) -> (r: Option<User>)
    ensures
        r is Some <==> account_line_ok(line@),
        r is Some ==> ({
            let u = r->Some_0;
            &&& u.rid == decimal_value(word(line@, 0))
            &&& u.username@ == word(line@, 1)
            &&& u.password@ == upper(word(line@, 2))
            &&& u.uac == decimal_value(word(line@, 3))
        }),
{
    let (a0, e0) = word_at(line, 0);
    let (a1, e1) = word_at(line, e0);
    let (a2, e2) = word_at(line, e1);
    let (a3, e3) = word_at(line, e2);
    proof {
        assert(word_bounds(line@, 0) == (a0 as int, e0 as int));
        assert(word_bounds(line@, 1) == (a1 as int, e1 as int));
        assert(word_bounds(line@, 2) == (a2 as int, e2 as int));
        assert(word_bounds(line@, 3) == (a3 as int, e3 as int));
    }
    if a3 >= line.len() {
        return None;
    }
    let rid = match parse_count(slice_subrange(line, a0, e0)) {
        Some(v) => v,
        None => {
            return None;
        },
    };
    let uac = match parse_count(slice_subrange(line, a3, e3)) {
        Some(v) => v,
        None => {
            return None;
        },
    };
    if uac > 0xffff_ffff {
        return None;
    }
    let username = copy_bytes(slice_subrange(line, a1, e1));
    let password = to_upper(slice_subrange(line, a2, e2));
    Some(User { rid, username, password, uac: uac as u32 })
}

} // verus!
