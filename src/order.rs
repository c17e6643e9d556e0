//! Byte-wise lexicographic order on hash keys.
use vstd::prelude::*;

verus! {

/// How a line's key compares with the hash being searched for.
#[derive(Clone, Copy, Debug, PartialEq, Eq, Structural)]
pub enum KeyOrder {
    Less,
    Equal,
    Greater,
}

/// `a` sorts strictly before `b`, looking at positions `i..` once `a` and `b`
/// agree on every position before `i`.
pub open spec fn lex_lt_from(a: Seq<u8>, b: Seq<u8>, i: int) -> bool
    decreases a.len() - i,
{
    if i >= a.len() {
        i < b.len()
    } else if i >= b.len() {
        false
    } else if a[i] != b[i] {
        a[i] < b[i]
    } else {
        lex_lt_from(a, b, i + 1)
    }
}

/// `a` sorts strictly before `b` as a byte string (a proper prefix sorts first).
pub open spec fn lex_lt(a: Seq<u8>, b: Seq<u8>) -> bool {
    lex_lt_from(a, b, 0)
}

pub open spec fn key_order(key: Seq<u8>, target: Seq<u8>) -> KeyOrder {
    if key == target {
        KeyOrder::Equal
    } else if lex_lt(key, target) {
        KeyOrder::Less
    } else {
        KeyOrder::Greater
    }
}

proof fn lemma_lex_from_total(a: Seq<u8>, b: Seq<u8>, i: int)
    requires
        0 <= i <= a.len(),
        i <= b.len(),
        forall|j: int| 0 <= j < i ==> a[j] == b[j],
    ensures
        lex_lt_from(a, b, i) || lex_lt_from(b, a, i) || a == b,
        !(lex_lt_from(a, b, i) && lex_lt_from(b, a, i)),
        lex_lt_from(a, b, i) ==> a != b,
    decreases a.len() - i,
{
    if i < a.len() && i < b.len() && a[i] == b[i] {
        lemma_lex_from_total(a, b, i + 1);
    }
    if i == a.len() && i == b.len() {
        assert(a =~= b);
    }
    if lex_lt_from(a, b, i) && a == b {
        lemma_lex_irrefl(a, i);
    }
}

proof fn lemma_lex_irrefl(a: Seq<u8>, i: int)
    requires
        0 <= i <= a.len(),
    ensures
        !lex_lt_from(a, a, i),
    decreases a.len() - i,
{
    if i < a.len() {
        lemma_lex_irrefl(a, i + 1);
    }
}

proof fn lemma_lex_from_trans(a: Seq<u8>, b: Seq<u8>, c: Seq<u8>, i: int)
    requires
        0 <= i <= a.len(),
        i <= b.len(),
        i <= c.len(),
        forall|j: int| 0 <= j < i ==> a[j] == b[j] && b[j] == c[j],
        lex_lt_from(a, b, i),
        lex_lt_from(b, c, i),
    ensures
        lex_lt_from(a, c, i),
    decreases a.len() - i,
{
    if i < a.len() && i < b.len() && i < c.len() && a[i] == b[i] && b[i] == c[i] {
        lemma_lex_from_trans(a, b, c, i + 1);
    }
}

/// Exactly one of `a < b`, `a == b`, `b < a` holds.
pub proof fn lemma_lex_trichotomy(a: Seq<u8>, b: Seq<u8>)
    ensures
        lex_lt(a, b) || lex_lt(b, a) || a == b,
        !(lex_lt(a, b) && lex_lt(b, a)),
        lex_lt(a, b) ==> a != b,
{
    lemma_lex_from_total(a, b, 0);
}

/// The order is transitive.
pub proof fn lemma_lex_trans(a: Seq<u8>, b: Seq<u8>, c: Seq<u8>)
    requires
        lex_lt(a, b),
        lex_lt(b, c),
    ensures
        lex_lt(a, c),
{
    lemma_lex_from_trans(a, b, c, 0);
}

/// Compares `key` with `target` byte by byte.
pub fn compare_keys(key: &[u8], target: &[u8]) -> (r: KeyOrder)
    ensures
        r == key_order(key@, target@),
{
    proof {
        lemma_lex_trichotomy(key@, target@);
    }
    let mut i: usize = 0;
    while i < key.len() && i < target.len()
        invariant
            0 <= i <= key.len(),
            i <= target.len(),
            forall|j: int| 0 <= j < i ==> key@[j] == target@[j],
            lex_lt(key@, target@) == lex_lt_from(key@, target@, i as int),
            lex_lt(target@, key@) == lex_lt_from(target@, key@, i as int),
        decreases key.len() - i,
    {
        if key[i] < target[i] {
            assert(key@ != target@);
            return KeyOrder::Less;
        }
        if key[i] > target[i] {
            assert(key@ != target@);
            return KeyOrder::Greater;
        }
        i = i + 1;
    }
    if i == key.len() && i == target.len() {
        assert(key@ =~= target@);
        KeyOrder::Equal
    } else if i == key.len() {
        KeyOrder::Less
    } else {
        KeyOrder::Greater
    }
}

} // verus!
