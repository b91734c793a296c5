//! Byte-string keys: lexicographic ordering, a three-way comparison, and
//! range bounds with inclusive/exclusive/unbounded endpoints.

use vstd::prelude::*;

verus! {

/// Strict lexicographic order on byte sequences: `a` comes before `b`
/// when `a` is a proper prefix of `b`, or the first differing byte of
/// `a` is smaller.
pub open spec fn lex_lt(a: Seq<u8>, b: Seq<u8>) -> bool
    decreases a.len(),
{
    if b.len() == 0 {
        false
    } else if a.len() == 0 {
        true
    } else if a[0] < b[0] {
        true
    } else if a[0] > b[0] {
        false
    } else {
        lex_lt(a.drop_first(), b.drop_first())
    }
}

pub open spec fn lex_le(a: Seq<u8>, b: Seq<u8>) -> bool {
    lex_lt(a, b) || a == b
}

/// The order is total: two keys are comparable or equal.
pub proof fn lemma_lex_total(a: Seq<u8>, b: Seq<u8>)
    ensures
        lex_lt(a, b) || lex_lt(b, a) || a == b,
    decreases a.len(),
{
    if a.len() == 0 || b.len() == 0 {
        if a.len() == 0 && b.len() == 0 {
            assert(a =~= b);
        }
    } else if a[0] == b[0] {
        lemma_lex_total(a.drop_first(), b.drop_first());
        if a.drop_first() == b.drop_first() {
            assert(a.drop_first().len() == a.len() - 1);
            assert(b.drop_first().len() == b.len() - 1);
            assert(a.len() == b.len());
            assert forall|i: int| 0 <= i < a.len() implies a[i] == b[i] by {
                if i >= 1 {
                    assert(a.drop_first()[i - 1] == b.drop_first()[i - 1]);
                    assert(a.drop_first()[i - 1] == a[i]);
                    assert(b.drop_first()[i - 1] == b[i]);
                } else {
                    assert(a[0] == b[0]);
                }
            }
            assert(a =~= b);
        }
    }
}

/// The order is irreflexive and asymmetric.
pub proof fn lemma_lex_asym(a: Seq<u8>, b: Seq<u8>)
    ensures
        lex_lt(a, b) ==> !lex_lt(b, a) && a != b,
    decreases a.len(),
{
    if lex_lt(a, b) {
        if a.len() != 0 && b.len() != 0 && a[0] == b[0] {
            lemma_lex_asym(a.drop_first(), b.drop_first());
        }
    }
}

/// The order is transitive.
pub proof fn lemma_lex_trans(a: Seq<u8>, b: Seq<u8>, c: Seq<u8>)
    ensures
        lex_lt(a, b) && lex_lt(b, c) ==> lex_lt(a, c),
    decreases a.len(),
{
    if a.len() != 0 && b.len() != 0 && c.len() != 0 {
        lemma_lex_trans(a.drop_first(), b.drop_first(), c.drop_first());
    }
}

/// A non-strict bound followed by a strict one is strict, and the other
/// compositions of the two orders.
pub proof fn lemma_lex_le_lt_trans(a: Seq<u8>, b: Seq<u8>, c: Seq<u8>)
    ensures
        lex_le(a, b) && lex_lt(b, c) ==> lex_lt(a, c),
        lex_lt(a, b) && lex_le(b, c) ==> lex_lt(a, c),
        lex_le(a, b) && lex_le(b, c) ==> lex_le(a, c),
{
    lemma_lex_trans(a, b, c);
}

/// Keys that agree on their first `i` bytes compare by what follows:
/// a shorter key precedes, equal lengths make them equal, and otherwise
/// the bytes at position `i` decide.
pub proof fn lemma_lex_from_prefix(a: Seq<u8>, b: Seq<u8>, i: int)
    requires
        0 <= i <= a.len(),
        0 <= i <= b.len(),
        forall|j: int| 0 <= j < i ==> a[j] == b[j],
    ensures
        i < a.len() && i < b.len() && a[i] < b[i] ==> lex_lt(a, b),
        i < a.len() && i < b.len() && a[i] > b[i] ==> lex_lt(b, a),
        i == a.len() && i < b.len() ==> lex_lt(a, b),
        i == b.len() && i < a.len() ==> lex_lt(b, a),
        i == a.len() && i == b.len() ==> a == b,
    decreases i,
{
    if i == 0 {
        if a.len() == 0 && b.len() == 0 {
            assert(a =~= b);
        }
    } else {
        lemma_lex_from_prefix(a.drop_first(), b.drop_first(), i - 1);
        assert(forall|j: int| 0 <= j < i - 1 ==> a.drop_first()[j] == b.drop_first()[j]);
        if i - 1 < a.len() - 1 && i - 1 < b.len() - 1 {
            assert(a.drop_first()[i - 1] == a[i]);
            assert(b.drop_first()[i - 1] == b[i]);
        }
        if i == a.len() && i == b.len() {
            assert(a.drop_first() =~= b.drop_first());
            assert(a =~= b);
        }
    }
}

/// Result of a three-way comparison of two keys.
#[derive(Clone, Copy, Debug, PartialEq, Eq, Structural)]
pub enum KeyOrdering {
    Less,
    Equal,
    Greater,
}

/// Three-way lexicographic comparison of two byte strings.
pub fn key_compare(a: &[u8], b: &[u8]) -> (r: KeyOrdering)
    ensures
        (r matches KeyOrdering::Less) <==> lex_lt(a@, b@),
        (r matches KeyOrdering::Equal) <==> a@ == b@,
        (r matches KeyOrdering::Greater) <==> lex_lt(b@, a@),
{
    let mut i: usize = 0;
    loop
        invariant
            0 <= i <= a@.len(),
            0 <= i <= b@.len(),
            forall|j: int| 0 <= j < i ==> a@[j] == b@[j],
        decreases a@.len() - i,
    {
        proof {
            lemma_lex_from_prefix(a@, b@, i as int);
            lemma_lex_asym(a@, b@);
            lemma_lex_asym(b@, a@);
        }
        if i == a.len() && i == b.len() {
            return KeyOrdering::Equal;
        }
        if i == a.len() {
            return KeyOrdering::Less;
        }
        if i == b.len() {
            return KeyOrdering::Greater;
        }
        if a[i] < b[i] {
            return KeyOrdering::Less;
        }
        if a[i] > b[i] {
            return KeyOrdering::Greater;
        }
        i = i + 1;
    }
}

/// One endpoint of a key range: inclusive, exclusive, or absent.
#[derive(Debug)]
pub enum KeyBound {
    Included(Vec<u8>),
    Excluded(Vec<u8>),
    Unbounded,
}

/// Whether `key` lies at or above the lower bound `b`.
pub open spec fn above_lower(b: KeyBound, key: Seq<u8>) -> bool {
    match b {
        KeyBound::Included(l) => lex_le(l@, key),
        KeyBound::Excluded(l) => lex_lt(l@, key),
        KeyBound::Unbounded => true,
    }
}

/// Whether `key` lies at or below the upper bound `b`.
pub open spec fn below_upper(b: KeyBound, key: Seq<u8>) -> bool {
    match b {
        KeyBound::Included(u) => lex_le(key, u@),
        KeyBound::Excluded(u) => lex_lt(key, u@),
        KeyBound::Unbounded => true,
    }
}

/// Whether `key` lies inside the range `[lower, upper]`.
pub open spec fn in_range(lower: KeyBound, upper: KeyBound, key: Seq<u8>) -> bool {
    above_lower(lower, key) && below_upper(upper, key)
}

/// Test whether `key` lies inside the range `[lower, upper]`.
pub fn key_within_bounds(lower: &KeyBound, upper: &KeyBound, key: &[u8]) -> (r: bool)
    ensures
        r == in_range(*lower, *upper, key@),
{
    let above = match lower {
        KeyBound::Included(l) => {
            proof {
                lemma_lex_total(l@, key@);
                lemma_lex_asym(l@, key@);
                lemma_lex_asym(key@, l@);
            }
            !matches!(key_compare(l.as_slice(), key), KeyOrdering::Greater)
        },
        KeyBound::Excluded(l) => matches!(key_compare(l.as_slice(), key), KeyOrdering::Less),
        KeyBound::Unbounded => true,
    };
    let below = match upper {
        KeyBound::Included(u) => {
            proof {
                lemma_lex_total(key@, u@);
                lemma_lex_asym(key@, u@);
                lemma_lex_asym(u@, key@);
            }
            !matches!(key_compare(key, u.as_slice()), KeyOrdering::Greater)
        },
        KeyBound::Excluded(u) => matches!(key_compare(key, u.as_slice()), KeyOrdering::Less),
        KeyBound::Unbounded => true,
    };
    above && below
}

} // verus!
