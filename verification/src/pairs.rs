//! Sorted sequences of key/value pairs: the materialized form of a range
//! scan, ordered strictly by key.

use vstd::prelude::*;

use crate::keys::KeyOrdering;
use crate::keys::key_compare;
use crate::keys::lemma_lex_asym;
use crate::keys::lemma_lex_total;
use crate::keys::lemma_lex_trans;
use crate::keys::lex_lt;

verus! {

/// The mathematical image of a pair vector.
pub open spec fn pairs_view(v: Seq<(Vec<u8>, Vec<u8>)>) -> Seq<(Seq<u8>, Seq<u8>)> {
    v.map_values(|p: (Vec<u8>, Vec<u8>)| (p.0@, p.1@))
}

/// Keys strictly ascending.
pub open spec fn pairs_sorted(s: Seq<(Seq<u8>, Seq<u8>)>) -> bool {
    forall|i: int, j: int| 0 <= i < j < s.len() ==> lex_lt((#[trigger] s[i]).0, (#[trigger] s[j]).0)
}

/// Whether some pair carries the key `k`.
pub open spec fn has_key(s: Seq<(Seq<u8>, Seq<u8>)>, k: Seq<u8>) -> bool {
    exists|i: int| 0 <= i < s.len() && (#[trigger] s[i]).0 == k
}

/// Whether the pair `p` occurs in `s`.
pub open spec fn pair_in(s: Seq<(Seq<u8>, Seq<u8>)>, p: (Seq<u8>, Seq<u8>)) -> bool {
    exists|x: int| 0 <= x < s.len() && s[x] == p
}

/// Whether one of the first `n` pairs of `s` carries the key `k`.
pub open spec fn key_in_prefix(s: Seq<(Seq<u8>, Seq<u8>)>, n: int, k: Seq<u8>) -> bool {
    exists|m: int| 0 <= m < n && (#[trigger] s[m]).0 == k
}

/// Whether the vector holds a pair with key `key`.
pub fn pairs_has_key(v: &Vec<(Vec<u8>, Vec<u8>)>, key: &[u8]) -> (r: bool)
    ensures
        r == has_key(pairs_view(v@), key@),
{
    let mut i: usize = 0;
    while i < v.len()
        invariant
            i <= v@.len(),
            forall|j: int| 0 <= j < i ==> (#[trigger] pairs_view(v@)[j]).0 != key@,
        decreases v@.len() - i,
    {
        proof {
            assert(pairs_view(v@)[i as int].0 == v@[i as int].0@);
        }
        if matches!(key_compare(v[i].0.as_slice(), key), KeyOrdering::Equal) {
            return true;
        }
        i = i + 1;
    }
    false
}

/// Insert a pair with a fresh key, keeping the keys sorted. The result
/// holds the new pair and exactly the old ones.
pub fn pairs_insert_sorted(v: &mut Vec<(Vec<u8>, Vec<u8>)>, key: Vec<u8>, value: Vec<u8>)
    requires
        pairs_sorted(pairs_view(old(v)@)),
        !has_key(pairs_view(old(v)@), key@),
    ensures
        pairs_sorted(pairs_view(final(v)@)),
        final(v)@.len() == old(v)@.len() + 1,
        has_key(pairs_view(final(v)@), key@),
        forall|i: int|
            0 <= i < final(v)@.len() ==> (#[trigger] pairs_view(final(v)@)[i]) == (key@, value@)
                || exists|j: int|
                0 <= j < old(v)@.len() && pairs_view(old(v)@)[j] == pairs_view(final(v)@)[i],
        forall|i: int|
            0 <= i < final(v)@.len() && (#[trigger] pairs_view(final(v)@)[i]).0 == key@
                ==> pairs_view(final(v)@)[i] == (key@, value@),
        forall|j: int|
            0 <= j < old(v)@.len() ==> exists|i: int|
                0 <= i < final(v)@.len() && pairs_view(final(v)@)[i] == #[trigger] pairs_view(
                    old(v)@,
                )[j],
{
    let ghost olds = pairs_view(v@);
    let mut pos: usize = 0;
    while pos < v.len() && !matches!(
        key_compare(key.as_slice(), v[pos].0.as_slice()),
        KeyOrdering::Less
    )
        invariant
            pos <= v@.len(),
            olds == pairs_view(v@),
            pairs_sorted(olds),
            !has_key(olds, key@),
            forall|j: int| 0 <= j < pos ==> lex_lt((#[trigger] olds[j]).0, key@),
        decreases v@.len() - pos,
    {
        proof {
            assert(olds[pos as int].0 == v@[pos as int].0@);
            lemma_lex_total(key@, olds[pos as int].0);
            if olds[pos as int].0 == key@ {
                assert(has_key(olds, key@));
            }
        }
        pos = pos + 1;
    }
    proof {
        if pos < v@.len() {
            assert(olds[pos as int].0 == v@[pos as int].0@);
            assert(lex_lt(key@, olds[pos as int].0));
        }
    }
    v.insert(pos, (key, value));
    proof {
        let news = pairs_view(v@);
        assert(news.len() == olds.len() + 1);
        assert forall|i: int| 0 <= i < news.len() implies #[trigger] news[i] == (if i < pos {
            olds[i]
        } else if i == pos {
            (key@, value@)
        } else {
            olds[i - 1]
        }) by {
            assert(news[i] == (v@[i].0@, v@[i].1@));
        }
        assert forall|i: int, j: int| 0 <= i < j < news.len() implies lex_lt(
            (#[trigger] news[i]).0,
            (#[trigger] news[j]).0,
        ) by {
            if i < pos && j == pos {
            } else if i == pos && j > pos {
                if j - 1 > pos {
                    if pos < olds.len() {
                        lemma_lex_trans(key@, olds[pos as int].0, olds[j - 1].0);
                    }
                }
                if j - 1 == pos {
                    assert(pos < olds.len());
                }
            } else {
            }
        }
        assert(news[pos as int] == (key@, value@));
        assert(has_key(news, key@));
        assert forall|i: int|
            0 <= i < news.len() && (#[trigger] news[i]).0 == key@ implies news[i] == (
        key@,
        value@,
        ) by {
            if i != pos {
                let o = if i < pos {
                    i
                } else {
                    i - 1
                };
                assert(olds[o].0 == key@);
                assert(has_key(olds, key@));
            }
        }
        assert forall|j: int| 0 <= j < olds.len() implies exists|i: int|
            0 <= i < news.len() && news[i] == #[trigger] olds[j] by {
            if j < pos {
                assert(news[j] == olds[j]);
            } else {
                assert(news[j + 1] == olds[j]);
            }
        }
    }
}

/// Bind `key` to `value`, replacing an existing pair with that key or
/// inserting a new one in key order.
#[verifier::rlimit(60)]
pub fn pairs_upsert(v: &mut Vec<(Vec<u8>, Vec<u8>)>, key: Vec<u8>, value: Vec<u8>)
    requires
        pairs_sorted(pairs_view(old(v)@)),
    ensures
        pairs_sorted(pairs_view(final(v)@)),
        has_key(pairs_view(final(v)@), key@),
        forall|i: int|
            0 <= i < final(v)@.len() && (#[trigger] pairs_view(final(v)@)[i]).0 == key@
                ==> pairs_view(final(v)@)[i] == (key@, value@),
        forall|i: int|
            0 <= i < final(v)@.len() ==> (#[trigger] pairs_view(final(v)@)[i]) == (key@, value@)
                || exists|j: int|
                0 <= j < old(v)@.len() && pairs_view(old(v)@)[j] == pairs_view(final(v)@)[i],
        forall|j: int|
            0 <= j < old(v)@.len() && (#[trigger] pairs_view(old(v)@)[j]).0 != key@ ==> exists|
                i: int,
            |
                0 <= i < final(v)@.len() && pairs_view(final(v)@)[i] == pairs_view(old(v)@)[j],
{
    let ghost olds = pairs_view(old(v)@);
    proof {
        assert(olds.len() == v@.len());
    }
    let mut i: usize = 0;
    while i < v.len()
        invariant
            i <= v@.len(),
            olds == pairs_view(v@),
            olds == pairs_view(old(v)@),
            olds.len() == v@.len(),
            pairs_sorted(olds),
            forall|j: int| 0 <= j < i ==> (#[trigger] olds[j]).0 != key@,
        decreases v@.len() - i,
    {
        proof {
            assert(olds[i as int].0 == v@[i as int].0@);
        }
        if matches!(key_compare(v[i].0.as_slice(), key.as_slice()), KeyOrdering::Equal) {
            v.remove(i);
            v.insert(i, (key, value));
            proof {
                let news = pairs_view(v@);
                assert(news.len() == v@.len());
                assert(news.len() == olds.len());
                assert forall|a: int| 0 <= a < news.len() implies #[trigger] news[a] == (if a
                    == i {
                    (key@, value@)
                } else {
                    olds[a]
                }) by {
                    assert(news[a] == (v@[a].0@, v@[a].1@));
                }
                assert forall|a: int, b: int| 0 <= a < b < news.len() implies lex_lt(
                    (#[trigger] news[a]).0,
                    (#[trigger] news[b]).0,
                ) by {
                    assert(news[a].0 == olds[a].0);
                    assert(news[b].0 == olds[b].0);
                }
                assert(news[i as int].0 == key@);
                assert forall|a: int|
                    0 <= a < news.len() && (#[trigger] news[a]).0 == key@ implies news[a] == (
                key@,
                value@,
                ) by {
                    if a != i {
                        assert(olds[a].0 == key@ && olds[i as int].0 == key@);
                        if a < i {
                            lemma_lex_asym(olds[a].0, olds[i as int].0);
                        } else {
                            lemma_lex_asym(olds[i as int].0, olds[a].0);
                        }
                    }
                }
                assert forall|j: int|
                    0 <= j < olds.len() && (#[trigger] olds[j]).0 != key@ implies exists|a: int|
                    0 <= a < news.len() && news[a] == olds[j] by {
                    assert(j != i);
                    assert(news[j] == olds[j]);
                }
                assert(forall|j: int|
                    0 <= j < old(v)@.len() && (#[trigger] pairs_view(old(v)@)[j]).0 != key@
                        ==> exists|a: int|
                        0 <= a < v@.len() && pairs_view(v@)[a] == pairs_view(old(v)@)[j]);
                assert forall|a: int|
                    0 <= a < v@.len() implies (#[trigger] pairs_view(v@)[a]) == (key@, value@)
                        || exists|j: int|
                        0 <= j < old(v)@.len() && pairs_view(old(v)@)[j] == pairs_view(v@)[a] by {
                    if a != i {
                        assert(news[a] == olds[a]);
                        assert(pairs_view(old(v)@)[a] == pairs_view(v@)[a]);
                    }
                }
            }
            return ;
        }
        i = i + 1;
    }
    proof {
        if has_key(olds, key@) {
            let w = choose|w: int| 0 <= w < olds.len() && (#[trigger] olds[w]).0 == key@;
            assert(false);
        }
    }
    pairs_insert_sorted(v, key, value);
}


/// Overlay one sorted pair sequence on another: every overlay pair is in
/// the result, a base pair survives exactly when no overlay pair shares
/// its key, and nothing else appears.
#[verifier::rlimit(100)]
pub fn pairs_overlay(base: Vec<(Vec<u8>, Vec<u8>)>, overlay: &Vec<(Vec<u8>, Vec<u8>)>) -> (r: Vec<
    (Vec<u8>, Vec<u8>),
>)
    requires
        pairs_sorted(pairs_view(base@)),
        pairs_sorted(pairs_view(overlay@)),
    ensures
        pairs_sorted(pairs_view(r@)),
        forall|a: int|
            0 <= a < r@.len() ==> pair_in(pairs_view(overlay@), #[trigger] pairs_view(r@)[a]) || (
            pair_in(pairs_view(base@), pairs_view(r@)[a]) && !has_key(
                pairs_view(overlay@),
                pairs_view(r@)[a].0,
            )),
        forall|j: int|
            0 <= j < overlay@.len() ==> pair_in(pairs_view(r@), #[trigger] pairs_view(overlay@)[j]),
        forall|j: int|
            0 <= j < base@.len() && !has_key(
                pairs_view(overlay@),
                (#[trigger] pairs_view(base@)[j]).0,
            ) ==> pair_in(pairs_view(r@), pairs_view(base@)[j]),
{
    let ghost ov = pairs_view(overlay@);
    let ghost base_p = pairs_view(base@);
    let mut out = base;
    let mut i: usize = 0;
    proof {
        assert(ov.len() == overlay@.len());
        assert forall|a: int| 0 <= a < out@.len() implies pair_in(
            base_p,
            #[trigger] pairs_view(out@)[a],
        ) by {
            assert(base_p[a] == pairs_view(out@)[a]);
        }
        assert forall|j: int| 0 <= j < base_p.len() implies pair_in(
            pairs_view(out@),
            #[trigger] base_p[j],
        ) by {
            assert(pairs_view(out@)[j] == base_p[j]);
        }
    }
    while i < overlay.len()
        invariant
            i <= ov.len(),
            ov == pairs_view(overlay@),
            ov.len() == overlay@.len(),
            base_p == pairs_view(base@),
            pairs_sorted(ov),
            pairs_sorted(pairs_view(out@)),
            forall|a: int|
                0 <= a < out@.len() ==> key_in_prefix(ov, i as int, (#[trigger] pairs_view(
                    out@,
                )[a]).0) && pair_in(ov.take(i as int), pairs_view(out@)[a]) || (pair_in(
                    base_p,
                    pairs_view(out@)[a],
                ) && !key_in_prefix(ov, i as int, pairs_view(out@)[a].0)),
            forall|j: int|
                0 <= j < i ==> pair_in(pairs_view(out@), #[trigger] ov[j]),
            forall|j: int|
                0 <= j < base_p.len() && !key_in_prefix(ov, i as int, (#[trigger] base_p[j]).0)
                    ==> pair_in(pairs_view(out@), base_p[j]),
        decreases ov.len() - i,
    {
        let key = crate::codec::slice_to_vec(overlay[i].0.as_slice());
        let value = crate::codec::slice_to_vec(overlay[i].1.as_slice());
        proof {
            assert(ov[i as int] == (overlay@[i as int].0@, overlay@[i as int].1@));
            assert(key@ == ov[i as int].0);
            assert(value@ == ov[i as int].1);
            assert forall|j: int| 0 <= j < i implies (#[trigger] ov[j]).0 != ov[i as int].0 by {
                lemma_lex_asym(ov[j].0, ov[i as int].0);
            }
        }
        let ghost prev = pairs_view(out@);
        pairs_upsert(&mut out, key, value);
        proof {
            let cur = pairs_view(out@);
            let kv = (ov[i as int].0, ov[i as int].1);
            assert(ov[i as int] == kv);
            // The upserted pair is present.
            let w = choose|w: int| 0 <= w < cur.len() && (#[trigger] cur[w]).0 == kv.0;
            assert(cur[w] == kv);
            assert(ov.take(i as int + 1)[i as int] == ov[i as int]);
            assert(pair_in(ov.take(i as int + 1), kv));
            // Earlier overlay pairs survive: their keys differ.
            assert forall|j: int| 0 <= j < i + 1 implies pair_in(cur, #[trigger] ov[j]) by {
                if j < i {
                    let a = choose|a: int| 0 <= a < prev.len() && prev[a] == ov[j];
                    assert(prev[a].0 != kv.0);
                    let b = choose|b: int| 0 <= b < cur.len() && cur[b] == prev[a];
                } else {
                    assert(cur[w] == ov[i as int]);
                }
            }
            // Every current pair is accounted for.
            assert forall|a: int|
                0 <= a < cur.len() implies key_in_prefix(ov, i as int + 1, (#[trigger] cur[a]).0)
                    && pair_in(ov.take(i as int + 1), cur[a]) || (pair_in(base_p, cur[a])
                    && !key_in_prefix(ov, i as int + 1, cur[a].0)) by {
                if cur[a] == kv {
                    assert(ov.take(i as int + 1)[i as int] == cur[a]);
                } else {
                    if cur[a].0 == kv.0 {
                        assert(cur[a] == kv);
                    }
                    let b = choose|b: int| 0 <= b < prev.len() && prev[b] == cur[a];
                    if key_in_prefix(ov, i as int, prev[b].0) && pair_in(
                        ov.take(i as int),
                        prev[b],
                    ) {
                        let m = choose|m: int|
                            0 <= m < i && ov.take(i as int)[m] == prev[b];
                        assert(ov.take(i as int + 1)[m] == ov[m]);
                        assert(pair_in(ov.take(i as int + 1), cur[a]));
                        let m2 = choose|m2: int|
                            0 <= m2 < i && (#[trigger] ov[m2]).0 == prev[b].0;
                        assert(key_in_prefix(ov, i as int + 1, cur[a].0));
                    } else {
                        assert(pair_in(base_p, prev[b]) && !key_in_prefix(
                            ov,
                            i as int,
                            prev[b].0,
                        ));
                        assert(!key_in_prefix(ov, i as int + 1, cur[a].0));
                    }
                }
            }
            // Base pairs with untouched keys survive.
            assert forall|j: int|
                0 <= j < base_p.len() && !key_in_prefix(
                    ov,
                    i as int + 1,
                    (#[trigger] base_p[j]).0,
                ) implies pair_in(cur, base_p[j]) by {
                assert(!key_in_prefix(ov, i as int, base_p[j].0));
                let a = choose|a: int| 0 <= a < prev.len() && prev[a] == base_p[j];
                assert(ov[i as int].0 != prev[a].0);
                let b = choose|b: int| 0 <= b < cur.len() && cur[b] == prev[a];
            }
        }
        i = i + 1;
    }
    proof {
        assert forall|a: int|
            0 <= a < out@.len() implies pair_in(ov, #[trigger] pairs_view(out@)[a]) || (pair_in(
            base_p,
            pairs_view(out@)[a],
        ) && !has_key(ov, pairs_view(out@)[a].0)) by {
            if pair_in(ov.take(ov.len() as int), pairs_view(out@)[a]) {
                let m = choose|m: int|
                    0 <= m < ov.len() && ov.take(ov.len() as int)[m] == pairs_view(out@)[a];
                assert(ov[m] == pairs_view(out@)[a]);
            }
        }
        assert forall|j: int| 0 <= j < overlay@.len() implies pair_in(
            pairs_view(out@),
            #[trigger] pairs_view(overlay@)[j],
        ) by {
            assert(pair_in(pairs_view(out@), ov[j]));
        }
    }
    out
}

} // verus!
