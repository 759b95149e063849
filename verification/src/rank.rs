//! Scoring and ranking. Both index representations answer a query by
//! scoring every known key against the query's gram set and returning the
//! keys with a positive score, best first, ties broken by the key order.

use vstd::prelude::*;

use crate::keys::{key_views, IndexKey};
use crate::order::{strict_total_order, strictly_sorted_by};
use crate::order::{lemma_sorted_at, lemma_strictly_sorted_no_duplicates, lemma_strictly_sorted_unique};

verus! {

/// How well key view `kv` matches the query grams `qg` under the key-gram
/// relation `rel`: the number of query grams the key is related to.
pub open spec fn score<T: IndexKey>(
    rel: Set<(T::V, Seq<char>)>,
    qg: Set<Seq<char>>,
    kv: T::V,
) -> nat {
    qg.filter(|g: Seq<char>| rel.contains((kv, g))).len()
}

/// The ranking order on key views: the higher score first, equal scores in
/// key order.
pub open spec fn ranked_before<T: IndexKey>(
    rel: Set<(T::V, Seq<char>)>,
    qg: Set<Seq<char>>,
    a: T::V,
    b: T::V,
) -> bool {
    ||| score::<T>(rel, qg, a) > score::<T>(rel, qg, b)
    ||| (score::<T>(rel, qg, a) == score::<T>(rel, qg, b) && T::key_lt(a, b))
}

/// `out` is the answer to a query with grams `qg` against relation `rel`:
/// exactly the key views with a positive score, each once, best first.
pub open spec fn is_ranked<T: IndexKey>(
    rel: Set<(T::V, Seq<char>)>,
    qg: Set<Seq<char>>,
    out: Seq<T::V>,
) -> bool {
    &&& out.no_duplicates()
    &&& forall|kv: T::V| #[trigger] out.contains(kv) <==> score::<T>(rel, qg, kv) > 0
    &&& forall|i: int, j: int|
        0 <= i < j < out.len() ==> ranked_before::<T>(rel, qg, out[i], out[j])
}

/// The ranking order packaged as a closed-over order.
pub open spec fn ranked_before_fn<T: IndexKey>(
    rel: Set<(T::V, Seq<char>)>,
    qg: Set<Seq<char>>,
) -> spec_fn(T::V, T::V) -> bool {
    |a: T::V, b: T::V| ranked_before::<T>(rel, qg, a, b)
}

pub proof fn lemma_ranked_strict_total_order<T: IndexKey>(
    rel: Set<(T::V, Seq<char>)>,
    qg: Set<Seq<char>>,
)
    ensures
        strict_total_order(ranked_before_fn::<T>(rel, qg)),
{
    let lt = ranked_before_fn::<T>(rel, qg);
    assert forall|a: T::V| !#[trigger] lt(a, a) by {
        T::lemma_key_order(a, a, a);
    }
    assert forall|a: T::V, b: T::V, c: T::V|
        #[trigger] lt(a, b) && #[trigger] lt(b, c) implies lt(a, c) by {
        T::lemma_key_order(a, b, c);
    }
    assert forall|a: T::V, b: T::V| a != b implies #[trigger] lt(a, b) || #[trigger] lt(b, a) by {
        T::lemma_key_order(a, b, a);
    }
}

/// Law: the ranked answer is unique. Any two sequences that both rank one
/// relation against one set of query grams are the very same sequence; in
/// particular, two index representations encoding the same relation return
/// identical answers to every query.
pub proof fn lemma_ranked_unique<T: IndexKey>(
    rel: Set<(T::V, Seq<char>)>,
    qg: Set<Seq<char>>,
    r1: Seq<T::V>,
    r2: Seq<T::V>,
)
    requires
        is_ranked::<T>(rel, qg, r1),
        is_ranked::<T>(rel, qg, r2),
    ensures
        r1 == r2,
{
    let lt = ranked_before_fn::<T>(rel, qg);
    lemma_ranked_strict_total_order::<T>(rel, qg);
    assert(strictly_sorted_by(lt, r1)) by {
        assert forall|i: int, j: int| 0 <= i < j < r1.len() implies #[trigger] lt(
            r1[i],
            r1[j],
        ) by {
            assert(ranked_before::<T>(rel, qg, r1[i], r1[j]));
        }
    }
    assert(strictly_sorted_by(lt, r2)) by {
        assert forall|i: int, j: int| 0 <= i < j < r2.len() implies #[trigger] lt(
            r2[i],
            r2[j],
        ) by {
            assert(ranked_before::<T>(rel, qg, r2[i], r2[j]));
        }
    }
    lemma_strictly_sorted_unique(lt, r1, r2);
}


/// The views of scored pairs: each key's view with its count.
pub open spec fn pair_views<T: IndexKey>(s: Seq<(T, usize)>) -> Seq<(T::V, usize)> {
    s.map_values(|p: (T, usize)| (p.0@, p.1))
}

/// The sorting order on scored pair views: the higher count first, equal
/// counts in key order.
pub open spec fn pair_lt<T: IndexKey>(a: (T::V, usize), b: (T::V, usize)) -> bool {
    ||| a.1 > b.1
    ||| (a.1 == b.1 && T::key_lt(a.0, b.0))
}

/// `pair_lt` packaged as a closed-over order.
pub open spec fn pair_lt_fn<T: IndexKey>() -> spec_fn((T::V, usize), (T::V, usize)) -> bool {
    |a: (T::V, usize), b: (T::V, usize)| pair_lt::<T>(a, b)
}

proof fn lemma_pair_strict_total_order<T: IndexKey>()
    ensures
        strict_total_order(pair_lt_fn::<T>()),
{
    let lt = pair_lt_fn::<T>();
    assert forall|a: (T::V, usize)| !#[trigger] lt(a, a) by {
        T::lemma_key_order(a.0, a.0, a.0);
    }
    assert forall|a: (T::V, usize), b: (T::V, usize), c: (T::V, usize)|
        #[trigger] lt(a, b) && #[trigger] lt(b, c) implies lt(a, c) by {
        T::lemma_key_order(a.0, b.0, c.0);
    }
    assert forall|a: (T::V, usize), b: (T::V, usize)| a != b implies #[trigger] lt(a, b)
        || #[trigger] lt(b, a) by {
        T::lemma_key_order(a.0, b.0, a.0);
    }
}

/// Decides `pair_lt` on two scored pairs.
fn pair_before<T: IndexKey>(a: &(T, usize), b: &(T, usize)) -> (r: bool)
    ensures
        r == pair_lt::<T>((a.0@, a.1), (b.0@, b.1)),
{
    proof {
        T::lemma_key_order(a.0@, b.0@, a.0@);
    }
    if a.1 > b.1 {
        true
    } else if a.1 == b.1 {
        a.0.key_le(b.0) && !a.0.key_eq(b.0)
    } else {
        false
    }
}

/// Some pair among the first `n` of `s` has view `x`.
pub open spec fn pair_in_prefix<T: IndexKey>(s: Seq<(T, usize)>, n: int, x: (T::V, usize)) -> bool {
    exists|k: int| 0 <= k < n && #[trigger] pair_views(s)[k] == x
}

/// Some pair among the first `n` of `s` carries key view `kv`.
pub open spec fn key_in_prefix<T: IndexKey>(s: Seq<(T, usize)>, n: int, kv: T::V) -> bool {
    exists|k: int| 0 <= k < n && (#[trigger] pair_views(s)[k]).0 == kv
}

/// Places `p` into the sorted pair list; its key must be new.
fn insert_pair_sorted<T: IndexKey>(out: &mut Vec<(T, usize)>, p: (T, usize))
    requires
        strictly_sorted_by(pair_lt_fn::<T>(), pair_views(old(out)@)),
        forall|k: int|
            0 <= k < old(out)@.len() ==> (#[trigger] pair_views(old(out)@)[k]).0 != p.0@,
    ensures
        strictly_sorted_by(pair_lt_fn::<T>(), pair_views(final(out)@)),
        forall|x: (T::V, usize)|
            #[trigger] pair_views(final(out)@).contains(x) <==> (pair_views(
                old(out)@,
            ).contains(x) || x == (p.0@, p.1)),
{
    let ghost ovs = pair_views(out@);
    let ghost pv = (p.0@, p.1);
    let mut i: usize = 0;
    loop
        invariant
            pv == (p.0@, p.1),
            i <= out@.len(),
            out@ == old(out)@,
            forall|k: int| 0 <= k < i ==> pair_lt::<T>(#[trigger] pair_views(out@)[k], pv),
        ensures
            pv == (p.0@, p.1),
            i <= out@.len(),
            out@ == old(out)@,
            forall|k: int| 0 <= k < i ==> pair_lt::<T>(#[trigger] pair_views(out@)[k], pv),
            i < out@.len() ==> !pair_lt::<T>(pair_views(out@)[i as int], pv),
        decreases out@.len() - i,
    {
        if i == out.len() {
            break ;
        }
        let cur = out[i];
        proof {
            assert(cur == out@[i as int]);
            assert(pair_views(out@)[i as int] == (cur.0@, cur.1));
        }
        if !pair_before(&cur, &p) {
            break ;
        }
        i += 1;
    }
    proof {
        lemma_pair_strict_total_order::<T>();
        if i < out@.len() {
            // Not below the new pair, and over a different key, so above it.
            assert(pair_views(out@)[i as int].0 != pv.0);
            assert(pair_lt::<T>(pv, pair_views(out@)[i as int])) by {
                T::lemma_key_order(pv.0, pair_views(out@)[i as int].0, pv.0);
            }
        }
        assert forall|k: int| i <= k < out@.len() implies pair_lt::<T>(
            pv,
            #[trigger] pair_views(out@)[k],
        ) by {
            if k > i {
                lemma_sorted_at(pair_lt_fn::<T>(), pair_views(out@), i as int, k);
                assert(pair_lt::<T>(pair_views(out@)[i as int], pair_views(out@)[k]));
                T::lemma_key_order(pv.0, pair_views(out@)[i as int].0, pair_views(out@)[k].0);
            }
        }
    }
    out.insert(i, p);
    proof {
        let nvs = pair_views(out@);
        assert(out@ == old(out)@.insert(i as int, p));
        assert forall|k: int| 0 <= k < nvs.len() implies nvs[k] == (if k < i {
            ovs[k]
        } else if k == i {
            pv
        } else {
            ovs[k - 1]
        }) by {
            assert(nvs[k] == (out@[k].0@, out@[k].1));
        }
        assert(strictly_sorted_by(pair_lt_fn::<T>(), nvs)) by {
            assert forall|a: int, b: int| 0 <= a < b < nvs.len() implies pair_lt_fn::<T>()(
                nvs[a],
                nvs[b],
            ) by {
                if a < i && b < i {
                    lemma_sorted_at(pair_lt_fn::<T>(), ovs, a, b);
                } else if a < i && b == i {
                    assert(pair_lt::<T>(ovs[a], pv));
                } else if a < i && b > i {
                    lemma_sorted_at(pair_lt_fn::<T>(), ovs, a, b - 1);
                } else if a == i {
                    assert(pair_lt::<T>(pv, ovs[b - 1]));
                } else {
                    lemma_sorted_at(pair_lt_fn::<T>(), ovs, a - 1, b - 1);
                }
            }
        }
        assert forall|x: (T::V, usize)| #[trigger] nvs.contains(x) implies (ovs.contains(x) || x
            == pv) by {
            let k = choose|k: int| 0 <= k < nvs.len() && nvs[k] == x;
            if k < i {
                assert(ovs[k] == x);
            } else if k > i {
                assert(ovs[k - 1] == x);
            }
        }
        assert forall|x: (T::V, usize)| (ovs.contains(x) || x == pv) implies #[trigger] nvs
            .contains(x) by {
            if x == pv {
                assert(nvs[i as int] == x);
            } else {
                let k = choose|k: int| 0 <= k < ovs.len() && ovs[k] == x;
                if k < i {
                    assert(nvs[k] == x);
                } else {
                    assert(nvs[k + 1] == x);
                }
            }
        }
    }
}

/// Sorts scored pairs into the ranking order and hands back the keys.
/// The counts must be the keys' scores, every key must score, and every
/// scoring key must be present.
pub(crate) fn rank_pairs<T: IndexKey>(
    pairs: &Vec<(T, usize)>,
    Ghost(rel): Ghost<Set<(T::V, Seq<char>)>>,
    Ghost(qg): Ghost<Set<Seq<char>>>,
) -> (r: Vec<T>)
    requires
        forall|a: int, b: int|
            0 <= a < b < pairs@.len() ==> (#[trigger] pair_views(pairs@)[a]).0 != (
            #[trigger] pair_views(pairs@)[b]).0,
        forall|k: int|
            0 <= k < pairs@.len() ==> ((#[trigger] pair_views(pairs@)[k]).1 as nat == score::<T>(
                rel,
                qg,
                pair_views(pairs@)[k].0,
            ) && pair_views(pairs@)[k].1 > 0),
        forall|kv: T::V|
            #[trigger] score::<T>(rel, qg, kv) > 0 ==> key_in_prefix(
                pairs@,
                pairs@.len() as int,
                kv,
            ),
    ensures
        is_ranked::<T>(rel, qg, key_views(r@)),
{
    let mut sorted: Vec<(T, usize)> = Vec::new();
    let mut i: usize = 0;
    while i < pairs.len()
        invariant
            i <= pairs@.len(),
            forall|a: int, b: int|
                0 <= a < b < pairs@.len() ==> (#[trigger] pair_views(pairs@)[a]).0 != (
                #[trigger] pair_views(pairs@)[b]).0,
            strictly_sorted_by(pair_lt_fn::<T>(), pair_views(sorted@)),
            forall|x: (T::V, usize)|
                #[trigger] pair_views(sorted@).contains(x) <==> pair_in_prefix(
                    pairs@,
                    i as int,
                    x,
                ),
        decreases pairs@.len() - i,
    {
        let p = pairs[i];
        proof {
            assert(pair_views(pairs@)[i as int] == (p.0@, p.1));
            assert forall|k: int| 0 <= k < sorted@.len() implies (#[trigger] pair_views(
                sorted@,
            )[k]).0 != p.0@ by {
                let x = pair_views(sorted@)[k];
                assert(pair_views(sorted@).contains(x));
                let m = choose|m: int| 0 <= m < i && #[trigger] pair_views(pairs@)[m] == x;
                assert(pair_views(pairs@)[m].0 != pair_views(pairs@)[i as int].0);
            }
        }
        insert_pair_sorted(&mut sorted, p);
        proof {
            assert forall|x: (T::V, usize)|
                #[trigger] pair_views(sorted@).contains(x) implies pair_in_prefix(
                pairs@,
                i + 1,
                x,
            ) by {
                if x == (p.0@, p.1) {
                    assert(pair_views(pairs@)[i as int] == x);
                }
            }
            assert forall|x: (T::V, usize)| pair_in_prefix(pairs@, i + 1, x) implies
                #[trigger] pair_views(sorted@).contains(x) by {
                let k = choose|k: int| 0 <= k < i + 1 && #[trigger] pair_views(pairs@)[k] == x;
                if k == i {
                    assert(x == (p.0@, p.1));
                } else {
                    assert(pair_in_prefix(pairs@, i as int, x));
                }
            }
        }
        i += 1;
    }
    let mut r: Vec<T> = Vec::new();
    let mut j: usize = 0;
    while j < sorted.len()
        invariant
            j <= sorted@.len(),
            r@.len() == j,
            forall|k: int| 0 <= k < j ==> #[trigger] r@[k]@ == pair_views(sorted@)[k].0,
            strictly_sorted_by(pair_lt_fn::<T>(), pair_views(sorted@)),
            forall|x: (T::V, usize)|
                #[trigger] pair_views(sorted@).contains(x) <==> pair_in_prefix(
                    pairs@,
                    pairs@.len() as int,
                    x,
                ),
        decreases sorted@.len() - j,
    {
        let q = sorted[j];
        r.push(q.0);
        proof {
            assert(pair_views(sorted@)[j as int] == (q.0@, q.1));
        }
        j += 1;
    }
    proof {
        let kvs = key_views(r@);
        let svs = pair_views(sorted@);
        assert(kvs.len() == svs.len());
        assert forall|k: int| 0 <= k < kvs.len() implies #[trigger] kvs[k] == svs[k].0 by {
            assert(kvs[k] == r@[k]@);
        }
        // Every sorted entry's count is its key's score.
        assert forall|k: int| 0 <= k < svs.len() implies (#[trigger] svs[k]).1 as nat == score::<
            T,
        >(rel, qg, svs[k].0) && svs[k].1 > 0 by {
            assert(svs.contains(svs[k]));
            let m = choose|m: int|
                0 <= m < pairs@.len() && #[trigger] pair_views(pairs@)[m] == svs[k];
        }
        // No key view repeats.
        assert(kvs.no_duplicates()) by {
            lemma_pair_strict_total_order::<T>();
            lemma_strictly_sorted_no_duplicates(pair_lt_fn::<T>(), svs);
            assert forall|a: int, b: int|
                0 <= a < b < kvs.len() implies kvs[a] != kvs[b] by {
                if kvs[a] == kvs[b] {
                    assert(svs[a].1 as nat == score::<T>(rel, qg, svs[a].0));
                    assert(svs[b].1 as nat == score::<T>(rel, qg, svs[b].0));
                    assert(svs[a] == svs[b]);
                    lemma_sorted_at(pair_lt_fn::<T>(), svs, a, b);
                    T::lemma_key_order(svs[a].0, svs[b].0, svs[a].0);
                }
            }
        }
        // Membership: exactly the keys with a positive score.
        assert forall|kv: T::V| #[trigger] kvs.contains(kv) implies score::<T>(rel, qg, kv)
            > 0 by {
            let k = choose|k: int| 0 <= k < kvs.len() && kvs[k] == kv;
            assert(svs[k].1 as nat == score::<T>(rel, qg, svs[k].0));
        }
        assert forall|kv: T::V| score::<T>(rel, qg, kv) > 0 implies #[trigger] kvs.contains(
            kv,
        ) by {
            let k = choose|k: int|
                0 <= k < pairs@.len() && (#[trigger] pair_views(pairs@)[k]).0 == kv;
            let x = pair_views(pairs@)[k];
            assert(pair_in_prefix(pairs@, pairs@.len() as int, x));
            assert(svs.contains(x));
            let m = choose|m: int| 0 <= m < svs.len() && svs[m] == x;
            assert(kvs[m] == kv);
        }
        // Ranking order.
        assert forall|a: int, b: int| 0 <= a < b < kvs.len() implies ranked_before::<T>(
            rel,
            qg,
            kvs[a],
            kvs[b],
        ) by {
            lemma_sorted_at(pair_lt_fn::<T>(), svs, a, b);
            assert(pair_lt::<T>(svs[a], svs[b]));
            assert(svs[a].1 as nat == score::<T>(rel, qg, svs[a].0));
            assert(svs[b].1 as nat == score::<T>(rel, qg, svs[b].0));
        }
    }
    r
}


/// How many grams of the list `gs` the key view `kv` is related to.
pub open spec fn count_matches<T: IndexKey>(
    rel: Set<(T::V, Seq<char>)>,
    kv: T::V,
    gs: Seq<Seq<char>>,
) -> nat
    decreases gs.len(),
{
    if gs.len() == 0 {
        0
    } else {
        count_matches::<T>(rel, kv, gs.drop_last()) + (if rel.contains((kv, gs.last())) {
            1nat
        } else {
            0nat
        })
    }
}

/// Counting matches over a duplicate-free gram list is the score against the
/// set of its grams.
pub proof fn lemma_count_matches_score<T: IndexKey>(
    rel: Set<(T::V, Seq<char>)>,
    kv: T::V,
    gs: Seq<Seq<char>>,
)
    requires
        gs.no_duplicates(),
    ensures
        count_matches::<T>(rel, kv, gs) == score::<T>(rel, gs.to_set(), kv),
        gs.to_set().finite(),
    decreases gs.len(),
{
    broadcast use vstd::seq_lib::group_seq_properties;

    let p = |g: Seq<char>| rel.contains((kv, g));
    if gs.len() == 0 {
        assert(gs.to_set() =~= Set::<Seq<char>>::empty());
        assert(gs.to_set().filter(p) =~= Set::<Seq<char>>::empty());
    } else {
        let s0 = gs.drop_last();
        let x = gs.last();
        assert(s0.no_duplicates()) by {
            assert forall|a: int, b: int|
                0 <= a < s0.len() && 0 <= b < s0.len() && a != b implies s0[a] != s0[b] by {
                assert(gs[a] == s0[a] && gs[b] == s0[b]);
            }
        }
        lemma_count_matches_score::<T>(rel, kv, s0);
        assert(!s0.contains(x)) by {
            if s0.contains(x) {
                let k = choose|k: int| 0 <= k < s0.len() && s0[k] == x;
                assert(gs[k] == gs[gs.len() - 1]);
            }
        }
        assert(gs.to_set() =~= s0.to_set().insert(x)) by {
            assert forall|y: Seq<char>| #[trigger] gs.to_set().contains(y) implies s0.to_set()
                .insert(x).contains(y) by {
                let k = choose|k: int| 0 <= k < gs.len() && gs[k] == y;
                if k < gs.len() - 1 {
                    assert(s0[k] == y);
                }
            }
            assert forall|y: Seq<char>| #[trigger] s0.to_set().insert(x).contains(y) implies gs
                .to_set().contains(y) by {
                if y == x {
                    assert(gs[gs.len() - 1] == y);
                } else {
                    let k = choose|k: int| 0 <= k < s0.len() && s0[k] == y;
                    assert(gs[k] == y);
                }
            }
        }
        assert(!s0.to_set().contains(x));
        assert(s0.to_set().finite());
        assert(s0.to_set().filter(p).finite());
        if p(x) {
            assert(gs.to_set().filter(p) =~= s0.to_set().filter(p).insert(x));
            assert(!s0.to_set().filter(p).contains(x));
            assert(gs.to_set().filter(p).len() == s0.to_set().filter(p).len() + 1);
        } else {
            assert(gs.to_set().filter(p) =~= s0.to_set().filter(p));
        }
    }
}

/// A key matches some gram of the list exactly when its count is positive.
pub proof fn lemma_count_matches_positive<T: IndexKey>(
    rel: Set<(T::V, Seq<char>)>,
    kv: T::V,
    gs: Seq<Seq<char>>,
)
    ensures
        count_matches::<T>(rel, kv, gs) > 0 <==> exists|k: int|
            0 <= k < gs.len() && rel.contains((kv, #[trigger] gs[k])),
    decreases gs.len(),
{
    if gs.len() > 0 {
        let s0 = gs.drop_last();
        lemma_count_matches_positive::<T>(rel, kv, s0);
        if count_matches::<T>(rel, kv, gs) > 0 {
            if rel.contains((kv, gs.last())) {
                assert(rel.contains((kv, gs[gs.len() - 1])));
            } else {
                let k = choose|k: int| 0 <= k < s0.len() && rel.contains((kv, #[trigger] s0[k]));
                assert(rel.contains((kv, gs[k])));
            }
        }
        if exists|k: int| 0 <= k < gs.len() && rel.contains((kv, #[trigger] gs[k])) {
            let k = choose|k: int| 0 <= k < gs.len() && rel.contains((kv, #[trigger] gs[k]));
            if k < gs.len() - 1 {
                assert(rel.contains((kv, s0[k])));
            }
        }
    }
}


/// Decides whether some pair already carries this key.
pub(crate) fn pairs_has_key<T: IndexKey>(pairs: &Vec<(T, usize)>, key: T) -> (r: bool)
    ensures
        r == key_in_prefix(pairs@, pairs@.len() as int, key@),
{
    let mut i: usize = 0;
    while i < pairs.len()
        invariant
            i <= pairs@.len(),
            forall|k: int| 0 <= k < i ==> (#[trigger] pair_views(pairs@)[k]).0 != key@,
        decreases pairs@.len() - i,
    {
        let cur = pairs[i];
        proof {
            assert(pair_views(pairs@)[i as int] == (cur.0@, cur.1));
        }
        if cur.0.key_eq(key) {
            return true;
        }
        i += 1;
    }
    proof {
        if key_in_prefix(pairs@, pairs@.len() as int, key@) {
            let k = choose|k: int|
                0 <= k < pairs@.len() && (#[trigger] pair_views(pairs@)[k]).0 == key@;
        }
    }
    false
}

} // verus!
