//! The laws the two representations obey, stated over the abstract key-gram
//! relation that both encode.

use vstd::prelude::*;

use crate::caps::{pair_set, FullTextQueriable};
use crate::grams::gram_set;
use crate::invert::InvertIndex;
use crate::keys::{key_lt_fn, key_views, lemma_key_strict_total_order, IndexKey};
use crate::merge::MergeIndex;
use crate::norm::nfd_fold;
use crate::order::{lemma_lex_strict_total_order, lemma_sorted_at, lemma_strictly_sorted_unique};
use crate::grams::lex_lt_fn;

verus! {

/// The grams a key view is related to.
pub open spec fn key_grams<T: IndexKey>(rel: Set<(T::V, Seq<char>)>, kv: T::V) -> Set<Seq<char>> {
    Set::new(|g: Seq<char>| rel.contains((kv, g)))
}

/// Law (order independence, inverted): a well-formed inverted index is a
/// canonical value — two of them encoding the same relation have identical
/// rows, whatever order the relation was built in.
pub proof fn lemma_invert_canonical<T: IndexKey>(a: InvertIndex<T>, b: InvertIndex<T>)
    requires
        a.inv(),
        b.inv(),
        a.rel() == b.rel(),
    ensures
        a.entries_view() == b.entries_view(),
{
    lemma_lex_strict_total_order();
    lemma_key_strict_total_order::<T>();
    assert forall|g: Seq<char>| #[trigger] a.gram_seq().contains(g) implies b.gram_seq().contains(
        g,
    ) by {
        lemma_invert_gram_in_rel(a, g);
        lemma_invert_gram_in_rel(b, g);
    }
    assert forall|g: Seq<char>| #[trigger] b.gram_seq().contains(g) implies a.gram_seq().contains(
        g,
    ) by {
        lemma_invert_gram_in_rel(a, g);
        lemma_invert_gram_in_rel(b, g);
    }
    lemma_strictly_sorted_unique(lex_lt_fn(), a.gram_seq(), b.gram_seq());
    assert(a.index@.len() == b.index@.len());
    assert forall|i: int| 0 <= i < a.index@.len() implies #[trigger] a.entries_view()[i]
        == b.entries_view()[i] by {
        assert(a.gram_seq()[i] == a.index@[i].gram@);
        assert(b.gram_seq()[i] == b.index@[i].gram@);
        let g = a.index@[i].gram@;
        assert forall|kv: T::V| #[trigger] key_views(a.index@[i].keys@).contains(kv) implies
            key_views(b.index@[i].keys@).contains(kv) by {
            lemma_invert_row_member(a, i, kv);
            lemma_invert_row_member(b, i, kv);
        }
        assert forall|kv: T::V| #[trigger] key_views(b.index@[i].keys@).contains(kv) implies
            key_views(a.index@[i].keys@).contains(kv) by {
            lemma_invert_row_member(a, i, kv);
            lemma_invert_row_member(b, i, kv);
        }
        lemma_strictly_sorted_unique(
            key_lt_fn::<T>(),
            key_views(a.index@[i].keys@),
            key_views(b.index@[i].keys@),
        );
        assert(a.entries_view()[i] == (a.index@[i].gram@, key_views(a.index@[i].keys@)));
        assert(b.entries_view()[i] == (b.index@[i].gram@, key_views(b.index@[i].keys@)));
    }
    assert(a.entries_view() =~= b.entries_view());
}

/// A gram appears among the rows exactly when some key is related to it.
proof fn lemma_invert_gram_in_rel<T: IndexKey>(a: InvertIndex<T>, g: Seq<char>)
    requires
        a.inv(),
    ensures
        a.gram_seq().contains(g) <==> exists|kv: T::V| a.rel().contains((kv, g)),
{
    if a.gram_seq().contains(g) {
        let i = choose|i: int| 0 <= i < a.gram_seq().len() && a.gram_seq()[i] == g;
        assert(a.index@[i].gram@ == g);
        assert(a.index@[i].keys@.len() > 0);
        let kv = a.index@[i].keys@[0]@;
        assert(a.rel().contains((kv, g)));
    }
    if exists|kv: T::V| a.rel().contains((kv, g)) {
        let kv = choose|kv: T::V| a.rel().contains((kv, g));
        let (i, k) = choose|i: int, k: int|
            #![trigger a.index@[i].keys@[k]]
            0 <= i < a.index@.len() && 0 <= k < a.index@[i].keys@.len() && (kv, g) == (
                a.index@[i].keys@[k]@,
                a.index@[i].gram@,
            );
        assert(a.gram_seq()[i] == g);
    }
}

/// A key view sits in row `i` exactly when it is related to that row's gram.
proof fn lemma_invert_row_member<T: IndexKey>(a: InvertIndex<T>, i: int, kv: T::V)
    requires
        a.inv(),
        0 <= i < a.index@.len(),
    ensures
        key_views(a.index@[i].keys@).contains(kv) <==> a.rel().contains((kv, a.index@[i].gram@)),
{
    let g = a.index@[i].gram@;
    if key_views(a.index@[i].keys@).contains(kv) {
        let k = choose|k: int|
            0 <= k < key_views(a.index@[i].keys@).len() && key_views(a.index@[i].keys@)[k] == kv;
        assert(a.index@[i].keys@[k]@ == kv);
        assert(a.rel().contains((kv, g)));
    }
    if a.rel().contains((kv, g)) {
        let (j, k) = choose|j: int, k: int|
            #![trigger a.index@[j].keys@[k]]
            0 <= j < a.index@.len() && 0 <= k < a.index@[j].keys@.len() && (kv, g) == (
                a.index@[j].keys@[k]@,
                a.index@[j].gram@,
            );
        if j != i {
            // Distinct rows carry distinct grams.
            if j < i {
                lemma_sorted_at(crate::grams::lex_lt_fn(), a.gram_seq(), j, i);
            } else {
                lemma_sorted_at(crate::grams::lex_lt_fn(), a.gram_seq(), i, j);
            }
            assert(a.gram_seq()[j] == g);
            assert(a.gram_seq()[i] == g);
            crate::order::lemma_lex_irrefl(g);
        }
        assert(key_views(a.index@[i].keys@)[k] == kv);
    }
}

/// Law (order independence, merged): a well-formed merged index is a
/// canonical value — two of them encoding the same relation have identical
/// rows, whatever order the relation was built in.
pub proof fn lemma_merge_canonical<T: IndexKey>(a: MergeIndex<T>, b: MergeIndex<T>)
    requires
        a.inv(),
        b.inv(),
        a.rel() == b.rel(),
    ensures
        a.entries_view() == b.entries_view(),
{
    lemma_lex_strict_total_order();
    lemma_key_strict_total_order::<T>();
    assert forall|kv: T::V| #[trigger] a.key_seq().contains(kv) implies b.key_seq().contains(
        kv,
    ) by {
        lemma_merge_key_in_rel(a, kv);
        lemma_merge_key_in_rel(b, kv);
    }
    assert forall|kv: T::V| #[trigger] b.key_seq().contains(kv) implies a.key_seq().contains(
        kv,
    ) by {
        lemma_merge_key_in_rel(a, kv);
        lemma_merge_key_in_rel(b, kv);
    }
    lemma_strictly_sorted_unique(key_lt_fn::<T>(), a.key_seq(), b.key_seq());
    assert(a.index@.len() == b.index@.len());
    assert forall|i: int| 0 <= i < a.index@.len() implies #[trigger] a.entries_view()[i]
        == b.entries_view()[i] by {
        assert(a.key_seq()[i] == a.index@[i].key@);
        assert(b.key_seq()[i] == b.index@[i].key@);
        assert forall|g: Seq<char>| #[trigger] crate::grams::gram_views(
            a.index@[i].grams@,
        ).contains(g) implies crate::grams::gram_views(b.index@[i].grams@).contains(g) by {
            lemma_merge_row_member(a, i, g);
            lemma_merge_row_member(b, i, g);
        }
        assert forall|g: Seq<char>| #[trigger] crate::grams::gram_views(
            b.index@[i].grams@,
        ).contains(g) implies crate::grams::gram_views(a.index@[i].grams@).contains(g) by {
            lemma_merge_row_member(a, i, g);
            lemma_merge_row_member(b, i, g);
        }
        lemma_strictly_sorted_unique(
            lex_lt_fn(),
            crate::grams::gram_views(a.index@[i].grams@),
            crate::grams::gram_views(b.index@[i].grams@),
        );
        assert(a.entries_view()[i] == (
            a.index@[i].key@,
            crate::grams::gram_views(a.index@[i].grams@),
        ));
        assert(b.entries_view()[i] == (
            b.index@[i].key@,
            crate::grams::gram_views(b.index@[i].grams@),
        ));
    }
    assert(a.entries_view() =~= b.entries_view());
}

/// A key appears among the rows exactly when it is related to some gram.
proof fn lemma_merge_key_in_rel<T: IndexKey>(a: MergeIndex<T>, kv: T::V)
    requires
        a.inv(),
    ensures
        a.key_seq().contains(kv) <==> exists|g: Seq<char>| a.rel().contains((kv, g)),
{
    if a.key_seq().contains(kv) {
        let i = choose|i: int| 0 <= i < a.key_seq().len() && a.key_seq()[i] == kv;
        assert(a.index@[i].key@ == kv);
        assert(a.index@[i].grams@.len() > 0);
        let g = a.index@[i].grams@[0]@;
        assert(a.rel().contains((kv, g)));
    }
    if exists|g: Seq<char>| a.rel().contains((kv, g)) {
        let g = choose|g: Seq<char>| a.rel().contains((kv, g));
        let (i, j) = choose|i: int, j: int|
            #![trigger a.index@[i].grams@[j]]
            0 <= i < a.index@.len() && 0 <= j < a.index@[i].grams@.len() && (kv, g) == (
                a.index@[i].key@,
                a.index@[i].grams@[j]@,
            );
        assert(a.key_seq()[i] == kv);
    }
}

/// A gram sits in row `i` exactly when that row's key is related to it.
proof fn lemma_merge_row_member<T: IndexKey>(a: MergeIndex<T>, i: int, g: Seq<char>)
    requires
        a.inv(),
        0 <= i < a.index@.len(),
    ensures
        crate::grams::gram_views(a.index@[i].grams@).contains(g) <==> a.rel().contains(
            (a.index@[i].key@, g),
        ),
{
    let kv = a.index@[i].key@;
    if crate::grams::gram_views(a.index@[i].grams@).contains(g) {
        let j = choose|j: int|
            0 <= j < crate::grams::gram_views(a.index@[i].grams@).len() && crate::grams::gram_views(
                a.index@[i].grams@,
            )[j] == g;
        assert(a.index@[i].grams@[j]@ == g);
        assert(a.rel().contains((kv, g)));
    }
    if a.rel().contains((kv, g)) {
        let (j, m) = choose|j: int, m: int|
            #![trigger a.index@[j].grams@[m]]
            0 <= j < a.index@.len() && 0 <= m < a.index@[j].grams@.len() && (kv, g) == (
                a.index@[j].key@,
                a.index@[j].grams@[m]@,
            );
        if j != i {
            // Distinct rows carry distinct keys.
            if j < i {
                lemma_sorted_at(key_lt_fn::<T>(), a.key_seq(), j, i);
            } else {
                lemma_sorted_at(key_lt_fn::<T>(), a.key_seq(), i, j);
            }
            assert(a.key_seq()[j] == kv);
            assert(a.key_seq()[i] == kv);
            T::lemma_key_order(kv, kv, kv);
        }
        assert(crate::grams::gram_views(a.index@[i].grams@)[m] == g);
    }
}

/// The relation reached from `base` after inserting the listed texts, each
/// under its key view, at the given depth.
pub open spec fn rel_of_inserts<T: IndexKey>(
    base: Set<(T::V, Seq<char>)>,
    hist: Seq<(T::V, Seq<char>)>,
    depth: nat,
) -> Set<(T::V, Seq<char>)> {
    Set::new(
        |p: (T::V, Seq<char>)|
            base.contains(p) || exists|k: int|
                0 <= k < hist.len() && p.0 == (#[trigger] hist[k]).0 && gram_set(
                    nfd_fold(hist[k].1),
                    depth,
                ).contains(p.1),
    )
}

/// One more insert extends the relation by the pairs of its text, which is
/// exactly what `insert` promises of either representation.
pub proof fn lemma_rel_of_inserts_step<T: IndexKey>(
    base: Set<(T::V, Seq<char>)>,
    hist: Seq<(T::V, Seq<char>)>,
    depth: nat,
    kv: T::V,
    text: Seq<char>,
)
    ensures
        rel_of_inserts::<T>(base, hist.push((kv, text)), depth) == rel_of_inserts::<T>(
            base,
            hist,
            depth,
        ).union(pair_set::<T>(kv, gram_set(nfd_fold(text), depth))),
{
    let h1 = hist.push((kv, text));
    assert forall|p: (T::V, Seq<char>)| #[trigger] rel_of_inserts::<T>(
        base,
        h1,
        depth,
    ).contains(p) implies rel_of_inserts::<T>(base, hist, depth).union(
        pair_set::<T>(kv, gram_set(nfd_fold(text), depth)),
    ).contains(p) by {
        if !base.contains(p) {
            let k = choose|k: int|
                0 <= k < h1.len() && p.0 == (#[trigger] h1[k]).0 && gram_set(
                    nfd_fold(h1[k].1),
                    depth,
                ).contains(p.1);
            if k < hist.len() {
                assert(h1[k] == hist[k]);
            } else {
                assert(h1[k] == (kv, text));
            }
        }
    }
    assert forall|p: (T::V, Seq<char>)| #[trigger] rel_of_inserts::<T>(base, hist, depth).union(
        pair_set::<T>(kv, gram_set(nfd_fold(text), depth)),
    ).contains(p) implies rel_of_inserts::<T>(base, h1, depth).contains(p) by {
        if !base.contains(p) {
            if rel_of_inserts::<T>(base, hist, depth).contains(p) {
                let k = choose|k: int|
                    0 <= k < hist.len() && p.0 == (#[trigger] hist[k]).0 && gram_set(
                        nfd_fold(hist[k].1),
                        depth,
                    ).contains(p.1);
                assert(h1[k] == hist[k]);
                assert(p.0 == h1[k].0 && gram_set(nfd_fold(h1[k].1), depth).contains(p.1));
            } else {
                assert(h1[hist.len() as int] == (kv, text));
                assert(p.0 == h1[hist.len() as int].0 && gram_set(
                    nfd_fold(h1[hist.len() as int].1),
                    depth,
                ).contains(p.1));
            }
        }
    }
    assert(rel_of_inserts::<T>(base, h1, depth) =~= rel_of_inserts::<T>(base, hist, depth).union(
        pair_set::<T>(kv, gram_set(nfd_fold(text), depth)),
    ));
}

/// Law (order independence): two insertion histories that are permutations
/// of one another reach the same relation from the same start — and so, by
/// canonicity, observably identical indexes and identical answers.
pub proof fn lemma_insert_order_independent<T: IndexKey>(
    base: Set<(T::V, Seq<char>)>,
    h1: Seq<(T::V, Seq<char>)>,
    h2: Seq<(T::V, Seq<char>)>,
    depth: nat,
)
    requires
        h1.to_multiset() == h2.to_multiset(),
    ensures
        rel_of_inserts::<T>(base, h1, depth) == rel_of_inserts::<T>(base, h2, depth),
{
    broadcast use vstd::seq_lib::group_to_multiset_ensures;

    assert forall|p: (T::V, Seq<char>)| #[trigger] rel_of_inserts::<T>(
        base,
        h1,
        depth,
    ).contains(p) implies rel_of_inserts::<T>(base, h2, depth).contains(p) by {
        if !base.contains(p) {
            let k = choose|k: int|
                0 <= k < h1.len() && p.0 == (#[trigger] h1[k]).0 && gram_set(
                    nfd_fold(h1[k].1),
                    depth,
                ).contains(p.1);
            assert(h1.contains(h1[k]));
            assert(h1.to_multiset().count(h1[k]) > 0);
            assert(h2.to_multiset().count(h1[k]) > 0);
            assert(h2.contains(h1[k]));
            let m = choose|m: int| 0 <= m < h2.len() && h2[m] == h1[k];
            assert(p.0 == h2[m].0 && gram_set(nfd_fold(h2[m].1), depth).contains(p.1));
        }
    }
    assert forall|p: (T::V, Seq<char>)| #[trigger] rel_of_inserts::<T>(
        base,
        h2,
        depth,
    ).contains(p) implies rel_of_inserts::<T>(base, h1, depth).contains(p) by {
        if !base.contains(p) {
            let k = choose|k: int|
                0 <= k < h2.len() && p.0 == (#[trigger] h2[k]).0 && gram_set(
                    nfd_fold(h2[k].1),
                    depth,
                ).contains(p.1);
            assert(h2.contains(h2[k]));
            assert(h2.to_multiset().count(h2[k]) > 0);
            assert(h1.to_multiset().count(h2[k]) > 0);
            assert(h1.contains(h2[k]));
            let m = choose|m: int| 0 <= m < h1.len() && h1[m] == h2[k];
            assert(p.0 == h1[m].0 && gram_set(nfd_fold(h1[m].1), depth).contains(p.1));
        }
    }
    assert(rel_of_inserts::<T>(base, h1, depth) =~= rel_of_inserts::<T>(base, h2, depth));
}

/// Law (conversion round trip, inverted): converting an inverted index to
/// the merged representation and back yields identical rows; with the
/// ranked-answer uniqueness law, every query answers the same before and
/// after.
pub proof fn lemma_invert_round_trip<T: IndexKey>(
    a: InvertIndex<T>,
    m: MergeIndex<T>,
    c: InvertIndex<T>,
)
    requires
        a.inv(),
        m.rel() == a.rel(),
        c.inv(),
        c.rel() == m.rel(),
    ensures
        c.entries_view() == a.entries_view(),
{
    lemma_invert_canonical(a, c);
}

/// Law (conversion round trip, merged): converting a merged index to the
/// inverted representation and back yields identical rows.
pub proof fn lemma_merge_round_trip<T: IndexKey>(
    a: MergeIndex<T>,
    v: InvertIndex<T>,
    c: MergeIndex<T>,
)
    requires
        a.inv(),
        v.rel() == a.rel(),
        c.inv(),
        c.rel() == v.rel(),
    ensures
        c.entries_view() == a.entries_view(),
{
    lemma_merge_canonical(a, c);
}

/// Law (accumulation): two successive inserts under one key leave the key
/// related to the union of what it had and both texts' gram sets.
pub proof fn lemma_accumulation<T: IndexKey>(
    rel0: Set<(T::V, Seq<char>)>,
    kv: T::V,
    g1: Set<Seq<char>>,
    g2: Set<Seq<char>>,
)
    ensures
        key_grams::<T>(
            rel0.union(pair_set::<T>(kv, g1)).union(pair_set::<T>(kv, g2)),
            kv,
        ) == key_grams::<T>(rel0, kv).union(g1).union(g2),
{
    assert(key_grams::<T>(rel0.union(pair_set::<T>(kv, g1)).union(pair_set::<T>(kv, g2)), kv)
        =~= key_grams::<T>(rel0, kv).union(g1).union(g2));
}


} // verus!
