//! The inverted representation: a map from gram to the set of keys whose
//! texts produced that gram, held as rows sorted by gram so that equal
//! contents mean equal values.

use vstd::prelude::*;

use crate::caps::{pair_set, FullTextIndex, FullTextQueriable};
use crate::grams::{gram_set, gram_views, grams_of, lex_lt_fn};
use crate::grams::{bound_wrap, contains_gram, lex_lt_vec, vec_chars_eq, vec_sub};
use crate::keys::{insert_key_sorted, key_lt_fn, key_views, IndexKey};
use crate::norm::nfd_fold;
use crate::order::{lemma_lex_connex, lemma_lex_strict_total_order, lemma_lex_trans};
use crate::order::{lemma_sorted_at, lemma_strictly_sorted_no_duplicates, strictly_sorted_by};
use crate::order::lex_lt;
use crate::rank::{count_matches, key_in_prefix, pair_views, pairs_has_key, rank_pairs, score};
use crate::rank::{lemma_count_matches_positive, lemma_count_matches_score};

verus! {

/// One row of the inverted index: a gram with its posting list of keys.
#[derive(Clone, PartialEq, Eq, Debug)]
pub struct GramEntry<T> {
    pub gram: Vec<char>,
    pub keys: Vec<T>,
}

/// The inverted index: rows sorted by gram, each holding the keys whose
/// texts produced that gram, sorted by the key order.
#[derive(Clone, PartialEq, Eq, Debug)]
pub struct InvertIndex<T> {
    pub depth: usize,
    pub index: Vec<GramEntry<T>>,
}

impl<T: IndexKey> InvertIndex<T> {
    /// The grams of the rows, in order.
    pub open spec fn gram_seq(self) -> Seq<Seq<char>> {
        self.index@.map_values(|e: GramEntry<T>| e.gram@)
    }

    /// The rows as views: each gram with the views of its posting list.
    pub open spec fn entries_view(self) -> Seq<(Seq<char>, Seq<T::V>)> {
        self.index@.map_values(|e: GramEntry<T>| (e.gram@, key_views(e.keys@)))
    }

    /// An empty index with the given depth.
    pub fn new(depth: usize) -> (r: Self)
        ensures
            r.inv(),
            r.depth_of() == depth as nat,
            r.rel() == Set::<(T::V, Seq<char>)>::empty(),
            r.index@.len() == 0,
    {
        let r = InvertIndex { depth, index: Vec::<GramEntry<T>>::new() };
        proof {
            assert(r.rel() =~= Set::<(T::V, Seq<char>)>::empty());
        }
        r
    }

    /// An empty index with the default depth of 6.
    pub fn default() -> (r: Self)
        ensures
            r.inv(),
            r.depth_of() == 6,
            r.rel() == Set::<(T::V, Seq<char>)>::empty(),
            r.index@.len() == 0,
    {
        InvertIndex::new(6)
    }

    /// Decides whether the index relates this key to this gram.
    fn has_pair(&self, key: T, gram: &Vec<char>) -> (r: bool)
        requires
            self.inv(),
        ensures
            r == self.rel().contains((key@, gram@)),
    {
        let mut ei: usize = 0;
        loop
            invariant
                self.inv(),
                ei <= self.index@.len(),
                forall|j: int| 0 <= j < ei ==> (#[trigger] self.index@[j].gram@) != gram@,
            ensures
                self.inv(),
                ei <= self.index@.len(),
                forall|j: int| 0 <= j < ei ==> (#[trigger] self.index@[j].gram@) != gram@,
                ei < self.index@.len() ==> self.index@[ei as int].gram@ == gram@,
            decreases self.index@.len() - ei,
        {
            if ei == self.index.len() {
                break ;
            }
            if vec_chars_eq(&self.index[ei].gram, gram) {
                break ;
            }
            ei += 1;
        }
        if ei == self.index.len() {
            proof {
                if self.rel().contains((key@, gram@)) {
                    let (i, k) = choose|i: int, k: int|
                        #![trigger self.index@[i].keys@[k]]
                        0 <= i < self.index@.len() && 0 <= k < self.index@[i].keys@.len() && (
                        key@,
                        gram@,
                        ) == (self.index@[i].keys@[k]@, self.index@[i].gram@);
                    assert(self.index@[i].gram@ == gram@);
                }
            }
            return false;
        }
        let mut ki: usize = 0;
        loop
            invariant
                self.inv(),
                ei < self.index@.len(),
                self.index@[ei as int].gram@ == gram@,
                ki <= self.index@[ei as int].keys@.len(),
                forall|m: int|
                    0 <= m < ki ==> (#[trigger] self.index@[ei as int].keys@[m])@ != key@,
            ensures
                self.inv(),
                ei < self.index@.len(),
                self.index@[ei as int].gram@ == gram@,
                ki <= self.index@[ei as int].keys@.len(),
                forall|m: int|
                    0 <= m < ki ==> (#[trigger] self.index@[ei as int].keys@[m])@ != key@,
                ki < self.index@[ei as int].keys@.len() ==> self.index@[ei as int].keys@[ki as int]@
                    == key@,
            decreases self.index@[ei as int].keys@.len() - ki,
        {
            if ki == self.index[ei].keys.len() {
                break ;
            }
            if self.index[ei].keys[ki].key_eq(key) {
                break ;
            }
            ki += 1;
        }
        if ki < self.index[ei].keys.len() {
            proof {
                assert(self.index@[ei as int].keys@[ki as int]@ == key@);
                assert(self.rel().contains((key@, gram@)));
            }
            true
        } else {
            proof {
                if self.rel().contains((key@, gram@)) {
                    let (i, k) = choose|i: int, k: int|
                        #![trigger self.index@[i].keys@[k]]
                        0 <= i < self.index@.len() && 0 <= k < self.index@[i].keys@.len() && (
                        key@,
                        gram@,
                        ) == (self.index@[i].keys@[k]@, self.index@[i].gram@);
                    if i != ei as int {
                        // Two distinct rows with the same gram cannot exist.
                        if i < ei as int {
                            lemma_sorted_at(lex_lt_fn(), self.gram_seq(), i, ei as int);
                        } else {
                            lemma_sorted_at(lex_lt_fn(), self.gram_seq(), ei as int, i);
                        }
                        assert(self.gram_seq()[i] == self.index@[i].gram@);
                        assert(self.gram_seq()[ei as int] == gram@);
                        crate::order::lemma_lex_irrefl(gram@);
                    }
                }
            }
            false
        }
    }

    /// Counts how many of the listed grams this key is related to.
    fn count_for_key(&self, key: T, qs: &Vec<Vec<char>>) -> (count: usize)
        requires
            self.inv(),
        ensures
            count as nat == count_matches::<T>(self.rel(), key@, gram_views(qs@)),
            count <= qs@.len(),
    {
        let ghost gvs = gram_views(qs@);
        let mut count: usize = 0;
        let mut gi: usize = 0;
        proof {
            assert(gvs.take(0) =~= Seq::<Seq<char>>::empty());
        }
        while gi < qs.len()
            invariant
                self.inv(),
                gvs == gram_views(qs@),
                gi <= qs@.len(),
                count <= gi,
                count as nat == count_matches::<T>(self.rel(), key@, gvs.take(gi as int)),
            decreases qs@.len() - gi,
        {
            let hit = self.has_pair(key, &qs[gi]);
            proof {
                let pre = gvs.take(gi as int);
                let post = gvs.take(gi + 1);
                assert(post.drop_last() =~= pre);
                assert(post.last() == gvs[gi as int]);
                assert(gvs[gi as int] == qs@[gi as int]@);
            }
            if hit {
                count += 1;
            }
            gi += 1;
        }
        proof {
            assert(gvs.take(qs@.len() as int) =~= gvs);
        }
        count
    }
}


impl<T: IndexKey> InvertIndex<T> {
    /// Key view `kv` sits in the posting list of a query-matched gram at a
    /// row-and-position pair the query walk has already passed.
    pub(crate) open spec fn covered_upto(
        self,
        qg: Set<Seq<char>>,
        ei: int,
        ki: int,
        kv: T::V,
    ) -> bool {
        exists|a: int, b: int|
            #![trigger self.index@[a].keys@[b]]
            0 <= a < self.index@.len() && 0 <= b < self.index@[a].keys@.len() && (a < ei || (a == ei
                && b < ki)) && qg.contains(self.index@[a].gram@) && self.index@[a].keys@[b]@ == kv
    }
}

impl<T: IndexKey> FullTextQueriable<T> for InvertIndex<T> {
    /// Rows strictly sorted by gram; each posting list strictly sorted by
    /// key and never empty.
    open spec fn inv(&self) -> bool {
        &&& strictly_sorted_by(lex_lt_fn(), self.gram_seq())
        &&& forall|i: int|
            0 <= i < self.index@.len() ==> strictly_sorted_by(
                key_lt_fn::<T>(),
                key_views(#[trigger] self.index@[i].keys@),
            )
        &&& forall|i: int| 0 <= i < self.index@.len() ==> (#[trigger] self.index@[i].keys@).len() > 0
    }

    /// A key view is related to a gram exactly when it sits in that gram's row.
    open spec fn rel(&self) -> Set<(T::V, Seq<char>)> {
        Set::new(
            |p: (T::V, Seq<char>)|
                exists|i: int, k: int|
                    #![trigger self.index@[i].keys@[k]]
                    0 <= i < self.index@.len() && 0 <= k < self.index@[i].keys@.len() && p == (
                        self.index@[i].keys@[k]@,
                        self.index@[i].gram@,
                    ),
        )
    }

    open spec fn depth_of(&self) -> nat {
        self.depth as nat
    }

    fn query(&self, query_string: &str) -> (r: Vec<T>) {
        let qs = grams_of(query_string, self.depth);
        let ghost qg = gram_set(nfd_fold(query_string@), self.depth as nat);
        let ghost gvs = gram_views(qs@);
        let ghost relg = self.rel();
        proof {
            lemma_lex_strict_total_order();
            lemma_strictly_sorted_no_duplicates(lex_lt_fn(), gvs);
        }
        let mut pairs: Vec<(T, usize)> = Vec::new();
        let mut ei: usize = 0;
        while ei < self.index.len()
            invariant
                self.inv(),
                relg == self.rel(),
                qg == gram_set(nfd_fold(query_string@), self.depth_of()),
                gvs == gram_views(qs@),
                gvs.no_duplicates(),
                forall|g: Seq<char>| #[trigger] gvs.contains(g) <==> qg.contains(g),
                ei <= self.index@.len(),
                forall|a: int, b: int|
                    0 <= a < b < pairs@.len() ==> (#[trigger] pair_views(pairs@)[a]).0 != (
                    #[trigger] pair_views(pairs@)[b]).0,
                forall|k: int|
                    0 <= k < pairs@.len() ==> ((#[trigger] pair_views(pairs@)[k]).1 as nat
                        == count_matches::<T>(relg, pair_views(pairs@)[k].0, gvs) && pair_views(
                        pairs@,
                    )[k].1 > 0),
                forall|kv: T::V|
                    self.covered_upto(qg, ei as int, 0, kv) ==> key_in_prefix(
                        pairs@,
                        pairs@.len() as int,
                        kv,
                    ),
            decreases self.index@.len() - ei,
        {
            let matched = contains_gram(&qs, &self.index[ei].gram);
            if matched {
                let klen = self.index[ei].keys.len();
                let mut ki: usize = 0;
                while ki < klen
                    invariant
                        self.inv(),
                        relg == self.rel(),
                        qg == gram_set(nfd_fold(query_string@), self.depth_of()),
                        gvs == gram_views(qs@),
                        gvs.no_duplicates(),
                        forall|g: Seq<char>| #[trigger] gvs.contains(g) <==> qg.contains(g),
                        ei < self.index@.len(),
                        klen == self.index@[ei as int].keys@.len(),
                        ki <= klen,
                        gvs.contains(self.index@[ei as int].gram@),
                        forall|a: int, b: int|
                            0 <= a < b < pairs@.len() ==> (#[trigger] pair_views(pairs@)[a]).0 != (
                            #[trigger] pair_views(pairs@)[b]).0,
                        forall|k: int|
                            0 <= k < pairs@.len() ==> ((#[trigger] pair_views(pairs@)[k]).1 as nat
                                == count_matches::<T>(relg, pair_views(pairs@)[k].0, gvs)
                                && pair_views(pairs@)[k].1 > 0),
                        forall|kv: T::V|
                            self.covered_upto(qg, ei as int, ki as int, kv) ==> key_in_prefix(
                                pairs@,
                                pairs@.len() as int,
                                kv,
                            ),
                    decreases klen - ki,
                {
                    let key = self.index[ei].keys[ki];
                    let ghost opairs = pairs@;
                    if !pairs_has_key(&pairs, key) {
                        let c = self.count_for_key(key, &qs);
                        proof {
                            // The key is related to the matched gram, so it counts.
                            assert(self.index@[ei as int].keys@[ki as int]@ == key@);
                            assert(relg.contains((key@, self.index@[ei as int].gram@)));
                            let m = choose|m: int|
                                0 <= m < gvs.len() && gvs[m] == self.index@[ei as int].gram@;
                            lemma_count_matches_positive::<T>(relg, key@, gvs);
                            assert(c > 0);
                        }
                        pairs.push((key, c));
                        proof {
                            assert forall|k: int| 0 <= k < pairs@.len() implies #[trigger] pair_views(
                                pairs@,
                            )[k] == (if k < opairs.len() {
                                pair_views(opairs)[k]
                            } else {
                                (key@, c)
                            }) by {
                                assert(pair_views(pairs@)[k] == (pairs@[k].0@, pairs@[k].1));
                                if k < opairs.len() {
                                    assert(pairs@[k] == opairs[k]);
                                    assert(pair_views(opairs)[k] == (opairs[k].0@, opairs[k].1));
                                }
                            }
                            assert forall|kv: T::V|
                                self.covered_upto(qg, ei as int, ki + 1, kv) implies key_in_prefix(
                                pairs@,
                                pairs@.len() as int,
                                kv,
                            ) by {
                                let (a, b) = choose|a: int, b: int|
                                    #![trigger self.index@[a].keys@[b]]
                                    0 <= a < self.index@.len() && 0 <= b
                                        < self.index@[a].keys@.len() && (a < ei as int || (a
                                        == ei as int && b < ki + 1)) && qg.contains(
                                        self.index@[a].gram@,
                                    ) && self.index@[a].keys@[b]@ == kv;
                                if a == ei as int && b == ki as int {
                                    assert(pair_views(pairs@)[pairs@.len() - 1].0 == kv);
                                } else {
                                    assert(self.covered_upto(qg, ei as int, ki as int, kv));
                                    let n = choose|n: int|
                                        0 <= n < opairs.len() && (#[trigger] pair_views(
                                            opairs,
                                        )[n]).0 == kv;
                                    assert(pair_views(pairs@)[n].0 == kv);
                                }
                            }
                        }
                    } else {
                        proof {
                            assert forall|kv: T::V|
                                self.covered_upto(qg, ei as int, ki + 1, kv) implies key_in_prefix(
                                pairs@,
                                pairs@.len() as int,
                                kv,
                            ) by {
                                let (a, b) = choose|a: int, b: int|
                                    #![trigger self.index@[a].keys@[b]]
                                    0 <= a < self.index@.len() && 0 <= b
                                        < self.index@[a].keys@.len() && (a < ei as int || (a
                                        == ei as int && b < ki + 1)) && qg.contains(
                                        self.index@[a].gram@,
                                    ) && self.index@[a].keys@[b]@ == kv;
                                if a == ei as int && b == ki as int {
                                    assert(self.index@[ei as int].keys@[ki as int]@ == key@);
                                } else {
                                    assert(self.covered_upto(qg, ei as int, ki as int, kv));
                                }
                            }
                        }
                    }
                    ki += 1;
                }
                proof {
                    assert forall|kv: T::V|
                        self.covered_upto(qg, ei + 1, 0, kv) implies key_in_prefix(
                        pairs@,
                        pairs@.len() as int,
                        kv,
                    ) by {
                        let (a, b) = choose|a: int, b: int|
                            #![trigger self.index@[a].keys@[b]]
                            0 <= a < self.index@.len() && 0 <= b < self.index@[a].keys@.len() && (a
                                < ei + 1) && qg.contains(self.index@[a].gram@) && self.index@[a].keys@[b]@
                                == kv;
                        assert(self.covered_upto(qg, ei as int, klen as int, kv));
                    }
                }
            } else {
                proof {
                    assert forall|kv: T::V|
                        self.covered_upto(qg, ei + 1, 0, kv) implies key_in_prefix(
                        pairs@,
                        pairs@.len() as int,
                        kv,
                    ) by {
                        let (a, b) = choose|a: int, b: int|
                            #![trigger self.index@[a].keys@[b]]
                            0 <= a < self.index@.len() && 0 <= b < self.index@[a].keys@.len() && (a
                                < ei + 1) && qg.contains(self.index@[a].gram@) && self.index@[a].keys@[b]@
                                == kv;
                        assert(a != ei as int);
                        assert(self.covered_upto(qg, ei as int, 0, kv));
                    }
                }
            }
            ei += 1;
        }
        proof {
            assert(gvs.to_set() =~= qg) by {
                assert forall|g: Seq<char>| #[trigger] gvs.to_set().contains(g) implies qg.contains(
                    g,
                ) by {
                    assert(gvs.contains(g));
                }
                assert forall|g: Seq<char>| #[trigger] qg.contains(g) implies gvs.to_set()
                    .contains(g) by {
                    assert(gvs.contains(g));
                }
            }
            assert forall|k: int|
                0 <= k < pairs@.len() implies ((#[trigger] pair_views(pairs@)[k]).1 as nat
                == score::<T>(relg, qg, pair_views(pairs@)[k].0) && pair_views(pairs@)[k].1
                > 0) by {
                lemma_count_matches_score::<T>(relg, pair_views(pairs@)[k].0, gvs);
            }
            assert forall|kv: T::V| #[trigger] score::<T>(relg, qg, kv) > 0 implies key_in_prefix(
                pairs@,
                pairs@.len() as int,
                kv,
            ) by {
                lemma_count_matches_score::<T>(relg, kv, gvs);
                lemma_count_matches_positive::<T>(relg, kv, gvs);
                let m = choose|m: int| 0 <= m < gvs.len() && relg.contains((kv, #[trigger] gvs[m]));
                let (a, b) = choose|a: int, b: int|
                    #![trigger self.index@[a].keys@[b]]
                    0 <= a < self.index@.len() && 0 <= b < self.index@[a].keys@.len() && (
                    kv,
                    gvs[m],
                    ) == (self.index@[a].keys@[b]@, self.index@[a].gram@);
                assert(gvs.contains(self.index@[a].gram@));
                assert(self.covered_upto(qg, self.index@.len() as int, 0, kv));
            }
        }
        rank_pairs(&pairs, Ghost(relg), Ghost(qg))
    }

    fn query_bounded(&self, query_string: &str) -> (r: Vec<T>) {
        let w = bound_wrap(query_string);
        self.query(w.as_str())
    }
}


impl<T: IndexKey> InvertIndex<T> {
    /// Relates `key` to `gram`, leaving everything else as it was.
    pub(crate) fn add_pair(&mut self, key: T, gram: &Vec<char>)
        requires
            old(self).inv(),
        ensures
            final(self).inv(),
            final(self).depth == old(self).depth,
            final(self).rel() == old(self).rel().insert((key@, gram@)),
    {
        let ghost oidx = self.index@;
        let mut ei: usize = 0;
        loop
            invariant
                *self == *old(self),
                self.inv(),
                ei <= self.index@.len(),
                forall|j: int| 0 <= j < ei ==> lex_lt(#[trigger] self.index@[j].gram@, gram@),
            ensures
                *self == *old(self),
                self.inv(),
                ei <= self.index@.len(),
                forall|j: int| 0 <= j < ei ==> lex_lt(#[trigger] self.index@[j].gram@, gram@),
                ei < self.index@.len() ==> !lex_lt(self.index@[ei as int].gram@, gram@),
            decreases self.index@.len() - ei,
        {
            if ei == self.index.len() {
                break ;
            }
            if !lex_lt_vec(&self.index[ei].gram, gram) {
                break ;
            }
            ei += 1;
        }
        let found = if ei < self.index.len() {
            vec_chars_eq(&self.index[ei].gram, gram)
        } else {
            false
        };
        if found {
            let ghost oentry = self.index@[ei as int];
            insert_key_sorted(&mut self.index[ei].keys, key);
            proof {
                let nidx = self.index@;
                let nentry = nidx[ei as int];
                assert(nidx == oidx.update(ei as int, nentry));
                assert(nentry.gram@ == gram@);
                // The rows and their order are untouched.
                assert(self.gram_seq() =~= old(self).gram_seq()) by {
                    assert forall|j: int| 0 <= j < nidx.len() implies #[trigger] self.gram_seq()[j]
                        == old(self).gram_seq()[j] by {
                        assert(self.gram_seq()[j] == nidx[j].gram@);
                        assert(old(self).gram_seq()[j] == oidx[j].gram@);
                    }
                }
                assert(self.inv()) by {
                    assert forall|i: int|
                        0 <= i < nidx.len() implies strictly_sorted_by(
                        key_lt_fn::<T>(),
                        key_views(#[trigger] nidx[i].keys@),
                    ) && nidx[i].keys@.len() > 0 by {
                        if i != ei as int {
                            assert(nidx[i] == oidx[i]);
                        }
                    }
                }
                assert(self.rel() =~= old(self).rel().insert((key@, gram@))) by {
                    assert forall|p: (T::V, Seq<char>)| #[trigger] self.rel().contains(p) implies (
                    old(self).rel().contains(p) || p == (key@, gram@)) by {
                        let (i, k) = choose|i: int, k: int|
                            #![trigger nidx[i].keys@[k]]
                            0 <= i < nidx.len() && 0 <= k < nidx[i].keys@.len() && p == (
                                nidx[i].keys@[k]@,
                                nidx[i].gram@,
                            );
                        if i == ei as int {
                            assert(key_views(nentry.keys@)[k] == p.0);
                            assert(key_views(nentry.keys@).contains(p.0));
                            if p.0 != key@ {
                                assert(key_views(oentry.keys@).contains(p.0));
                                let m = choose|m: int|
                                    0 <= m < key_views(oentry.keys@).len() && key_views(
                                        oentry.keys@,
                                    )[m] == p.0;
                                assert(oidx[i].keys@[m]@ == p.0);
                            }
                        } else {
                            assert(oidx[i].keys@[k]@ == p.0);
                        }
                    }
                    assert forall|p: (T::V, Seq<char>)|
                        (old(self).rel().contains(p) || p == (key@, gram@)) implies #[trigger] self
                        .rel().contains(p) by {
                        if old(self).rel().contains(p) {
                            let (i, k) = choose|i: int, k: int|
                                #![trigger oidx[i].keys@[k]]
                                0 <= i < oidx.len() && 0 <= k < oidx[i].keys@.len() && p == (
                                    oidx[i].keys@[k]@,
                                    oidx[i].gram@,
                                );
                            if i == ei as int {
                                assert(key_views(oentry.keys@)[k] == p.0);
                                assert(key_views(oentry.keys@).contains(p.0));
                                assert(key_views(nentry.keys@).contains(p.0));
                                let m = choose|m: int|
                                    0 <= m < key_views(nentry.keys@).len() && key_views(
                                        nentry.keys@,
                                    )[m] == p.0;
                                assert(nidx[i].keys@[m]@ == p.0);
                            } else {
                                assert(nidx[i].keys@[k]@ == p.0);
                            }
                        } else {
                            assert(key_views(nentry.keys@).contains(key@));
                            let m = choose|m: int|
                                0 <= m < key_views(nentry.keys@).len() && key_views(
                                    nentry.keys@,
                                )[m] == key@;
                            assert(nidx[ei as int].keys@[m]@ == key@);
                        }
                    }
                }
            }
            return ;
        }
        proof {
            lemma_lex_strict_total_order();
            if ei < self.index@.len() {
                lemma_lex_connex(self.index@[ei as int].gram@, gram@);
                assert(lex_lt(gram@, self.index@[ei as int].gram@));
            }
            assert forall|j: int| ei <= j < self.index@.len() implies lex_lt(
                gram@,
                #[trigger] self.index@[j].gram@,
            ) by {
                if j > ei {
                    lemma_sorted_at(lex_lt_fn(), self.gram_seq(), ei as int, j);
                    assert(self.gram_seq()[ei as int] == self.index@[ei as int].gram@);
                    assert(self.gram_seq()[j] == self.index@[j].gram@);
                    lemma_lex_trans(gram@, self.index@[ei as int].gram@, self.index@[j].gram@);
                }
            }
        }
        let g2 = vec_sub(gram, 0, gram.len());
        proof {
            assert(g2@ =~= gram@);
        }
        let mut ks: Vec<T> = Vec::new();
        ks.push(key);
        let entry = GramEntry { gram: g2, keys: ks };
        self.index.insert(ei, entry);
        proof {
            let nidx = self.index@;
            assert(nidx == oidx.insert(ei as int, entry));
            assert forall|j: int| 0 <= j < nidx.len() implies #[trigger] nidx[j] == (if j < ei {
                oidx[j]
            } else if j == ei {
                entry
            } else {
                oidx[j - 1]
            }) by {}
            assert(self.inv()) by {
                assert(strictly_sorted_by(lex_lt_fn(), self.gram_seq())) by {
                    assert forall|a: int, b: int|
                        0 <= a < b < nidx.len() implies lex_lt_fn()(
                        self.gram_seq()[a],
                        self.gram_seq()[b],
                    ) by {
                        assert(self.gram_seq()[a] == nidx[a].gram@);
                        assert(self.gram_seq()[b] == nidx[b].gram@);
                        if a < ei && b < ei {
                            lemma_sorted_at(lex_lt_fn(), old(self).gram_seq(), a, b);
                            assert(old(self).gram_seq()[a] == oidx[a].gram@);
                            assert(old(self).gram_seq()[b] == oidx[b].gram@);
                        } else if a < ei && b == ei {
                            assert(lex_lt(oidx[a].gram@, gram@));
                        } else if a < ei && b > ei {
                            lemma_sorted_at(lex_lt_fn(), old(self).gram_seq(), a, b - 1);
                            assert(old(self).gram_seq()[a] == oidx[a].gram@);
                            assert(old(self).gram_seq()[b - 1] == oidx[b - 1].gram@);
                        } else if a == ei {
                            assert(lex_lt(gram@, oidx[b - 1].gram@));
                        } else {
                            lemma_sorted_at(lex_lt_fn(), old(self).gram_seq(), a - 1, b - 1);
                            assert(old(self).gram_seq()[a - 1] == oidx[a - 1].gram@);
                            assert(old(self).gram_seq()[b - 1] == oidx[b - 1].gram@);
                        }
                    }
                }
                assert forall|i: int|
                    0 <= i < nidx.len() implies strictly_sorted_by(
                    key_lt_fn::<T>(),
                    key_views(#[trigger] nidx[i].keys@),
                ) && nidx[i].keys@.len() > 0 by {
                    if i < ei {
                        assert(nidx[i] == oidx[i]);
                    } else if i > ei {
                        assert(nidx[i] == oidx[i - 1]);
                    } else {
                        assert(nidx[i].keys@.len() == 1);
                    }
                }
            }
            assert(self.rel() =~= old(self).rel().insert((key@, gram@))) by {
                assert forall|p: (T::V, Seq<char>)| #[trigger] self.rel().contains(p) implies (old(
                    self,
                ).rel().contains(p) || p == (key@, gram@)) by {
                    let (i, k) = choose|i: int, k: int|
                        #![trigger nidx[i].keys@[k]]
                        0 <= i < nidx.len() && 0 <= k < nidx[i].keys@.len() && p == (
                            nidx[i].keys@[k]@,
                            nidx[i].gram@,
                        );
                    if i < ei {
                        assert(oidx[i].keys@[k]@ == p.0);
                    } else if i > ei {
                        assert(oidx[i - 1].keys@[k]@ == p.0);
                    } else {
                        assert(nidx[i].keys@[k] == key);
                    }
                }
                assert forall|p: (T::V, Seq<char>)|
                    (old(self).rel().contains(p) || p == (key@, gram@)) implies #[trigger] self
                    .rel().contains(p) by {
                    if old(self).rel().contains(p) {
                        let (i, k) = choose|i: int, k: int|
                            #![trigger oidx[i].keys@[k]]
                            0 <= i < oidx.len() && 0 <= k < oidx[i].keys@.len() && p == (
                                oidx[i].keys@[k]@,
                                oidx[i].gram@,
                            );
                        if i < ei {
                            assert(nidx[i].keys@[k]@ == p.0);
                        } else {
                            assert(nidx[i + 1].keys@[k]@ == p.0);
                        }
                    } else {
                        assert(nidx[ei as int].keys@[0]@ == key@);
                    }
                }
            }
        }
    }
}

impl<T: IndexKey> FullTextIndex<T> for InvertIndex<T> {
    fn insert(&mut self, key: T, index_string: &str) {
        let qs = grams_of(index_string, self.depth);
        let ghost gvs = gram_views(qs@);
        let mut gi: usize = 0;
        proof {
            assert(self.rel() =~= old(self).rel().union(
                pair_set::<T>(key@, gvs.take(0).to_set()),
            )) by {
                assert forall|x: Seq<char>| !#[trigger] gvs.take(0).contains(x) by {}
            }
        }
        while gi < qs.len()
            invariant
                self.inv(),
                self.depth == old(self).depth,
                gvs == gram_views(qs@),
                gi <= qs@.len(),
                forall|p: (T::V, Seq<char>)|
                    #[trigger] self.rel().contains(p) <==> (old(self).rel().contains(p) || (p.0
                        == key@ && gvs.take(gi as int).contains(p.1))),
            decreases qs@.len() - gi,
        {
            self.add_pair(key, &qs[gi]);
            proof {
                assert(gram_views(qs@)[gi as int] == qs@[gi as int]@);
                let ghost tk1 = gvs.take(gi + 1);
                let ghost tk0 = gvs.take(gi as int);
                assert forall|x: Seq<char>| #[trigger] tk1.contains(x) implies (tk0.contains(x)
                    || x == gvs[gi as int]) by {
                    let k = choose|k: int| 0 <= k < tk1.len() && tk1[k] == x;
                    if k < gi {
                        assert(tk0[k] == x);
                    }
                }
                assert forall|x: Seq<char>| (tk0.contains(x) || x == gvs[gi as int]) implies
                    #[trigger] tk1.contains(x) by {
                    if x == gvs[gi as int] {
                        assert(tk1[gi as int] == x);
                    } else {
                        let k = choose|k: int| 0 <= k < tk0.len() && tk0[k] == x;
                        assert(tk1[k] == x);
                    }
                }
            }
            gi += 1;
        }
        proof {
            assert(gvs.take(qs@.len() as int) =~= gvs);
            let tset = gram_set(nfd_fold(index_string@), old(self).depth_of());
            assert(self.rel() =~= old(self).rel().union(pair_set::<T>(key@, tset))) by {
                assert forall|p: (T::V, Seq<char>)| #[trigger] self.rel().contains(p) implies old(
                    self,
                ).rel().union(pair_set::<T>(key@, tset)).contains(p) by {
                    if !old(self).rel().contains(p) {
                        assert(gvs.contains(p.1));
                        assert(tset.contains(p.1));
                    }
                }
                assert forall|p: (T::V, Seq<char>)| #[trigger] old(self).rel().union(
                    pair_set::<T>(key@, tset),
                ).contains(p) implies self.rel().contains(p) by {
                    if !old(self).rel().contains(p) {
                        assert(tset.contains(p.1));
                        assert(gvs.contains(p.1));
                    }
                }
            }
        }
    }

    fn insert_bounded(&mut self, key: T, index_string: &str) {
        let w = bound_wrap(index_string);
        self.insert(key, w.as_str());
    }
}

} // verus!
