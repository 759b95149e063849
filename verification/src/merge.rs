//! The merged representation: a map from key to the union of all grams ever
//! produced for that key, held as rows sorted by key so that equal contents
//! mean equal values. Inserting under a known key accumulates.

use vstd::prelude::*;

use crate::caps::{pair_set, FullTextIndex, FullTextQueriable};
use crate::grams::{contains_gram, gram_set, gram_views, grams_of, lex_lt_fn};
use crate::grams::{bound_wrap, insert_gram_sorted, vec_sub};
use crate::keys::{key_lt_fn, lemma_key_strict_total_order, IndexKey};
use crate::norm::nfd_fold;
use crate::order::{lemma_sorted_at, lemma_strictly_sorted_no_duplicates, strictly_sorted_by};
use crate::rank::{count_matches, key_in_prefix, pair_views, rank_pairs, score};
use crate::rank::{lemma_count_matches_positive, lemma_count_matches_score};

verus! {

/// One row of the merged index: a key with every gram its texts produced.
#[derive(Clone, PartialEq, Eq, Debug)]
pub struct KeyEntry<T> {
    pub key: T,
    pub grams: Vec<Vec<char>>,
}

/// The merged index: rows sorted by key, each holding the accumulated grams
/// of that key, sorted and free of duplicates.
#[derive(Clone, PartialEq, Eq, Debug)]
pub struct MergeIndex<T> {
    pub depth: usize,
    pub index: Vec<KeyEntry<T>>,
}

impl<T: IndexKey> MergeIndex<T> {
    /// The key views of the rows, in order.
    pub open spec fn key_seq(self) -> Seq<T::V> {
        self.index@.map_values(|e: KeyEntry<T>| e.key@)
    }

    /// The rows as views: each key view with the views of its grams.
    pub open spec fn entries_view(self) -> Seq<(T::V, Seq<Seq<char>>)> {
        self.index@.map_values(|e: KeyEntry<T>| (e.key@, gram_views(e.grams@)))
    }

    /// An empty index with the given depth.
    pub fn new(depth: usize) -> (r: Self)
        ensures
            r.inv(),
            r.depth_of() == depth as nat,
            r.rel() == Set::<(T::V, Seq<char>)>::empty(),
            r.index@.len() == 0,
    {
        let r = MergeIndex { depth, index: Vec::<KeyEntry<T>>::new() };
        proof {
            assert(r.rel() =~= Set::<(T::V, Seq<char>)>::empty());
        }
        r
    }

    /// An empty index with the default depth of 6.
    pub fn default() -> (r: Self)
        ensures
            r.inv(),
            r.depth_of() == 6,
            r.rel() == Set::<(T::V, Seq<char>)>::empty(),
            r.index@.len() == 0,
    {
        MergeIndex::new(6)
    }

    /// Decides whether the index relates this key to this gram.
    fn has_pair(&self, key: T, gram: &Vec<char>) -> (r: bool)
        requires
            self.inv(),
        ensures
            r == self.rel().contains((key@, gram@)),
    {
        let mut ei: usize = 0;
        loop
            invariant
                self.inv(),
                ei <= self.index@.len(),
                forall|j: int| 0 <= j < ei ==> (#[trigger] self.index@[j].key@) != key@,
            ensures
                self.inv(),
                ei <= self.index@.len(),
                forall|j: int| 0 <= j < ei ==> (#[trigger] self.index@[j].key@) != key@,
                ei < self.index@.len() ==> self.index@[ei as int].key@ == key@,
            decreases self.index@.len() - ei,
        {
            if ei == self.index.len() {
                break ;
            }
            if self.index[ei].key.key_eq(key) {
                break ;
            }
            ei += 1;
        }
        if ei == self.index.len() {
            proof {
                if self.rel().contains((key@, gram@)) {
                    let (i, j) = choose|i: int, j: int|
                        #![trigger self.index@[i].grams@[j]]
                        0 <= i < self.index@.len() && 0 <= j < self.index@[i].grams@.len() && (
                        key@,
                        gram@,
                        ) == (self.index@[i].key@, self.index@[i].grams@[j]@);
                    assert(self.index@[i].key@ == key@);
                }
            }
            return false;
        }
        let r = contains_gram(&self.index[ei].grams, gram);
        proof {
            if r {
                let gvs = gram_views(self.index@[ei as int].grams@);
                let j = choose|j: int| 0 <= j < gvs.len() && gvs[j] == gram@;
                assert(self.index@[ei as int].grams@[j]@ == gram@);
                assert(self.rel().contains((key@, gram@)));
            } else {
                if self.rel().contains((key@, gram@)) {
                    let (i, j) = choose|i: int, j: int|
                        #![trigger self.index@[i].grams@[j]]
                        0 <= i < self.index@.len() && 0 <= j < self.index@[i].grams@.len() && (
                        key@,
                        gram@,
                        ) == (self.index@[i].key@, self.index@[i].grams@[j]@);
                    if i != ei as int {
                        // Two distinct rows with the same key cannot exist.
                        if i < ei as int {
                            lemma_sorted_at(key_lt_fn::<T>(), self.key_seq(), i, ei as int);
                        } else {
                            lemma_sorted_at(key_lt_fn::<T>(), self.key_seq(), ei as int, i);
                        }
                        assert(self.key_seq()[i] == self.index@[i].key@);
                        assert(self.key_seq()[ei as int] == key@);
                        T::lemma_key_order(key@, key@, key@);
                    } else {
                        assert(gram_views(self.index@[ei as int].grams@)[j] == gram@);
                    }
                }
            }
        }
        r
    }

    /// Counts how many of the listed grams this key is related to.
    fn count_for_key(&self, key: T, qs: &Vec<Vec<char>>) -> (count: usize)
        requires
            self.inv(),
        ensures
            count as nat == count_matches::<T>(self.rel(), key@, gram_views(qs@)),
            count <= qs@.len(),
    {
        let ghost gvs = gram_views(qs@);
        let mut count: usize = 0;
        let mut gi: usize = 0;
        proof {
            assert(gvs.take(0) =~= Seq::<Seq<char>>::empty());
        }
        while gi < qs.len()
            invariant
                self.inv(),
                gvs == gram_views(qs@),
                gi <= qs@.len(),
                count <= gi,
                count as nat == count_matches::<T>(self.rel(), key@, gvs.take(gi as int)),
            decreases qs@.len() - gi,
        {
            let hit = self.has_pair(key, &qs[gi]);
            proof {
                let pre = gvs.take(gi as int);
                let post = gvs.take(gi + 1);
                assert(post.drop_last() =~= pre);
                assert(post.last() == gvs[gi as int]);
                assert(gvs[gi as int] == qs@[gi as int]@);
            }
            if hit {
                count += 1;
            }
            gi += 1;
        }
        proof {
            assert(gvs.take(qs@.len() as int) =~= gvs);
        }
        count
    }

    /// Relates `key` to `gram`, leaving everything else as it was.
    pub(crate) fn add_pair(&mut self, key: T, gram: &Vec<char>)
        requires
            old(self).inv(),
        ensures
            final(self).inv(),
            final(self).depth == old(self).depth,
            final(self).rel() == old(self).rel().insert((key@, gram@)),
    {
        let ghost oidx = self.index@;
        let mut ei: usize = 0;
        loop
            invariant
                *self == *old(self),
                self.inv(),
                ei <= self.index@.len(),
                forall|j: int| 0 <= j < ei ==> T::key_lt(#[trigger] self.index@[j].key@, key@),
            ensures
                *self == *old(self),
                self.inv(),
                ei <= self.index@.len(),
                forall|j: int| 0 <= j < ei ==> T::key_lt(#[trigger] self.index@[j].key@, key@),
                ei < self.index@.len() ==> !T::key_lt(self.index@[ei as int].key@, key@),
            decreases self.index@.len() - ei,
        {
            if ei == self.index.len() {
                break ;
            }
            let cur = self.index[ei].key;
            proof {
                assert(cur@ == self.index@[ei as int].key@);
                T::lemma_key_order(cur@, key@, cur@);
            }
            if !(cur.key_le(key) && !cur.key_eq(key)) {
                break ;
            }
            ei += 1;
        }
        let found = if ei < self.index.len() {
            self.index[ei].key.key_eq(key)
        } else {
            false
        };
        if found {
            let ghost oentry = self.index@[ei as int];
            let g2 = vec_sub(gram, 0, gram.len());
            proof {
                assert(g2@ =~= gram@);
            }
            insert_gram_sorted(&mut self.index[ei].grams, g2);
            proof {
                let nidx = self.index@;
                let nentry = nidx[ei as int];
                assert(nidx == oidx.update(ei as int, nentry));
                assert(nentry.key@ == key@);
                // The rows and their order are untouched.
                assert(self.key_seq() =~= old(self).key_seq()) by {
                    assert forall|j: int| 0 <= j < nidx.len() implies #[trigger] self.key_seq()[j]
                        == old(self).key_seq()[j] by {
                        assert(self.key_seq()[j] == nidx[j].key@);
                        assert(old(self).key_seq()[j] == oidx[j].key@);
                    }
                }
                assert(self.inv()) by {
                    assert forall|i: int|
                        0 <= i < nidx.len() implies strictly_sorted_by(
                        lex_lt_fn(),
                        gram_views(#[trigger] nidx[i].grams@),
                    ) && nidx[i].grams@.len() > 0 by {
                        if i != ei as int {
                            assert(nidx[i] == oidx[i]);
                        }
                    }
                }
                assert(self.rel() =~= old(self).rel().insert((key@, gram@))) by {
                    assert forall|p: (T::V, Seq<char>)| #[trigger] self.rel().contains(p) implies (
                    old(self).rel().contains(p) || p == (key@, gram@)) by {
                        let (i, j) = choose|i: int, j: int|
                            #![trigger nidx[i].grams@[j]]
                            0 <= i < nidx.len() && 0 <= j < nidx[i].grams@.len() && p == (
                                nidx[i].key@,
                                nidx[i].grams@[j]@,
                            );
                        if i == ei as int {
                            assert(gram_views(nentry.grams@)[j] == p.1);
                            assert(gram_views(nentry.grams@).contains(p.1));
                            if p.1 != gram@ {
                                assert(gram_views(oentry.grams@).contains(p.1));
                                let m = choose|m: int|
                                    0 <= m < gram_views(oentry.grams@).len() && gram_views(
                                        oentry.grams@,
                                    )[m] == p.1;
                                assert(oidx[i].grams@[m]@ == p.1);
                            }
                        } else {
                            assert(oidx[i].grams@[j]@ == p.1);
                        }
                    }
                    assert forall|p: (T::V, Seq<char>)|
                        (old(self).rel().contains(p) || p == (key@, gram@)) implies #[trigger] self
                        .rel().contains(p) by {
                        if old(self).rel().contains(p) {
                            let (i, j) = choose|i: int, j: int|
                                #![trigger oidx[i].grams@[j]]
                                0 <= i < oidx.len() && 0 <= j < oidx[i].grams@.len() && p == (
                                    oidx[i].key@,
                                    oidx[i].grams@[j]@,
                                );
                            if i == ei as int {
                                assert(gram_views(oentry.grams@)[j] == p.1);
                                assert(gram_views(oentry.grams@).contains(p.1));
                                assert(gram_views(nentry.grams@).contains(p.1));
                                let m = choose|m: int|
                                    0 <= m < gram_views(nentry.grams@).len() && gram_views(
                                        nentry.grams@,
                                    )[m] == p.1;
                                assert(nidx[i].grams@[m]@ == p.1);
                            } else {
                                assert(nidx[i].grams@[j]@ == p.1);
                            }
                        } else {
                            assert(gram_views(nentry.grams@).contains(gram@));
                            let m = choose|m: int|
                                0 <= m < gram_views(nentry.grams@).len() && gram_views(
                                    nentry.grams@,
                                )[m] == gram@;
                            assert(nidx[ei as int].grams@[m]@ == gram@);
                        }
                    }
                }
            }
            return ;
        }
        proof {
            lemma_key_strict_total_order::<T>();
            if ei < self.index@.len() {
                assert(self.index@[ei as int].key@ != key@);
                T::lemma_key_order(key@, self.index@[ei as int].key@, key@);
                assert(T::key_lt(key@, self.index@[ei as int].key@));
            }
            assert forall|j: int| ei <= j < self.index@.len() implies T::key_lt(
                key@,
                #[trigger] self.index@[j].key@,
            ) by {
                if j > ei {
                    lemma_sorted_at(key_lt_fn::<T>(), self.key_seq(), ei as int, j);
                    assert(self.key_seq()[ei as int] == self.index@[ei as int].key@);
                    assert(self.key_seq()[j] == self.index@[j].key@);
                    T::lemma_key_order(key@, self.index@[ei as int].key@, self.index@[j].key@);
                }
            }
        }
        let g2 = vec_sub(gram, 0, gram.len());
        proof {
            assert(g2@ =~= gram@);
        }
        let mut gs: Vec<Vec<char>> = Vec::new();
        gs.push(g2);
        let entry = KeyEntry { key, grams: gs };
        self.index.insert(ei, entry);
        proof {
            let nidx = self.index@;
            assert(nidx == oidx.insert(ei as int, entry));
            assert forall|j: int| 0 <= j < nidx.len() implies #[trigger] nidx[j] == (if j < ei {
                oidx[j]
            } else if j == ei {
                entry
            } else {
                oidx[j - 1]
            }) by {}
            assert(self.inv()) by {
                assert(strictly_sorted_by(key_lt_fn::<T>(), self.key_seq())) by {
                    assert forall|a: int, b: int|
                        0 <= a < b < nidx.len() implies key_lt_fn::<T>()(
                        self.key_seq()[a],
                        self.key_seq()[b],
                    ) by {
                        assert(self.key_seq()[a] == nidx[a].key@);
                        assert(self.key_seq()[b] == nidx[b].key@);
                        if a < ei && b < ei {
                            lemma_sorted_at(key_lt_fn::<T>(), old(self).key_seq(), a, b);
                            assert(old(self).key_seq()[a] == oidx[a].key@);
                            assert(old(self).key_seq()[b] == oidx[b].key@);
                        } else if a < ei && b == ei {
                            assert(T::key_lt(oidx[a].key@, key@));
                        } else if a < ei && b > ei {
                            lemma_sorted_at(key_lt_fn::<T>(), old(self).key_seq(), a, b - 1);
                            assert(old(self).key_seq()[a] == oidx[a].key@);
                            assert(old(self).key_seq()[b - 1] == oidx[b - 1].key@);
                        } else if a == ei {
                            assert(T::key_lt(key@, oidx[b - 1].key@));
                        } else {
                            lemma_sorted_at(key_lt_fn::<T>(), old(self).key_seq(), a - 1, b - 1);
                            assert(old(self).key_seq()[a - 1] == oidx[a - 1].key@);
                            assert(old(self).key_seq()[b - 1] == oidx[b - 1].key@);
                        }
                    }
                }
                assert forall|i: int|
                    0 <= i < nidx.len() implies strictly_sorted_by(
                    lex_lt_fn(),
                    gram_views(#[trigger] nidx[i].grams@),
                ) && nidx[i].grams@.len() > 0 by {
                    if i < ei {
                        assert(nidx[i] == oidx[i]);
                    } else if i > ei {
                        assert(nidx[i] == oidx[i - 1]);
                    } else {
                        assert(nidx[i].grams@.len() == 1);
                    }
                }
            }
            assert(self.rel() =~= old(self).rel().insert((key@, gram@))) by {
                assert forall|p: (T::V, Seq<char>)| #[trigger] self.rel().contains(p) implies (old(
                    self,
                ).rel().contains(p) || p == (key@, gram@)) by {
                    let (i, j) = choose|i: int, j: int|
                        #![trigger nidx[i].grams@[j]]
                        0 <= i < nidx.len() && 0 <= j < nidx[i].grams@.len() && p == (
                            nidx[i].key@,
                            nidx[i].grams@[j]@,
                        );
                    if i < ei {
                        assert(oidx[i].grams@[j]@ == p.1);
                    } else if i > ei {
                        assert(oidx[i - 1].grams@[j]@ == p.1);
                    } else {
                        assert(nidx[i].grams@[j] == g2);
                    }
                }
                assert forall|p: (T::V, Seq<char>)|
                    (old(self).rel().contains(p) || p == (key@, gram@)) implies #[trigger] self
                    .rel().contains(p) by {
                    if old(self).rel().contains(p) {
                        let (i, j) = choose|i: int, j: int|
                            #![trigger oidx[i].grams@[j]]
                            0 <= i < oidx.len() && 0 <= j < oidx[i].grams@.len() && p == (
                                oidx[i].key@,
                                oidx[i].grams@[j]@,
                            );
                        if i < ei {
                            assert(nidx[i].grams@[j]@ == p.1);
                        } else {
                            assert(nidx[i + 1].grams@[j]@ == p.1);
                        }
                    } else {
                        assert(nidx[ei as int].grams@[0]@ == gram@);
                    }
                }
            }
        }
    }
}

impl<T: IndexKey> FullTextQueriable<T> for MergeIndex<T> {
    /// Rows strictly sorted by key; each gram list strictly sorted and never
    /// empty.
    open spec fn inv(&self) -> bool {
        &&& strictly_sorted_by(key_lt_fn::<T>(), self.key_seq())
        &&& forall|i: int|
            0 <= i < self.index@.len() ==> strictly_sorted_by(
                lex_lt_fn(),
                gram_views(#[trigger] self.index@[i].grams@),
            )
        &&& forall|i: int| 0 <= i < self.index@.len() ==> (#[trigger] self.index@[i].grams@).len() > 0
    }

    /// A key view is related to a gram exactly when the gram sits in that
    /// key's row.
    open spec fn rel(&self) -> Set<(T::V, Seq<char>)> {
        Set::new(
            |p: (T::V, Seq<char>)|
                exists|i: int, j: int|
                    #![trigger self.index@[i].grams@[j]]
                    0 <= i < self.index@.len() && 0 <= j < self.index@[i].grams@.len() && p == (
                        self.index@[i].key@,
                        self.index@[i].grams@[j]@,
                    ),
        )
    }

    open spec fn depth_of(&self) -> nat {
        self.depth as nat
    }

    fn query(&self, query_string: &str) -> (r: Vec<T>) {
        let qs = grams_of(query_string, self.depth);
        let ghost qg = gram_set(nfd_fold(query_string@), self.depth as nat);
        let ghost gvs = gram_views(qs@);
        let ghost relg = self.rel();
        proof {
            crate::order::lemma_lex_strict_total_order();
            lemma_strictly_sorted_no_duplicates(lex_lt_fn(), gvs);
        }
        let mut pairs: Vec<(T, usize)> = Vec::new();
        let mut ei: usize = 0;
        while ei < self.index.len()
            invariant
                self.inv(),
                relg == self.rel(),
                qg == gram_set(nfd_fold(query_string@), self.depth_of()),
                gvs == gram_views(qs@),
                gvs.no_duplicates(),
                forall|g: Seq<char>| #[trigger] gvs.contains(g) <==> qg.contains(g),
                ei <= self.index@.len(),
                forall|a: int, b: int|
                    0 <= a < b < pairs@.len() ==> (#[trigger] pair_views(pairs@)[a]).0 != (
                    #[trigger] pair_views(pairs@)[b]).0,
                forall|k: int|
                    0 <= k < pairs@.len() ==> ((#[trigger] pair_views(pairs@)[k]).1 as nat
                        == count_matches::<T>(relg, pair_views(pairs@)[k].0, gvs) && pair_views(
                        pairs@,
                    )[k].1 > 0),
                forall|k: int|
                    0 <= k < pairs@.len() ==> exists|a: int|
                        0 <= a < ei && (#[trigger] pair_views(pairs@)[k]).0 == self.index@[a].key@,
                forall|a: int|
                    0 <= a < ei && count_matches::<T>(relg, (#[trigger] self.index@[a]).key@, gvs)
                        > 0 ==> key_in_prefix(pairs@, pairs@.len() as int, self.index@[a].key@),
            decreases self.index@.len() - ei,
        {
            let key = self.index[ei].key;
            let ghost opairs = pairs@;
            let c = self.count_for_key(key, &qs);
            proof {
                assert(key@ == self.index@[ei as int].key@);
                // This row's key differs from every earlier row's key.
                assert forall|k: int| 0 <= k < pairs@.len() implies (#[trigger] pair_views(
                    pairs@,
                )[k]).0 != key@ by {
                    let a = choose|a: int|
                        0 <= a < ei && (#[trigger] pair_views(pairs@)[k]).0
                            == self.index@[a].key@;
                    lemma_sorted_at(key_lt_fn::<T>(), self.key_seq(), a, ei as int);
                    assert(self.key_seq()[a] == self.index@[a].key@);
                    assert(self.key_seq()[ei as int] == key@);
                    T::lemma_key_order(key@, key@, key@);
                }
            }
            if c > 0 {
                pairs.push((key, c));
                proof {
                    assert forall|k: int| 0 <= k < pairs@.len() implies #[trigger] pair_views(
                        pairs@,
                    )[k] == (if k < opairs.len() {
                        pair_views(opairs)[k]
                    } else {
                        (key@, c)
                    }) by {
                        assert(pair_views(pairs@)[k] == (pairs@[k].0@, pairs@[k].1));
                        if k < opairs.len() {
                            assert(pairs@[k] == opairs[k]);
                            assert(pair_views(opairs)[k] == (opairs[k].0@, opairs[k].1));
                        }
                    }
                    assert forall|a: int|
                        0 <= a < ei + 1 && count_matches::<T>(
                            relg,
                            (#[trigger] self.index@[a]).key@,
                            gvs,
                        ) > 0 implies key_in_prefix(
                        pairs@,
                        pairs@.len() as int,
                        self.index@[a].key@,
                    ) by {
                        if a == ei as int {
                            assert(pair_views(pairs@)[pairs@.len() - 1].0 == key@);
                        } else {
                            let n = choose|n: int|
                                0 <= n < opairs.len() && (#[trigger] pair_views(opairs)[n]).0
                                    == self.index@[a].key@;
                            assert(pair_views(pairs@)[n].0 == self.index@[a].key@);
                        }
                    }
                }
            } else {
                proof {
                    assert forall|a: int|
                        0 <= a < ei + 1 && count_matches::<T>(
                            relg,
                            (#[trigger] self.index@[a]).key@,
                            gvs,
                        ) > 0 implies key_in_prefix(
                        pairs@,
                        pairs@.len() as int,
                        self.index@[a].key@,
                    ) by {
                        assert(a != ei as int);
                    }
                }
            }
            ei += 1;
        }
        proof {
            assert(gvs.to_set() =~= qg) by {
                assert forall|g: Seq<char>| #[trigger] gvs.to_set().contains(g) implies qg.contains(
                    g,
                ) by {
                    assert(gvs.contains(g));
                }
                assert forall|g: Seq<char>| #[trigger] qg.contains(g) implies gvs.to_set()
                    .contains(g) by {
                    assert(gvs.contains(g));
                }
            }
            assert forall|k: int|
                0 <= k < pairs@.len() implies ((#[trigger] pair_views(pairs@)[k]).1 as nat
                == score::<T>(relg, qg, pair_views(pairs@)[k].0) && pair_views(pairs@)[k].1
                > 0) by {
                lemma_count_matches_score::<T>(relg, pair_views(pairs@)[k].0, gvs);
            }
            assert forall|kv: T::V| #[trigger] score::<T>(relg, qg, kv) > 0 implies key_in_prefix(
                pairs@,
                pairs@.len() as int,
                kv,
            ) by {
                lemma_count_matches_score::<T>(relg, kv, gvs);
                lemma_count_matches_positive::<T>(relg, kv, gvs);
                let m = choose|m: int| 0 <= m < gvs.len() && relg.contains((kv, #[trigger] gvs[m]));
                let (a, b) = choose|a: int, b: int|
                    #![trigger self.index@[a].grams@[b]]
                    0 <= a < self.index@.len() && 0 <= b < self.index@[a].grams@.len() && (
                    kv,
                    gvs[m],
                    ) == (self.index@[a].key@, self.index@[a].grams@[b]@);
                assert(count_matches::<T>(relg, self.index@[a].key@, gvs) > 0);
            }
        }
        rank_pairs(&pairs, Ghost(relg), Ghost(qg))
    }

    fn query_bounded(&self, query_string: &str) -> (r: Vec<T>) {
        let w = bound_wrap(query_string);
        self.query(w.as_str())
    }
}

impl<T: IndexKey> FullTextIndex<T> for MergeIndex<T> {
    fn insert(&mut self, key: T, index_string: &str) {
        let qs = grams_of(index_string, self.depth);
        let ghost gvs = gram_views(qs@);
        let mut gi: usize = 0;
        proof {
            assert(self.rel() =~= old(self).rel().union(
                pair_set::<T>(key@, gvs.take(0).to_set()),
            )) by {
                assert forall|x: Seq<char>| !#[trigger] gvs.take(0).contains(x) by {}
            }
        }
        while gi < qs.len()
            invariant
                self.inv(),
                self.depth == old(self).depth,
                gvs == gram_views(qs@),
                gi <= qs@.len(),
                forall|p: (T::V, Seq<char>)|
                    #[trigger] self.rel().contains(p) <==> (old(self).rel().contains(p) || (p.0
                        == key@ && gvs.take(gi as int).contains(p.1))),
            decreases qs@.len() - gi,
        {
            self.add_pair(key, &qs[gi]);
            proof {
                assert(gram_views(qs@)[gi as int] == qs@[gi as int]@);
                let ghost tk1 = gvs.take(gi + 1);
                let ghost tk0 = gvs.take(gi as int);
                assert forall|x: Seq<char>| #[trigger] tk1.contains(x) implies (tk0.contains(x)
                    || x == gvs[gi as int]) by {
                    let k = choose|k: int| 0 <= k < tk1.len() && tk1[k] == x;
                    if k < gi {
                        assert(tk0[k] == x);
                    }
                }
                assert forall|x: Seq<char>| (tk0.contains(x) || x == gvs[gi as int]) implies
                    #[trigger] tk1.contains(x) by {
                    if x == gvs[gi as int] {
                        assert(tk1[gi as int] == x);
                    } else {
                        let k = choose|k: int| 0 <= k < tk0.len() && tk0[k] == x;
                        assert(tk1[k] == x);
                    }
                }
            }
            gi += 1;
        }
        proof {
            assert(gvs.take(qs@.len() as int) =~= gvs);
            let tset = gram_set(nfd_fold(index_string@), old(self).depth_of());
            assert(self.rel() =~= old(self).rel().union(pair_set::<T>(key@, tset))) by {
                assert forall|p: (T::V, Seq<char>)| #[trigger] self.rel().contains(p) implies old(
                    self,
                ).rel().union(pair_set::<T>(key@, tset)).contains(p) by {
                    if !old(self).rel().contains(p) {
                        assert(gvs.contains(p.1));
                        assert(tset.contains(p.1));
                    }
                }
                assert forall|p: (T::V, Seq<char>)| #[trigger] old(self).rel().union(
                    pair_set::<T>(key@, tset),
                ).contains(p) implies self.rel().contains(p) by {
                    if !old(self).rel().contains(p) {
                        assert(tset.contains(p.1));
                        assert(gvs.contains(p.1));
                    }
                }
            }
        }
    }

    fn insert_bounded(&mut self, key: T, index_string: &str) {
        let w = bound_wrap(index_string);
        self.insert(key, w.as_str());
    }
}

} // verus!
