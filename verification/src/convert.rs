//! Conversion between the two representations. Both encode one key-gram
//! relation, so either can be rebuilt from the other by walking its rows and
//! re-inserting every key-gram pair, carrying the depth over.

use vstd::prelude::*;

use crate::caps::FullTextQueriable;
use crate::invert::InvertIndex;
use crate::keys::IndexKey;
use crate::merge::MergeIndex;

verus! {

impl<T: IndexKey> MergeIndex<T> {
    /// The key-gram pairs the walk has passed: rows before `ei` whole, and
    /// of row `ei` the grams before `gj`.
    pub(crate) open spec fn rel_upto(self, ei: int, gj: int) -> Set<(T::V, Seq<char>)> {
        Set::new(
            |p: (T::V, Seq<char>)|
                exists|a: int, b: int|
                    #![trigger self.index@[a].grams@[b]]
                    0 <= a < self.index@.len() && 0 <= b < self.index@[a].grams@.len() && (a < ei
                        || (a == ei && b < gj)) && p == (
                        self.index@[a].key@,
                        self.index@[a].grams@[b]@,
                    ),
        )
    }

    /// Rebuilds the inverted representation of the same relation.
    pub fn to_inverted(&self) -> (r: InvertIndex<T>)
        ensures
            r.inv(),
            r.depth_of() == self.depth_of(),
            r.rel() == self.rel(),
    {
        let mut acc = InvertIndex::<T>::new(self.depth);
        proof {
            assert(acc.rel() =~= self.rel_upto(0, 0));
        }
        let mut ei: usize = 0;
        while ei < self.index.len()
            invariant
                ei <= self.index@.len(),
                acc.inv(),
                acc.depth == self.depth,
                acc.rel() == self.rel_upto(ei as int, 0),
            decreases self.index@.len() - ei,
        {
            let glen = self.index[ei].grams.len();
            let mut gj: usize = 0;
            while gj < glen
                invariant
                    ei < self.index@.len(),
                    glen == self.index@[ei as int].grams@.len(),
                    gj <= glen,
                    acc.inv(),
                    acc.depth == self.depth,
                    acc.rel() == self.rel_upto(ei as int, gj as int),
                decreases glen - gj,
            {
                let key = self.index[ei].key;
                acc.add_pair(key, &self.index[ei].grams[gj]);
                proof {
                    assert(acc.rel() =~= self.rel_upto(ei as int, gj + 1)) by {
                        let pr = (key@, self.index@[ei as int].grams@[gj as int]@);
                        assert forall|p: (T::V, Seq<char>)| #[trigger] acc.rel().contains(
                            p,
                        ) implies self.rel_upto(ei as int, gj + 1).contains(p) by {
                            if p == pr {
                                assert(0 <= ei as int && 0 <= gj as int && self.index@[ei as int].grams@[gj as int]@
                                    == p.1);
                            } else {
                                let (a, b) = choose|a: int, b: int|
                                    #![trigger self.index@[a].grams@[b]]
                                    0 <= a < self.index@.len() && 0 <= b
                                        < self.index@[a].grams@.len() && (a < ei as int || (a
                                        == ei as int && b < gj as int)) && p == (
                                        self.index@[a].key@,
                                        self.index@[a].grams@[b]@,
                                    );
                                assert(self.index@[a].grams@[b]@ == p.1);
                            }
                        }
                        assert forall|p: (T::V, Seq<char>)| #[trigger] self.rel_upto(
                            ei as int,
                            gj + 1,
                        ).contains(p) implies acc.rel().contains(p) by {
                            let (a, b) = choose|a: int, b: int|
                                #![trigger self.index@[a].grams@[b]]
                                0 <= a < self.index@.len() && 0 <= b < self.index@[a].grams@.len()
                                    && (a < ei as int || (a == ei as int && b < gj + 1)) && p == (
                                    self.index@[a].key@,
                                    self.index@[a].grams@[b]@,
                                );
                            if a == ei as int && b == gj as int {
                                assert(p == pr);
                            } else {
                                assert(self.rel_upto(ei as int, gj as int).contains(p));
                            }
                        }
                    }
                }
                gj += 1;
            }
            proof {
                assert(self.rel_upto(ei as int, glen as int) =~= self.rel_upto(ei + 1, 0)) by {
                    assert forall|p: (T::V, Seq<char>)| #[trigger] self.rel_upto(
                        ei + 1,
                        0,
                    ).contains(p) implies self.rel_upto(ei as int, glen as int).contains(p) by {
                        let (a, b) = choose|a: int, b: int|
                            #![trigger self.index@[a].grams@[b]]
                            0 <= a < self.index@.len() && 0 <= b < self.index@[a].grams@.len() && (
                            a < ei + 1) && p == (self.index@[a].key@, self.index@[a].grams@[b]@);
                        assert(self.index@[a].grams@[b]@ == p.1);
                    }
                }
            }
            ei += 1;
        }
        proof {
            assert(self.rel_upto(self.index@.len() as int, 0) =~= self.rel()) by {
                assert forall|p: (T::V, Seq<char>)| #[trigger] self.rel().contains(p) implies self
                    .rel_upto(self.index@.len() as int, 0).contains(p) by {
                    let (a, b) = choose|a: int, b: int|
                        #![trigger self.index@[a].grams@[b]]
                        0 <= a < self.index@.len() && 0 <= b < self.index@[a].grams@.len() && p
                            == (self.index@[a].key@, self.index@[a].grams@[b]@);
                    assert(self.index@[a].grams@[b]@ == p.1);
                }
            }
        }
        acc
    }
}

impl<T: IndexKey> InvertIndex<T> {
    /// The key-gram pairs the walk has passed: rows before `ei` whole, and
    /// of row `ei` the keys before `ki`.
    pub(crate) open spec fn rel_upto(self, ei: int, ki: int) -> Set<(T::V, Seq<char>)> {
        Set::new(
            |p: (T::V, Seq<char>)|
                exists|a: int, b: int|
                    #![trigger self.index@[a].keys@[b]]
                    0 <= a < self.index@.len() && 0 <= b < self.index@[a].keys@.len() && (a < ei
                        || (a == ei && b < ki)) && p == (
                        self.index@[a].keys@[b]@,
                        self.index@[a].gram@,
                    ),
        )
    }

    /// Rebuilds the merged representation of the same relation.
    pub fn to_merged(&self) -> (r: MergeIndex<T>)
        ensures
            r.inv(),
            r.depth_of() == self.depth_of(),
            r.rel() == self.rel(),
    {
        let mut acc = MergeIndex::<T>::new(self.depth);
        proof {
            assert(acc.rel() =~= self.rel_upto(0, 0));
        }
        let mut ei: usize = 0;
        while ei < self.index.len()
            invariant
                ei <= self.index@.len(),
                acc.inv(),
                acc.depth == self.depth,
                acc.rel() == self.rel_upto(ei as int, 0),
            decreases self.index@.len() - ei,
        {
            let klen = self.index[ei].keys.len();
            let mut ki: usize = 0;
            while ki < klen
                invariant
                    ei < self.index@.len(),
                    klen == self.index@[ei as int].keys@.len(),
                    ki <= klen,
                    acc.inv(),
                    acc.depth == self.depth,
                    acc.rel() == self.rel_upto(ei as int, ki as int),
                decreases klen - ki,
            {
                let key = self.index[ei].keys[ki];
                acc.add_pair(key, &self.index[ei].gram);
                proof {
                    assert(acc.rel() =~= self.rel_upto(ei as int, ki + 1)) by {
                        let pr = (key@, self.index@[ei as int].gram@);
                        assert forall|p: (T::V, Seq<char>)| #[trigger] acc.rel().contains(
                            p,
                        ) implies self.rel_upto(ei as int, ki + 1).contains(p) by {
                            if p == pr {
                                assert(self.index@[ei as int].keys@[ki as int]@ == p.0);
                            } else {
                                let (a, b) = choose|a: int, b: int|
                                    #![trigger self.index@[a].keys@[b]]
                                    0 <= a < self.index@.len() && 0 <= b
                                        < self.index@[a].keys@.len() && (a < ei as int || (a
                                        == ei as int && b < ki as int)) && p == (
                                        self.index@[a].keys@[b]@,
                                        self.index@[a].gram@,
                                    );
                                assert(self.index@[a].keys@[b]@ == p.0);
                            }
                        }
                        assert forall|p: (T::V, Seq<char>)| #[trigger] self.rel_upto(
                            ei as int,
                            ki + 1,
                        ).contains(p) implies acc.rel().contains(p) by {
                            let (a, b) = choose|a: int, b: int|
                                #![trigger self.index@[a].keys@[b]]
                                0 <= a < self.index@.len() && 0 <= b < self.index@[a].keys@.len()
                                    && (a < ei as int || (a == ei as int && b < ki + 1)) && p == (
                                    self.index@[a].keys@[b]@,
                                    self.index@[a].gram@,
                                );
                            if a == ei as int && b == ki as int {
                                assert(p == pr);
                            } else {
                                assert(self.rel_upto(ei as int, ki as int).contains(p));
                            }
                        }
                    }
                }
                ki += 1;
            }
            proof {
                assert(self.rel_upto(ei as int, klen as int) =~= self.rel_upto(ei + 1, 0)) by {
                    assert forall|p: (T::V, Seq<char>)| #[trigger] self.rel_upto(
                        ei + 1,
                        0,
                    ).contains(p) implies self.rel_upto(ei as int, klen as int).contains(p) by {
                        let (a, b) = choose|a: int, b: int|
                            #![trigger self.index@[a].keys@[b]]
                            0 <= a < self.index@.len() && 0 <= b < self.index@[a].keys@.len() && (
                            a < ei + 1) && p == (self.index@[a].keys@[b]@, self.index@[a].gram@);
                        assert(self.index@[a].keys@[b]@ == p.0);
                    }
                }
            }
            ei += 1;
        }
        proof {
            assert(self.rel_upto(self.index@.len() as int, 0) =~= self.rel()) by {
                assert forall|p: (T::V, Seq<char>)| #[trigger] self.rel().contains(p) implies self
                    .rel_upto(self.index@.len() as int, 0).contains(p) by {
                    let (a, b) = choose|a: int, b: int|
                        #![trigger self.index@[a].keys@[b]]
                        0 <= a < self.index@.len() && 0 <= b < self.index@[a].keys@.len() && p
                            == (self.index@[a].keys@[b]@, self.index@[a].gram@);
                    assert(self.index@[a].keys@[b]@ == p.0);
                }
            }
        }
        acc
    }
}

// `From` carries no contract of its own: what the conversion promises is
// stated and proved on `to_inverted` and `to_merged`, which these impls call.
impl<T: IndexKey> vstd::std_specs::convert::FromSpecImpl<MergeIndex<T>> for InvertIndex<T> {
    open spec fn obeys_from_spec() -> bool {
        false
    }

    open spec fn from_spec(m: MergeIndex<T>) -> InvertIndex<T> {
        vstd::pervasive::arbitrary()
    }
}

impl<T: IndexKey> From<MergeIndex<T>> for InvertIndex<T> {
    fn from(merge_index: MergeIndex<T>) -> Self {
        merge_index.to_inverted()
    }
}

impl<T: IndexKey> vstd::std_specs::convert::FromSpecImpl<InvertIndex<T>> for MergeIndex<T> {
    open spec fn obeys_from_spec() -> bool {
        false
    }

    open spec fn from_spec(m: InvertIndex<T>) -> MergeIndex<T> {
        vstd::pervasive::arbitrary()
    }
}

impl<T: IndexKey> From<InvertIndex<T>> for MergeIndex<T> {
    fn from(invert_index: InvertIndex<T>) -> Self {
        invert_index.to_merged()
    }
}

} // verus!
