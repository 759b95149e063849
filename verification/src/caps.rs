//! The full-text capability contract. Both index representations encode one
//! abstract key-gram relation; reading and writing are separable, so a
//! caller that only queries can be written against the queryable capability
//! alone and accept either representation.

use vstd::prelude::*;

use crate::grams::{gram_set, wrap_view};
use crate::keys::{key_views, IndexKey};
use crate::norm::nfd_fold;
use crate::rank::is_ranked;

verus! {

/// The pairs that relate one key view to every gram of a set.
pub open spec fn pair_set<T: IndexKey>(kv: T::V, gs: Set<Seq<char>>) -> Set<(T::V, Seq<char>)> {
    Set::new(|p: (T::V, Seq<char>)| p.0 == kv && gs.contains(p.1))
}

/// An index that can be queried: it encodes a key-gram relation at a fixed
/// depth, and ranks the known keys against any query string.
pub trait FullTextQueriable<T: IndexKey>: Sized {
    /// The representation is well formed.
    spec fn inv(&self) -> bool;

    /// The key-gram relation the index encodes.
    spec fn rel(&self) -> Set<(T::V, Seq<char>)>;

    /// The configured depth: one less than the longest gram generated.
    spec fn depth_of(&self) -> nat;

    /// Ranks the known keys against the query text: exactly the keys sharing
    /// a gram with it, ordered by how many grams they share, most first,
    /// equal counts in key order.
    fn query(&self, query_string: &str) -> (r: Vec<T>)
        requires
            self.inv(),
        ensures
            is_ranked::<T>(
                self.rel(),
                gram_set(nfd_fold(query_string@), self.depth_of()),
                key_views(r@),
            ),
    ;

    /// Like `query`, with the text bracketed by the boundary markers first,
    /// so matches at the true start or end of a stored text weigh in.
    fn query_bounded(&self, query_string: &str) -> (r: Vec<T>)
        requires
            self.inv(),
        ensures
            is_ranked::<T>(
                self.rel(),
                gram_set(nfd_fold(wrap_view(query_string@)), self.depth_of()),
                key_views(r@),
            ),
    ;
}

/// An index that can also be written: inserting relates a key to every gram
/// of the text, on top of whatever the key was already related to.
pub trait FullTextIndex<T: IndexKey>: FullTextQueriable<T> {
    fn insert(&mut self, key: T, index_string: &str)
        requires
            old(self).inv(),
        ensures
            final(self).inv(),
            final(self).depth_of() == old(self).depth_of(),
            final(self).rel() == old(self).rel().union(
                pair_set::<T>(key@, gram_set(nfd_fold(index_string@), old(self).depth_of())),
            ),
    ;

    /// Like `insert`, with the text bracketed by the boundary markers first.
    fn insert_bounded(&mut self, key: T, index_string: &str)
        requires
            old(self).inv(),
        ensures
            final(self).inv(),
            final(self).depth_of() == old(self).depth_of(),
            final(self).rel() == old(self).rel().union(
                pair_set::<T>(
                    key@,
                    gram_set(nfd_fold(wrap_view(index_string@)), old(self).depth_of()),
                ),
            ),
    ;
}

} // verus!
