//! An in-memory fuzzy full-text matching library built on character n-grams.
//!
//! Texts are normalized (canonical decomposition, then lowercased), cut into
//! overlapping runs of codepoints ("grams"), and stored in one of two dual
//! index representations: a gram-to-keys inverted index or a key-to-grams
//! merged index. Queries rank known keys by how many grams they share with
//! the query text.

mod caps;
mod convert;
mod grams;
mod invert;
mod keys;
mod laws;
mod merge;
mod norm;
mod order;
mod rank;

pub use caps::{pair_set, FullTextIndex, FullTextQueriable};
pub use grams::{bound_wrap, gram_set, holds_gram_set, lemma_gram_list_unique};
pub use grams::{mkgrams, mkgrams_normalized, wrap_view};
pub use invert::{GramEntry, InvertIndex};
pub use keys::{key_views, IndexKey};
pub use laws::{key_grams, rel_of_inserts};
pub use laws::{lemma_accumulation, lemma_insert_order_independent, lemma_invert_canonical};
pub use laws::{lemma_invert_round_trip, lemma_merge_canonical, lemma_merge_round_trip};
pub use laws::lemma_rel_of_inserts_step;
pub use merge::{KeyEntry, MergeIndex};
pub use norm::{nfd_fold, normalize_case_fold};
pub use order::{lex_lt, strict_total_order, strictly_sorted_by};
pub use rank::{is_ranked, lemma_ranked_unique, ranked_before, score};
