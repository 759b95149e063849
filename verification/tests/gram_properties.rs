//! Grams, normalization, ranking policy, conversions, and degenerate inputs
//! on concrete values.

use indexrs::{bound_wrap, mkgrams, mkgrams_normalized, normalize_case_fold};
use indexrs::{FullTextIndex, FullTextQueriable, InvertIndex, MergeIndex};

#[test]
fn mkgrams_exact_small() {
    assert_eq!(mkgrams("ab", 6), vec!["ab".to_string()]);
    assert_eq!(
        mkgrams("abc", 2),
        vec!["ab".to_string(), "abc".to_string(), "bc".to_string()]
    );
}

#[test]
fn mkgrams_never_length_one() {
    // Gram lengths run from 2 to depth + 1; a single codepoint yields nothing.
    assert_eq!(mkgrams("a", 6), Vec::<String>::new());
    assert_eq!(mkgrams("", 6), Vec::<String>::new());
    // Depth 0 admits no gram at all.
    assert_eq!(mkgrams("abc", 0), Vec::<String>::new());
}

#[test]
fn mkgrams_deduplicates() {
    // Both halves produce the same runs once; the doubled text adds only the
    // grams spanning the seam.
    let foo = mkgrams("foobarbazfoobar", 6);
    let bar = mkgrams("barbazfoobarbaz", 6);
    assert_eq!(foo, bar);
}

#[test]
fn mkgrams_case_folds() {
    assert_eq!(mkgrams("AB", 6), vec!["ab".to_string()]);
    assert_eq!(mkgrams("AB", 6), mkgrams("ab", 6));
}

#[test]
fn mkgrams_normalizes_unicode_forms() {
    // A precomposed accent and its decomposed spelling reduce to the same
    // codepoints, so they make the same grams.
    assert_eq!(mkgrams("Caf\u{e9}", 6), mkgrams("Cafe\u{301}", 6));
}

#[test]
fn mkgrams_of_normal_form_agrees() {
    assert_eq!(mkgrams_normalized("\u{c5}B", 6), mkgrams("\u{c5}B", 6));
    assert_eq!(mkgrams_normalized("boof", 6), mkgrams("boof", 6));
}

#[test]
fn normalize_case_fold_lowers() {
    assert_eq!(normalize_case_fold("ABC"), "abc");
}

#[test]
fn normalize_case_fold_idempotent() {
    let n = normalize_case_fold("\u{c5}riel Caf\u{e9}");
    assert_eq!(normalize_case_fold(n.as_str()), n);
}

#[test]
fn bound_wrap_brackets() {
    assert_eq!(bound_wrap("x"), "\u{2}x\u{3}");
    assert_eq!(bound_wrap(""), "\u{2}\u{3}");
}

#[test]
fn overlap_counts_rank_keys() {
    // "boof" shares oo, oof and of with the query; "foob" shares only oo.
    let mut idx = InvertIndex::<u32>::default();
    idx.insert(69, "boof");
    idx.insert(420, "foob");
    assert_eq!(idx.query("oof"), vec![69, 420]);

    let mut midx = MergeIndex::<u32>::default();
    midx.insert(69, "boof");
    midx.insert(420, "foob");
    assert_eq!(midx.query("oof"), vec![69, 420]);
}

#[test]
fn equal_counts_break_ties_by_key_order() {
    let mut idx = InvertIndex::<u32>::default();
    idx.insert(2, "xy");
    idx.insert(1, "xy");
    assert_eq!(idx.query("xy"), vec![1, 2]);

    let mut midx = MergeIndex::<&str>::default();
    midx.insert("b", "xy");
    midx.insert("a", "xy");
    assert_eq!(midx.query("xy"), vec!["a", "b"]);
}

#[test]
fn boundary_markers_distinguish_prefix_from_internal() {
    // Without markers the two texts match the query equally well; with them
    // the text that truly starts with the query wins.
    let mut plain = InvertIndex::<u32>::default();
    plain.insert(1, "zabcz");
    plain.insert(2, "abcd");
    assert_eq!(plain.query("abc"), vec![1, 2]);

    let mut bounded = InvertIndex::<u32>::default();
    bounded.insert_bounded(1, "zabcz");
    bounded.insert_bounded(2, "abcd");
    assert_eq!(bounded.query_bounded("abc"), vec![2, 1]);
}

#[test]
fn merge_accumulates_across_inserts() {
    // A second insert under the same key unions in the new text's grams and
    // keeps the old ones.
    let mut midx = MergeIndex::<&str>::default();
    midx.insert("for example", "abxq");
    midx.insert("for example", "cdyr");
    assert_eq!(midx.query("abxq"), vec!["for example"]);
    assert_eq!(midx.query("cdyr"), vec!["for example"]);
}

#[test]
fn reinsert_same_text_changes_nothing() {
    let mut once = InvertIndex::<u32>::default();
    once.insert(7, "boof");
    let mut twice = InvertIndex::<u32>::default();
    twice.insert(7, "boof");
    twice.insert(7, "boof");
    assert_eq!(once.index, twice.index);
    assert_eq!(once.query("oof"), twice.query("oof"));
}

#[test]
fn degenerate_inputs_answer_empty() {
    let empty = InvertIndex::<u32>::default();
    assert_eq!(empty.query("anything"), Vec::<u32>::new());

    let mut idx = InvertIndex::<u32>::default();
    idx.insert(1, "");
    idx.insert(2, "a");
    assert_eq!(idx.query("abcd"), Vec::<u32>::new());
    assert_eq!(idx.query(""), Vec::<u32>::new());

    let mut zero = MergeIndex::<u32>::new(0);
    zero.insert(1, "abc");
    assert_eq!(zero.query("abc"), Vec::<u32>::new());
}

#[test]
fn conversion_round_trip_restores_rows() {
    let mut idx = InvertIndex::<u32>::new(4);
    idx.insert(10, "boof");
    idx.insert(20, "foob");
    idx.insert(10, "quux");

    let merged = idx.to_merged();
    assert_eq!(merged.depth, 4);
    let back = merged.to_inverted();
    assert_eq!(back.depth, 4);
    assert_eq!(back.index, idx.index);
    assert_eq!(back.query("oof"), idx.query("oof"));

    let mut midx = MergeIndex::<&str>::new(5);
    midx.insert("a", "boof");
    midx.insert("b", "foob");
    let inverted = midx.to_inverted();
    let round = inverted.to_merged();
    assert_eq!(round.index, midx.index);
    assert_eq!(round.query("oof"), midx.query("oof"));
}
