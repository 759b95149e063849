//! The gram generator: cutting a normalized text into its overlapping runs
//! of codepoints, and the boundary markers that make runs at the edges of a
//! string distinguishable from internal ones.

use vstd::prelude::*;
use vstd::string::StringExecFns;

use crate::norm::{nfd_fold, nfd_fold_chars, normalize_case_fold, string_of_chars};
use crate::order::{lex_lt, strictly_sorted_by};
use crate::order::{lemma_lex_connex, lemma_lex_strict_total_order, lemma_sorted_at};

verus! {

/// `lex_lt` packaged as a closed-over order for the sorting lemmas.
pub open spec fn lex_lt_fn() -> spec_fn(Seq<char>, Seq<char>) -> bool {
    |a: Seq<char>, b: Seq<char>| lex_lt(a, b)
}

/// The views of a sequence of grams held as codepoint vectors.
pub open spec fn gram_views(s: Seq<Vec<char>>) -> Seq<Seq<char>> {
    s.map_values(|g: Vec<char>| g@)
}

/// The views of a sequence of grams held as strings.
pub open spec fn string_views(s: Seq<String>) -> Seq<Seq<char>> {
    s.map_values(|g: String| g@)
}

/// The grams of a normalized text `t` at a given depth: every contiguous run
/// of codepoints of length at least 2 and at most `depth + 1`.
pub open spec fn gram_set(t: Seq<char>, depth: nat) -> Set<Seq<char>> {
    Set::new(
        |g: Seq<char>|
            exists|a: int, b: int|
                0 <= a && a + 2 <= b && b <= t.len() && b - a <= depth + 1 && g == t.subrange(
                    a,
                    b,
                ),
    )
}

/// A sorted, duplicate-free gram list holding exactly the grams of `t`.
pub open spec fn holds_gram_set(t: Seq<char>, depth: nat, gs: Seq<Seq<char>>) -> bool {
    &&& strictly_sorted_by(lex_lt_fn(), gs)
    &&& forall|g: Seq<char>| gs.contains(g) <==> gram_set(t, depth).contains(g)
}

/// Copies `v[from..to]` out as a fresh vector.
pub(crate) fn vec_sub(v: &Vec<char>, from: usize, to: usize) -> (r: Vec<char>)
    requires
        from <= to <= v@.len(),
    ensures
        r@ == v@.subrange(from as int, to as int),
{
    let mut r: Vec<char> = Vec::new();
    let mut i: usize = from;
    while i < to
        invariant
            from <= i <= to <= v@.len(),
            r@ == v@.subrange(from as int, i as int),
        decreases to - i,
    {
        r.push(v[i]);
        proof {
            assert(r@ =~= v@.subrange(from as int, i + 1));
        }
        i += 1;
    }
    r
}

/// Decides `lex_lt(a@, b@)` on two codepoint vectors.
pub(crate) fn lex_lt_vec(a: &Vec<char>, b: &Vec<char>) -> (r: bool)
    ensures
        r == lex_lt(a@, b@),
{
    let mut i: usize = 0;
    proof {
        assert(a@.skip(0) =~= a@);
        assert(b@.skip(0) =~= b@);
    }
    loop
        invariant
            i <= a@.len(),
            i <= b@.len(),
            lex_lt(a@, b@) == lex_lt(a@.skip(i as int), b@.skip(i as int)),
        decreases a@.len() - i,
    {
        let ghost sa = a@.skip(i as int);
        let ghost sb = b@.skip(i as int);
        if i == b.len() {
            proof {
                assert(sb.len() == 0);
            }
            return false;
        }
        if i == a.len() {
            proof {
                assert(sa.len() == 0 && sb.len() > 0);
            }
            return true;
        }
        let ca = a[i];
        let cb = b[i];
        proof {
            assert(sa[0] == a@[i as int]);
            assert(sb[0] == b@[i as int]);
        }
        if ca != cb {
            proof {
                assert(lex_lt(sa, sb) == ((ca as int) < (cb as int)));
            }
            return ca < cb;
        }
        proof {
            assert(sa.drop_first() =~= a@.skip(i + 1));
            assert(sb.drop_first() =~= b@.skip(i + 1));
        }
        i += 1;
    }
}

/// Decides whether two codepoint vectors hold the same sequence.
pub(crate) fn vec_chars_eq(a: &Vec<char>, b: &Vec<char>) -> (r: bool)
    ensures
        r == (a@ == b@),
{
    if a.len() != b.len() {
        return false;
    }
    let mut i: usize = 0;
    while i < a.len()
        invariant
            a@.len() == b@.len(),
            i <= a@.len(),
            forall|k: int| 0 <= k < i ==> a@[k] == b@[k],
        decreases a@.len() - i,
    {
        if a[i] != b[i] {
            return false;
        }
        i += 1;
    }
    proof {
        assert(a@ =~= b@);
    }
    true
}

/// Places `g` into the sorted gram list, keeping it sorted and free of
/// duplicates; a gram already present is left alone.
pub(crate) fn insert_gram_sorted(gs: &mut Vec<Vec<char>>, g: Vec<char>)
    requires
        strictly_sorted_by(lex_lt_fn(), gram_views(old(gs)@)),
    ensures
        strictly_sorted_by(lex_lt_fn(), gram_views(final(gs)@)),
        forall|x: Seq<char>|
            gram_views(final(gs)@).contains(x) <==> (gram_views(old(gs)@).contains(x) || x == g@),
        final(gs)@.len() >= old(gs)@.len(),
        final(gs)@.len() > 0,
{
    let ghost ovs = gram_views(gs@);
    let mut i: usize = 0;
    loop
        invariant
            i <= gs@.len(),
            gs@ == old(gs)@,
            forall|k: int| 0 <= k < i ==> lex_lt(#[trigger] gram_views(gs@)[k], g@),
        ensures
            i <= gs@.len(),
            gs@ == old(gs)@,
            forall|k: int| 0 <= k < i ==> lex_lt(#[trigger] gram_views(gs@)[k], g@),
            i < gs@.len() ==> !lex_lt(gram_views(gs@)[i as int], g@),
        decreases gs@.len() - i,
    {
        if i == gs.len() {
            break ;
        }
        if !lex_lt_vec(&gs[i], &g) {
            break ;
        }
        i += 1;
    }
    let present = if i < gs.len() {
        vec_chars_eq(&gs[i], &g)
    } else {
        false
    };
    if present {
        // Already present: the list covers g@ and nothing changes.
        proof {
            assert(gram_views(gs@)[i as int] == g@);
            assert(gram_views(gs@).contains(g@));
        }
        return ;
    }
    proof {
        lemma_lex_strict_total_order();
        if i < gs@.len() {
            // Not below g and not equal to it, so strictly above it.
            assert(gram_views(gs@)[i as int] == gs@[i as int]@);
            assert(gs@[i as int]@ != g@);
            assert(!lex_lt(gram_views(gs@)[i as int], g@));
            lemma_lex_connex(gram_views(gs@)[i as int], g@);
            assert(lex_lt(g@, gram_views(gs@)[i as int]));
        }
        assert forall|k: int| i <= k < gs@.len() implies lex_lt(
            g@,
            #[trigger] gram_views(gs@)[k],
        ) by {
            if k > i {
                lemma_sorted_at(lex_lt_fn(), gram_views(gs@), i as int, k);
                assert(lex_lt(gram_views(gs@)[i as int], gram_views(gs@)[k]));
                crate::order::lemma_lex_trans(
                    g@,
                    gram_views(gs@)[i as int],
                    gram_views(gs@)[k],
                );
            }
        }
    }
    gs.insert(i, g);
    proof {
        let nvs = gram_views(gs@);
        assert(gs@ == old(gs)@.insert(i as int, g));
        assert forall|k: int| 0 <= k < nvs.len() implies nvs[k] == (if k < i {
            ovs[k]
        } else if k == i {
            g@
        } else {
            ovs[k - 1]
        }) by {
            assert(nvs[k] == gs@[k]@);
        }
        assert(strictly_sorted_by(lex_lt_fn(), nvs)) by {
            assert forall|p: int, q: int| 0 <= p < q < nvs.len() implies lex_lt_fn()(
                nvs[p],
                nvs[q],
            ) by {
                if p < i && q < i {
                    lemma_sorted_at(lex_lt_fn(), ovs, p, q);
                } else if p < i && q == i {
                    assert(lex_lt(ovs[p], g@));
                } else if p < i && q > i {
                    lemma_sorted_at(lex_lt_fn(), ovs, p, q - 1);
                } else if p == i {
                    assert(lex_lt(g@, ovs[q - 1]));
                } else {
                    lemma_sorted_at(lex_lt_fn(), ovs, p - 1, q - 1);
                }
            }
        }
        assert forall|x: Seq<char>| nvs.contains(x) implies (ovs.contains(x) || x == g@) by {
            let k = choose|k: int| 0 <= k < nvs.len() && nvs[k] == x;
            if k < i {
                assert(ovs[k] == x);
            } else if k > i {
                assert(ovs[k - 1] == x);
            }
        }
        assert forall|x: Seq<char>| (ovs.contains(x) || x == g@) implies nvs.contains(x) by {
            if x == g@ {
                assert(nvs[i as int] == x);
            } else {
                let k = choose|k: int| 0 <= k < ovs.len() && ovs[k] == x;
                if k < i {
                    assert(nvs[k] == x);
                } else {
                    assert(nvs[k + 1] == x);
                }
            }
        }
    }
}

/// The grams already produced once generation has reached start position `i`,
/// with ends below `blim` for that start; starts below `i` are complete.
spec fn gram_set_before(t: Seq<char>, depth: nat, i: int, blim: int) -> Set<Seq<char>> {
    Set::new(
        |g: Seq<char>|
            exists|a: int, b: int|
                0 <= a && a + 2 <= b && b <= t.len() && b - a <= depth + 1 && (a < i || (a == i && b
                    < blim)) && g == t.subrange(a, b),
    )
}

/// Generates the grams of `s` at the given depth, as a sorted, duplicate-free
/// list of codepoint vectors.
pub(crate) fn grams_of(s: &str, depth: usize) -> (r: Vec<Vec<char>>)
    ensures
        holds_gram_set(nfd_fold(s@), depth as nat, gram_views(r@)),
{
    let norm: Vec<char> = nfd_fold_chars(s);
    let ghost t = norm@;
    let ghost d = depth as nat;
    let len: usize = norm.len();
    let mut gs: Vec<Vec<char>> = Vec::new();
    proof {
        assert forall|g: Seq<char>|
            gram_views(gs@).contains(g) <==> gram_set_before(t, d, 0, 0).contains(g) by {
            if gram_views(gs@).contains(g) {
                let k = choose|k: int| 0 <= k < gram_views(gs@).len() && gram_views(gs@)[k] == g;
            }
        }
    }
    let mut i: usize = 0;
    while i < len
        invariant
            t == nfd_fold(s@),
            norm@ == t,
            len == t.len(),
            d == depth as nat,
            i <= len,
            strictly_sorted_by(lex_lt_fn(), gram_views(gs@)),
            forall|g: Seq<char>|
                gram_views(gs@).contains(g) <==> gram_set_before(t, d, i as int, 0).contains(g),
        decreases len - i,
    {
        let bound: usize = if depth < len - i {
            depth
        } else {
            len - i
        };
        proof {
            assert forall|g: Seq<char>|
                #![trigger gram_set_before(t, d, i as int, 0).contains(g)]
                #![trigger gram_set_before(t, d, i as int, i + 2).contains(g)]
                gram_set_before(t, d, i as int, 0).contains(g) <==> gram_set_before(
                    t,
                    d,
                    i as int,
                    i + 2,
                ).contains(g) by {}
        }
        let mut j: usize = 0;
        while j < bound
            invariant
                t == nfd_fold(s@),
                norm@ == t,
                len == t.len(),
                d == depth as nat,
                i < len,
                bound == (if depth < len - i {
                    depth as int
                } else {
                    len - i
                }),
                j <= bound,
                strictly_sorted_by(lex_lt_fn(), gram_views(gs@)),
                forall|g: Seq<char>|
                    gram_views(gs@).contains(g) <==> gram_set_before(
                        t,
                        d,
                        i as int,
                        i + j + 2,
                    ).contains(g),
            decreases bound - j,
        {
            if len - i > j + 1 {
                let end: usize = i + j + 2;
                let sub = vec_sub(&norm, i, end);
                let ghost before = gram_views(gs@);
                insert_gram_sorted(&mut gs, sub);
                proof {
                    assert forall|g: Seq<char>|
                        gram_views(gs@).contains(g) <==> gram_set_before(
                            t,
                            d,
                            i as int,
                            i + j + 3,
                        ).contains(g) by {
                        if gram_views(gs@).contains(g) {
                            if g == sub@ {
                                assert(0 <= i as int && i + 2 <= end as int && end as int
                                    <= t.len() && end - i <= d + 1 && (i as int == i as int && end
                                    < i + j + 3) && g == t.subrange(i as int, end as int));
                            }
                        }
                        if gram_set_before(t, d, i as int, i + j + 3).contains(g) {
                            let (a, b) = choose|a: int, b: int|
                                0 <= a && a + 2 <= b && b <= t.len() && b - a <= d + 1 && (a
                                    < i as int || (a == i as int && b < i + j + 3)) && g
                                    == t.subrange(a, b);
                            if a == i as int && b == i + j + 2 {
                                assert(g == sub@);
                            } else {
                                assert(gram_set_before(t, d, i as int, i + j + 2).contains(g));
                            }
                        }
                    }
                }
            } else {
                proof {
                    assert forall|g: Seq<char>|
                        #![trigger gram_set_before(t, d, i as int, i + j + 2).contains(g)]
                        #![trigger gram_set_before(t, d, i as int, i + j + 3).contains(g)]
                        gram_set_before(t, d, i as int, i + j + 2).contains(g) <==> gram_set_before(
                            t,
                            d,
                            i as int,
                            i + j + 3,
                        ).contains(g) by {}
                }
            }
            j += 1;
        }
        proof {
            assert forall|g: Seq<char>|
                #![trigger gram_set_before(t, d, i as int, i + bound + 2).contains(g)]
                #![trigger gram_set_before(t, d, i + 1, 0).contains(g)]
                gram_set_before(t, d, i as int, i + bound + 2).contains(g) <==> gram_set_before(
                    t,
                    d,
                    i + 1,
                    0,
                ).contains(g) by {}
        }
        i += 1;
    }
    proof {
        assert forall|g: Seq<char>|
            #![trigger gram_set_before(t, d, len as int, 0).contains(g)]
            #![trigger gram_set(t, d).contains(g)]
            gram_set_before(t, d, len as int, 0).contains(g) <==> gram_set(t, d).contains(g) by {}
    }
    gs
}


/// Makes the set of codepoint n-grams of a string, to the given depth: every
/// contiguous run of 2 up to `depth + 1` codepoints of the normalized,
/// case-folded text, returned sorted and free of duplicates.
pub fn mkgrams(s: &str, depth: usize) -> (r: Vec<String>)
    ensures
        holds_gram_set(nfd_fold(s@), depth as nat, string_views(r@)),
{
    let gs = grams_of(s, depth);
    let mut out: Vec<String> = Vec::new();
    let mut i: usize = 0;
    while i < gs.len()
        invariant
            i <= gs@.len(),
            holds_gram_set(nfd_fold(s@), depth as nat, gram_views(gs@)),
            out@.len() == i,
            forall|k: int| 0 <= k < i ==> #[trigger] out@[k]@ == gs@[k]@,
        decreases gs@.len() - i,
    {
        let piece = string_of_chars(&gs[i]);
        out.push(piece);
        i += 1;
    }
    proof {
        assert forall|k: int| 0 <= k < out@.len() implies #[trigger] string_views(out@)[k]
            == gram_views(gs@)[k] by {
            assert(string_views(out@)[k] == out@[k]@);
            assert(gram_views(gs@)[k] == gs@[k]@);
        }
        assert(string_views(out@) =~= gram_views(gs@));
    }
    out
}

/// Law: gram generation is insensitive to prior normalization. Generating
/// grams from the reduced form of a text meets exactly the contract that
/// `mkgrams` gives for the text itself.
pub fn mkgrams_normalized(s: &str, depth: usize) -> (r: Vec<String>)
    ensures
        holds_gram_set(nfd_fold(s@), depth as nat, string_views(r@)),
{
    let n = normalize_case_fold(s);
    mkgrams(n.as_str(), depth)
}

/// The wrapped form of a text: the start marker, the text, the end marker.
pub open spec fn wrap_view(s: Seq<char>) -> Seq<char> {
    seq!['\u{2}'] + s + seq!['\u{3}']
}

/// Brackets a string with the reserved start and end control markers, so
/// that runs touching the true edges of the string are distinguishable from
/// the same run occurring in the middle of another.
pub fn bound_wrap(s: &str) -> (r: String)
    ensures
        r@ == wrap_view(s@),
{
    proof {
        reveal_strlit("\u{2}");
        reveal_strlit("\u{3}");
    }
    let mut r = String::from_str("\u{2}");
    r.append(s);
    r.append("\u{3}");
    proof {
        assert(r@ =~= wrap_view(s@));
    }
    r
}


/// Decides whether the gram list contains this gram.
pub(crate) fn contains_gram(qs: &Vec<Vec<char>>, g: &Vec<char>) -> (r: bool)
    ensures
        r == gram_views(qs@).contains(g@),
{
    let mut i: usize = 0;
    while i < qs.len()
        invariant
            i <= qs@.len(),
            forall|k: int| 0 <= k < i ==> #[trigger] gram_views(qs@)[k] != g@,
        decreases qs@.len() - i,
    {
        if vec_chars_eq(&qs[i], g) {
            proof {
                assert(gram_views(qs@)[i as int] == g@);
            }
            return true;
        }
        proof {
            assert(gram_views(qs@)[i as int] == qs@[i as int]@);
        }
        i += 1;
    }
    proof {
        if gram_views(qs@).contains(g@) {
            let k = choose|k: int| 0 <= k < gram_views(qs@).len() && gram_views(qs@)[k] == g@;
        }
    }
    false
}


/// A sorted, duplicate-free gram list for a text is unique: any two lists
/// meeting `holds_gram_set` for the same text and depth are equal. With this,
/// generating grams from a text and from its normal form gives equal lists.
pub proof fn lemma_gram_list_unique(t: Seq<char>, depth: nat, g1: Seq<Seq<char>>, g2: Seq<Seq<char>>)
    requires
        holds_gram_set(t, depth, g1),
        holds_gram_set(t, depth, g2),
    ensures
        g1 == g2,
{
    lemma_lex_strict_total_order();
    assert forall|x: Seq<char>| g1.contains(x) <==> g2.contains(x) by {
        assert(g1.contains(x) <==> gram_set(t, depth).contains(x));
        assert(g2.contains(x) <==> gram_set(t, depth).contains(x));
    }
    crate::order::lemma_strictly_sorted_unique(lex_lt_fn(), g1, g2);
}

} // verus!
