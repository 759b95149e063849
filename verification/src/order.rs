//! Strict orders on sequences, and the fact that a strictly sorted sequence
//! is determined by the set of its elements.

use vstd::prelude::*;

verus! {

/// Strict lexicographic order on codepoint sequences, by scalar value.
pub open spec fn lex_lt(a: Seq<char>, b: Seq<char>) -> bool
    decreases a.len(),
{
    if b.len() == 0 {
        false
    } else if a.len() == 0 {
        true
    } else if a[0] != b[0] {
        (a[0] as int) < (b[0] as int)
    } else {
        lex_lt(a.drop_first(), b.drop_first())
    }
}

/// `lt` is a strict total order: irreflexive, transitive, and any two
/// distinct values are ordered one way or the other.
pub open spec fn strict_total_order<A>(lt: spec_fn(A, A) -> bool) -> bool {
    &&& forall|a: A| !#[trigger] lt(a, a)
    &&& forall|a: A, b: A, c: A| #[trigger] lt(a, b) && #[trigger] lt(b, c) ==> lt(a, c)
    &&& forall|a: A, b: A| a != b ==> #[trigger] lt(a, b) || #[trigger] lt(b, a)
}

/// Every element of `s` is strictly below every later element.
pub open spec fn strictly_sorted_by<A>(lt: spec_fn(A, A) -> bool, s: Seq<A>) -> bool {
    forall|i: int, j: int| 0 <= i < j < s.len() ==> #[trigger] lt(s[i], s[j])
}

pub proof fn lemma_lex_irrefl(a: Seq<char>)
    ensures
        !lex_lt(a, a),
    decreases a.len(),
{
    if a.len() > 0 {
        lemma_lex_irrefl(a.drop_first());
    }
}

pub proof fn lemma_lex_trans(a: Seq<char>, b: Seq<char>, c: Seq<char>)
    requires
        lex_lt(a, b),
        lex_lt(b, c),
    ensures
        lex_lt(a, c),
    decreases a.len() + b.len() + c.len(),
{
    if c.len() == 0 || a.len() == 0 {
    } else if b.len() == 0 {
    } else {
        if a[0] == b[0] && b[0] == c[0] {
            lemma_lex_trans(a.drop_first(), b.drop_first(), c.drop_first());
        }
    }
}

pub proof fn lemma_lex_connex(a: Seq<char>, b: Seq<char>)
    ensures
        a == b || lex_lt(a, b) || lex_lt(b, a),
    decreases a.len(),
{
    if a.len() == 0 && b.len() == 0 {
        assert(a =~= b);
    } else if a.len() > 0 && b.len() > 0 {
        if a[0] == b[0] {
            lemma_lex_connex(a.drop_first(), b.drop_first());
            if a.drop_first() == b.drop_first() {
                assert(a.drop_first().len() == b.drop_first().len());
                assert(a.len() == b.len());
                assert forall|i: int| 0 <= i < a.len() implies a[i] == b[i] by {
                    if i > 0 {
                        assert(a[i] == a.drop_first()[i - 1]);
                        assert(b[i] == b.drop_first()[i - 1]);
                    }
                }
                assert(a =~= b);
            }
        } else {
            assert((a[0] as int) != (b[0] as int));
        }
    }
}

/// `lex_lt` is a strict total order on codepoint sequences.
pub proof fn lemma_lex_strict_total_order()
    ensures
        strict_total_order(|a: Seq<char>, b: Seq<char>| lex_lt(a, b)),
{
    let lt = |a: Seq<char>, b: Seq<char>| lex_lt(a, b);
    assert forall|a: Seq<char>| !#[trigger] lt(a, a) by {
        lemma_lex_irrefl(a);
    }
    assert forall|a: Seq<char>, b: Seq<char>, c: Seq<char>|
        #[trigger] lt(a, b) && #[trigger] lt(b, c) implies lt(a, c) by {
        lemma_lex_trans(a, b, c);
    }
    assert forall|a: Seq<char>, b: Seq<char>| a != b implies #[trigger] lt(a, b) || #[trigger] lt(
        b,
        a,
    ) by {
        lemma_lex_connex(a, b);
    }
}

/// Two sequences strictly sorted by one total order and containing the same
/// elements are the same sequence.
pub proof fn lemma_strictly_sorted_unique<A>(lt: spec_fn(A, A) -> bool, s1: Seq<A>, s2: Seq<A>)
    requires
        strict_total_order(lt),
        strictly_sorted_by(lt, s1),
        strictly_sorted_by(lt, s2),
        forall|x: A| s1.contains(x) <==> s2.contains(x),
    ensures
        s1 == s2,
    decreases s1.len(),
{
    if s1.len() == 0 {
        if s2.len() > 0 {
            assert(s2.contains(s2[0]));
        }
        assert(s1 =~= s2);
    } else {
        assert(s1.contains(s1[0]));
        assert(s2.contains(s2[0]));
        let i = choose|i: int| 0 <= i < s2.len() && s2[i] == s1[0];
        let j = choose|j: int| 0 <= j < s1.len() && s1[j] == s2[0];
        if i > 0 {
            // s2[0] sits strictly below s1[0]; but s2[0] appears in s1 at j,
            // where it sits at or above s1[0], a contradiction.
            assert(lt(s2[0], s1[0]));
            if j > 0 {
                assert(lt(s1[0], s1[j]));
            }
        }
        assert(s1[0] == s2[0]);
        let t1 = s1.drop_first();
        let t2 = s2.drop_first();
        assert forall|x: A| t1.contains(x) implies t2.contains(x) by {
            let k = choose|k: int| 0 <= k < t1.len() && t1[k] == x;
            assert(s1[k + 1] == x);
            assert(s1.contains(x));
            let m = choose|m: int| 0 <= m < s2.len() && s2[m] == x;
            assert(lt(s1[0], s1[k + 1]));
            if m == 0 {
                assert(lt(s1[0], s1[0]));
            }
            assert(t2[m - 1] == x);
        }
        assert forall|x: A| t2.contains(x) implies t1.contains(x) by {
            let k = choose|k: int| 0 <= k < t2.len() && t2[k] == x;
            assert(s2[k + 1] == x);
            assert(s2.contains(x));
            let m = choose|m: int| 0 <= m < s1.len() && s1[m] == x;
            assert(lt(s2[0], s2[k + 1]));
            if m == 0 {
                assert(lt(s2[0], s2[0]));
            }
            assert(t1[m - 1] == x);
        }
        assert(strictly_sorted_by(lt, t1)) by {
            assert forall|i: int, j: int| 0 <= i < j < t1.len() implies #[trigger] lt(
                t1[i],
                t1[j],
            ) by {
                assert(lt(s1[i + 1], s1[j + 1]));
            }
        }
        assert(strictly_sorted_by(lt, t2)) by {
            assert forall|i: int, j: int| 0 <= i < j < t2.len() implies #[trigger] lt(
                t2[i],
                t2[j],
            ) by {
                assert(lt(s2[i + 1], s2[j + 1]));
            }
        }
        lemma_strictly_sorted_unique(lt, t1, t2);
        assert forall|i: int| 0 <= i < s1.len() implies s1[i] == s2[i] by {
            if i > 0 {
                assert(t1[i - 1] == t2[i - 1]);
            }
        }
        assert(s1 =~= s2);
    }
}

/// Draws the ordering of two positions out of a sorted sequence.
pub proof fn lemma_sorted_at<A>(lt: spec_fn(A, A) -> bool, s: Seq<A>, i: int, j: int)
    requires
        strictly_sorted_by(lt, s),
        0 <= i < j < s.len(),
    ensures
        lt(s[i], s[j]),
{
}

/// A strictly sorted sequence has no repeated elements.
pub proof fn lemma_strictly_sorted_no_duplicates<A>(lt: spec_fn(A, A) -> bool, s: Seq<A>)
    requires
        strict_total_order(lt),
        strictly_sorted_by(lt, s),
    ensures
        s.no_duplicates(),
{
    assert forall|i: int, j: int| 0 <= i < s.len() && 0 <= j < s.len() && i != j implies s[i]
        != s[j] by {
        if i < j {
            assert(lt(s[i], s[j]));
            if s[i] == s[j] {
                assert(lt(s[i], s[i]));
            }
        } else {
            assert(lt(s[j], s[i]));
            if s[i] == s[j] {
                assert(lt(s[j], s[j]));
            }
        }
    }
}

} // verus!
