//! The capability a key type must offer: cheap duplication, equality, and a
//! total order used as the deterministic tie-break when ranking results.
//!
//! Keys are reasoned about through their views (`u32` is its own view, the
//! view of `&str` is its codepoint sequence), so two keys that compare equal
//! at run time are the same key to the specification.

use vstd::prelude::*;
use vstd::string::StrSliceExecFns;

use crate::order::{lex_lt, strict_total_order, strictly_sorted_by};
use crate::order::{lemma_lex_connex, lemma_lex_irrefl, lemma_lex_trans, lemma_sorted_at};

verus! {

/// A key of the index: duplicable by copy, comparable for equality, and
/// carrying a strict total order on its views.
pub trait IndexKey: View + Copy + Sized {
    /// The strict total order on key views that ranking ties are broken by.
    spec fn key_lt(a: Self::V, b: Self::V) -> bool;

    /// `key_lt` is irreflexive, transitive, and orders any two distinct views.
    proof fn lemma_key_order(a: Self::V, b: Self::V, c: Self::V)
        ensures
            !Self::key_lt(a, a),
            Self::key_lt(a, b) && Self::key_lt(b, c) ==> Self::key_lt(a, c),
            a != b ==> Self::key_lt(a, b) || Self::key_lt(b, a),
    ;

    /// Decides `key_lt` or view equality.
    fn key_le(self, other: Self) -> (r: bool)
        ensures
            r == (Self::key_lt(self@, other@) || self@ == other@),
    ;

    /// Decides view equality.
    fn key_eq(self, other: Self) -> (r: bool)
        ensures
            r == (self@ == other@),
    ;
}

/// The views of a sequence of keys.
pub open spec fn key_views<T: IndexKey>(s: Seq<T>) -> Seq<T::V> {
    s.map_values(|k: T| k@)
}

/// `T::key_lt` packaged as a closed-over order for the sorting lemmas.
pub open spec fn key_lt_fn<T: IndexKey>() -> spec_fn(T::V, T::V) -> bool {
    |a: T::V, b: T::V| T::key_lt(a, b)
}

pub proof fn lemma_key_strict_total_order<T: IndexKey>()
    ensures
        strict_total_order(key_lt_fn::<T>()),
{
    let lt = key_lt_fn::<T>();
    assert forall|a: T::V| !#[trigger] lt(a, a) by {
        T::lemma_key_order(a, a, a);
    }
    assert forall|a: T::V, b: T::V, c: T::V|
        #[trigger] lt(a, b) && #[trigger] lt(b, c) implies lt(a, c) by {
        T::lemma_key_order(a, b, c);
    }
    assert forall|a: T::V, b: T::V| a != b implies #[trigger] lt(a, b) || #[trigger] lt(b, a) by {
        T::lemma_key_order(a, b, a);
    }
}

impl IndexKey for u32 {
    open spec fn key_lt(a: u32, b: u32) -> bool {
        a < b
    }

    proof fn lemma_key_order(a: u32, b: u32, c: u32) {
    }

    fn key_le(self, other: Self) -> (r: bool) {
        self <= other
    }

    fn key_eq(self, other: Self) -> (r: bool) {
        self == other
    }
}

impl IndexKey for u64 {
    open spec fn key_lt(a: u64, b: u64) -> bool {
        a < b
    }

    proof fn lemma_key_order(a: u64, b: u64, c: u64) {
    }

    fn key_le(self, other: Self) -> (r: bool) {
        self <= other
    }

    fn key_eq(self, other: Self) -> (r: bool) {
        self == other
    }
}

impl IndexKey for usize {
    open spec fn key_lt(a: usize, b: usize) -> bool {
        a < b
    }

    proof fn lemma_key_order(a: usize, b: usize, c: usize) {
    }

    fn key_le(self, other: Self) -> (r: bool) {
        self <= other
    }

    fn key_eq(self, other: Self) -> (r: bool) {
        self == other
    }
}

impl IndexKey for i32 {
    open spec fn key_lt(a: i32, b: i32) -> bool {
        a < b
    }

    proof fn lemma_key_order(a: i32, b: i32, c: i32) {
    }

    fn key_le(self, other: Self) -> (r: bool) {
        self <= other
    }

    fn key_eq(self, other: Self) -> (r: bool) {
        self == other
    }
}

impl IndexKey for i64 {
    open spec fn key_lt(a: i64, b: i64) -> bool {
        a < b
    }

    proof fn lemma_key_order(a: i64, b: i64, c: i64) {
    }

    fn key_le(self, other: Self) -> (r: bool) {
        self <= other
    }

    fn key_eq(self, other: Self) -> (r: bool) {
        self == other
    }
}

impl<'a> IndexKey for &'a str {
    open spec fn key_lt(a: Seq<char>, b: Seq<char>) -> bool {
        lex_lt(a, b)
    }

    proof fn lemma_key_order(a: Seq<char>, b: Seq<char>, c: Seq<char>) {
        lemma_lex_irrefl(a);
        if lex_lt(a, b) && lex_lt(b, c) {
            lemma_lex_trans(a, b, c);
        }
        lemma_lex_connex(a, b);
    }

    fn key_le(self, other: Self) -> (r: bool) {
        str_lex_le(self, other)
    }

    fn key_eq(self, other: Self) -> (r: bool) {
        str_chars_eq(self, other)
    }
}

/// Decides whether two strings hold the same codepoint sequence.
fn str_chars_eq(a: &str, b: &str) -> (r: bool)
    ensures
        r == (a@ == b@),
{
    let alen = a.unicode_len();
    let blen = b.unicode_len();
    if alen != blen {
        return false;
    }
    let mut i: usize = 0;
    while i < alen
        invariant
            alen == a@.len(),
            blen == b@.len(),
            alen == blen,
            i <= alen,
            forall|k: int| 0 <= k < i ==> a@[k] == b@[k],
        decreases alen - i,
    {
        if a.get_char(i) != b.get_char(i) {
            return false;
        }
        i += 1;
    }
    proof {
        assert(a@ =~= b@);
    }
    true
}

/// Decides `lex_lt(a@, b@) || a@ == b@` by walking the two strings together.
fn str_lex_le(a: &str, b: &str) -> (r: bool)
    ensures
        r == (lex_lt(a@, b@) || a@ == b@),
{
    let alen = a.unicode_len();
    let blen = b.unicode_len();
    let mut i: usize = 0;
    proof {
        assert(a@.skip(0) =~= a@);
        assert(b@.skip(0) =~= b@);
    }
    loop
        invariant
            i <= alen,
            i <= blen,
            alen == a@.len(),
            blen == b@.len(),
            lex_lt(a@, b@) == lex_lt(a@.skip(i as int), b@.skip(i as int)),
            (a@ == b@) == (a@.skip(i as int) == b@.skip(i as int)),
        decreases alen - i,
    {
        let ghost sa = a@.skip(i as int);
        let ghost sb = b@.skip(i as int);
        if i == blen {
            proof {
                assert(sb.len() == 0);
                assert(!lex_lt(sa, sb));
                if i == alen {
                    assert(sa =~= sb);
                } else {
                    assert(sa.len() != sb.len());
                }
            }
            return i == alen;
        }
        if i == alen {
            proof {
                assert(sa.len() == 0 && sb.len() > 0);
                assert(lex_lt(sa, sb));
            }
            return true;
        }
        let ca = a.get_char(i);
        let cb = b.get_char(i);
        proof {
            assert(sa[0] == a@[i as int]);
            assert(sb[0] == b@[i as int]);
        }
        if ca != cb {
            proof {
                assert(sa.len() > 0 && sb.len() > 0 && sa[0] != sb[0]);
                assert(lex_lt(sa, sb) == ((ca as int) < (cb as int)));
                assert(sa != sb);
            }
            return ca < cb;
        }
        proof {
            assert(sa.drop_first() =~= a@.skip(i + 1));
            assert(sb.drop_first() =~= b@.skip(i + 1));
            assert(lex_lt(sa, sb) == lex_lt(sa.drop_first(), sb.drop_first()));
            if sa.drop_first() == sb.drop_first() {
                assert forall|k: int| 0 <= k < sa.len() implies sa[k] == sb[k] by {
                    if k > 0 {
                        assert(sa[k] == sa.drop_first()[k - 1]);
                        assert(sb[k] == sb.drop_first()[k - 1]);
                    }
                }
                assert(sa =~= sb);
            }
        }
        i += 1;
    }
}


/// Places `key` into a sorted key list, keeping it sorted and free of
/// duplicate views; a key already present is left alone.
pub(crate) fn insert_key_sorted<T: IndexKey>(keys: &mut Vec<T>, key: T)
    requires
        strictly_sorted_by(key_lt_fn::<T>(), key_views(old(keys)@)),
    ensures
        strictly_sorted_by(key_lt_fn::<T>(), key_views(final(keys)@)),
        forall|x: T::V|
            #[trigger] key_views(final(keys)@).contains(x) <==> (key_views(
                old(keys)@,
            ).contains(x) || x == key@),
        final(keys)@.len() >= old(keys)@.len(),
        final(keys)@.len() > 0,
{
    let ghost ovs = key_views(keys@);
    let mut i: usize = 0;
    loop
        invariant
            i <= keys@.len(),
            keys@ == old(keys)@,
            forall|k: int| 0 <= k < i ==> T::key_lt(#[trigger] key_views(keys@)[k], key@),
        ensures
            i <= keys@.len(),
            keys@ == old(keys)@,
            forall|k: int| 0 <= k < i ==> T::key_lt(#[trigger] key_views(keys@)[k], key@),
            i < keys@.len() ==> !T::key_lt(key_views(keys@)[i as int], key@),
        decreases keys@.len() - i,
    {
        if i == keys.len() {
            break ;
        }
        let cur = keys[i];
        proof {
            assert(key_views(keys@)[i as int] == cur@);
            T::lemma_key_order(cur@, key@, cur@);
        }
        if !(cur.key_le(key) && !cur.key_eq(key)) {
            break ;
        }
        i += 1;
    }
    let present = if i < keys.len() {
        keys[i].key_eq(key)
    } else {
        false
    };
    if present {
        proof {
            assert(key_views(keys@)[i as int] == key@);
            assert(key_views(keys@).contains(key@));
        }
        return ;
    }
    proof {
        lemma_key_strict_total_order::<T>();
        if i < keys@.len() {
            // Not below the new key and not equal to it, so above it.
            assert(key_views(keys@)[i as int] == keys@[i as int]@);
            assert(key_views(keys@)[i as int] != key@);
            T::lemma_key_order(key@, key_views(keys@)[i as int], key@);
            assert(T::key_lt(key@, key_views(keys@)[i as int]));
        }
        assert forall|k: int| i <= k < keys@.len() implies T::key_lt(
            key@,
            #[trigger] key_views(keys@)[k],
        ) by {
            if k > i {
                lemma_sorted_at(key_lt_fn::<T>(), key_views(keys@), i as int, k);
                assert(T::key_lt(key_views(keys@)[i as int], key_views(keys@)[k]));
                T::lemma_key_order(key@, key_views(keys@)[i as int], key_views(keys@)[k]);
            }
        }
    }
    keys.insert(i, key);
    proof {
        let nvs = key_views(keys@);
        assert(keys@ == old(keys)@.insert(i as int, key));
        assert forall|k: int| 0 <= k < nvs.len() implies nvs[k] == (if k < i {
            ovs[k]
        } else if k == i {
            key@
        } else {
            ovs[k - 1]
        }) by {
            assert(nvs[k] == keys@[k]@);
        }
        assert(strictly_sorted_by(key_lt_fn::<T>(), nvs)) by {
            assert forall|a: int, b: int| 0 <= a < b < nvs.len() implies key_lt_fn::<T>()(
                nvs[a],
                nvs[b],
            ) by {
                if a < i && b < i {
                    lemma_sorted_at(key_lt_fn::<T>(), ovs, a, b);
                } else if a < i && b == i {
                    assert(T::key_lt(ovs[a], key@));
                } else if a < i && b > i {
                    lemma_sorted_at(key_lt_fn::<T>(), ovs, a, b - 1);
                } else if a == i {
                    assert(T::key_lt(key@, ovs[b - 1]));
                } else {
                    lemma_sorted_at(key_lt_fn::<T>(), ovs, a - 1, b - 1);
                }
            }
        }
        assert forall|x: T::V| #[trigger] nvs.contains(x) implies (ovs.contains(x) || x
            == key@) by {
            let k = choose|k: int| 0 <= k < nvs.len() && nvs[k] == x;
            if k < i {
                assert(ovs[k] == x);
            } else if k > i {
                assert(ovs[k - 1] == x);
            }
        }
        assert forall|x: T::V| (ovs.contains(x) || x == key@) implies #[trigger] nvs.contains(
            x,
        ) by {
            if x == key@ {
                assert(nvs[i as int] == x);
            } else {
                let k = choose|k: int| 0 <= k < ovs.len() && ovs[k] == x;
                if k < i {
                    assert(nvs[k] == x);
                } else {
                    assert(nvs[k + 1] == x);
                }
            }
        }
    }
}

} // verus!
