//! Lexicographic order on byte strings.
//!
//! Agent addresses are plain byte strings. The snapshot message must list
//! them in one stable, deterministic order, and the tracker keeps its sets as
//! strictly sorted vectors, so the order is fixed here once: byte-wise
//! lexicographic, shorter prefixes first.

use vstd::prelude::*;

verus! {

/// `a` comes strictly before `b` in byte-wise lexicographic order.
pub open spec fn lex_lt(a: Seq<u8>, b: Seq<u8>) -> bool
    decreases a.len(),
{
    if b.len() == 0 {
        false
    } else if a.len() == 0 {
        true
    } else if a[0] < b[0] {
        true
    } else if a[0] > b[0] {
        false
    } else {
        lex_lt(a.drop_first(), b.drop_first())
    }
}

/// The order is irreflexive.
pub proof fn lemma_lex_irreflexive(a: Seq<u8>)
    ensures
        !lex_lt(a, a),
    decreases a.len(),
{
    if a.len() > 0 {
        lemma_lex_irreflexive(a.drop_first());
    }
}

/// At most one of `lex_lt(a, b)` and `lex_lt(b, a)` holds.
pub proof fn lemma_lex_asymmetric(a: Seq<u8>, b: Seq<u8>)
    requires
        lex_lt(a, b),
    ensures
        !lex_lt(b, a),
    decreases a.len(),
{
    if a.len() > 0 && b.len() > 0 && a[0] == b[0] {
        lemma_lex_asymmetric(a.drop_first(), b.drop_first());
    }
}

/// The order is transitive.
pub proof fn lemma_lex_transitive(a: Seq<u8>, b: Seq<u8>, c: Seq<u8>)
    requires
        lex_lt(a, b),
        lex_lt(b, c),
    ensures
        lex_lt(a, c),
    decreases a.len(),
{
    if a.len() > 0 && b.len() > 0 && c.len() > 0 && a[0] == b[0] && b[0] == c[0] {
        lemma_lex_transitive(a.drop_first(), b.drop_first(), c.drop_first());
    }
}

/// The order is total: two byte strings are equal or strictly ordered.
pub proof fn lemma_lex_trichotomy(a: Seq<u8>, b: Seq<u8>)
    ensures
        lex_lt(a, b) || lex_lt(b, a) || a == b,
    decreases a.len(),
{
    if !lex_lt(a, b) && !lex_lt(b, a) {
        if a.len() == 0 {
            assert(b.len() == 0);
            assert(a =~= b);
        } else {
            assert(b.len() > 0);
            assert(a[0] == b[0]);
            lemma_lex_trichotomy(a.drop_first(), b.drop_first());
            assert(a.drop_first() =~= b.drop_first());
            assert(a =~= b) by {
                assert(forall|i: int| 1 <= i < a.len() ==> a[i] == a.drop_first()[i - 1]);
            }
        }
    }
}

/// The byte strings a vector of byte vectors holds, element for element.
pub open spec fn views_of(items: Seq<Vec<u8>>) -> Seq<Seq<u8>> {
    items.map_values(|v: Vec<u8>| v@)
}

/// Strictly ascending in the lexicographic order; such a sequence holds no
/// byte string twice.
pub open spec fn sorted_strict(s: Seq<Seq<u8>>) -> bool {
    forall|i: int, j: int| 0 <= i < j < s.len() ==> lex_lt(s[i], s[j])
}

/// Inserting a byte string at the position that splits smaller from larger
/// elements keeps the sequence strictly sorted, and adds exactly that byte
/// string to the set the sequence holds.
pub proof fn lemma_insert_sorted(s: Seq<Seq<u8>>, i: int, x: Seq<u8>)
    requires
        sorted_strict(s),
        0 <= i <= s.len(),
        forall|j: int| 0 <= j < i ==> lex_lt(s[j], x),
        forall|j: int| i <= j < s.len() ==> lex_lt(x, s[j]),
    ensures
        sorted_strict(s.insert(i, x)),
        s.insert(i, x).to_set() == s.to_set().insert(x),
{
    let t = s.insert(i, x);
    assert(t.len() == s.len() + 1);
    assert(forall|k: int| 0 <= k < i ==> t[k] == s[k]);
    assert(t[i] == x);
    assert(forall|k: int| i < k < t.len() ==> t[k] == s[k - 1]);
    assert forall|p: int, q: int| 0 <= p < q < t.len() implies lex_lt(t[p], t[q]) by {
        if p < i && q < i {
        } else if p < i && q == i {
        } else if p < i && q > i {
            if i <= q - 1 < s.len() {
                lemma_lex_transitive(s[p], x, s[q - 1]);
            }
        } else if p == i && q > i {
        } else {
        }
    }
    assert forall|y: Seq<u8>| t.to_set().contains(y) implies s.to_set().insert(x).contains(y) by {
        let k = choose|k: int| 0 <= k < t.len() && t[k] == y;
        if k < i {
            assert(s[k] == y);
        } else if k > i {
            assert(s[k - 1] == y);
        }
    }
    assert forall|y: Seq<u8>| s.to_set().insert(x).contains(y) implies t.to_set().contains(y) by {
        if y == x {
            assert(t[i] == y);
        } else {
            let k = choose|k: int| 0 <= k < s.len() && s[k] == y;
            if k < i {
                assert(t[k] == y);
            } else {
                assert(t[k + 1] == y);
            }
        }
    }
    assert(t.to_set() =~= s.to_set().insert(x));
}

/// The first element of a strictly sorted, non-empty sequence does not recur
/// in its tail; dropping it removes exactly that element from the set, and
/// the tail stays strictly sorted.
pub proof fn lemma_sorted_tail(s: Seq<Seq<u8>>)
    requires
        sorted_strict(s),
        s.len() > 0,
    ensures
        sorted_strict(s.drop_first()),
        !s.drop_first().contains(s[0]),
        s.drop_first().to_set() == s.to_set().remove(s[0]),
{
    let t = s.drop_first();
    assert(forall|k: int| 0 <= k < t.len() ==> t[k] == s[k + 1]);
    if t.contains(s[0]) {
        let k = choose|k: int| 0 <= k < t.len() && t[k] == s[0];
        assert(lex_lt(s[0], s[k + 1]));
        lemma_lex_irreflexive(s[0]);
    }
    assert forall|y: Seq<u8>| t.to_set().contains(y) implies s.to_set().remove(s[0]).contains(y) by {
        let k = choose|k: int| 0 <= k < t.len() && t[k] == y;
        assert(s[k + 1] == y);
    }
    assert forall|y: Seq<u8>| s.to_set().remove(s[0]).contains(y) implies t.to_set().contains(y) by {
        let k = choose|k: int| 0 <= k < s.len() && s[k] == y;
        assert(k != 0);
        assert(t[k - 1] == y);
    }
    assert(t.to_set() =~= s.to_set().remove(s[0]));
}

/// A set of byte strings has exactly one strictly sorted listing: two
/// strictly sorted sequences holding the same set are the same sequence.
pub proof fn lemma_sorted_unique_representation(s1: Seq<Seq<u8>>, s2: Seq<Seq<u8>>)
    requires
        sorted_strict(s1),
        sorted_strict(s2),
        s1.to_set() == s2.to_set(),
    ensures
        s1 == s2,
    decreases s1.len(),
{
    if s1.len() == 0 {
        if s2.len() > 0 {
            assert(s2.contains(s2[0]));
            assert(s1.to_set().contains(s2[0]));
            assert(false);
        }
        assert(s1 =~= s2);
    } else if s2.len() == 0 {
        assert(s1.contains(s1[0]));
        assert(s2.to_set().contains(s1[0]));
        assert(false);
    } else {
        assert(s1.contains(s1[0]));
        assert(s2.to_set().contains(s1[0]));
        let j = choose|j: int| 0 <= j < s2.len() && s2[j] == s1[0];
        if j > 0 {
            assert(lex_lt(s2[0], s2[j]));
        }
        assert(s2.contains(s2[0]));
        assert(s1.to_set().contains(s2[0]));
        let i = choose|i: int| 0 <= i < s1.len() && s1[i] == s2[0];
        if i > 0 {
            assert(lex_lt(s1[0], s1[i]));
        }
        if s1[0] != s2[0] {
            assert(lex_lt(s2[0], s1[0]));
            assert(lex_lt(s1[0], s2[0]));
            lemma_lex_asymmetric(s1[0], s2[0]);
        }
        lemma_sorted_tail(s1);
        lemma_sorted_tail(s2);
        assert(s1.drop_first().to_set() =~= s2.drop_first().to_set());
        lemma_sorted_unique_representation(s1.drop_first(), s2.drop_first());
        assert(forall|k: int| 1 <= k < s1.len() ==> s1[k] == s1.drop_first()[k - 1]);
        assert(forall|k: int| 1 <= k < s2.len() ==> s2[k] == s2.drop_first()[k - 1]);
        assert(s1 =~= s2);
    }
}

/// Decides `lex_lt(a@, b@)` for two byte vectors.
pub fn lex_lt_bytes(a: &Vec<u8>, b: &Vec<u8>) -> (r: bool)
    ensures
        r == lex_lt(a@, b@),
{
    let mut i: usize = 0;
    proof {
        assert(a@.skip(0) =~= a@);
        assert(b@.skip(0) =~= b@);
    }
    loop
        invariant
            i <= a.len(),
            i <= b.len(),
            lex_lt(a@, b@) == lex_lt(a@.skip(i as int), b@.skip(i as int)),
        decreases a.len() - i,
    {
        if i == b.len() {
            return false;
        }
        if i == a.len() {
            return true;
        }
        let x = a[i];
        let y = b[i];
        if x < y {
            return true;
        }
        if x > y {
            return false;
        }
        proof {
            assert(a@.skip(i as int).drop_first() =~= a@.skip(i + 1));
            assert(b@.skip(i as int).drop_first() =~= b@.skip(i + 1));
        }
        i = i + 1;
    }
}

} // verus!
