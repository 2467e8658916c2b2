//! Strict total orders, lexicographic orders built from them, and the
//! ascending enumeration of a finite set of keys.
use vstd::prelude::*;
use vstd::relations::*;
use vstd::multiset::Multiset;

verus! {

/// `lt` is irreflexive, transitive and relates any two distinct values one way or the other.
pub open spec fn strict_total<T>(lt: spec_fn(T, T) -> bool) -> bool {
    &&& forall|x: T| !#[trigger] lt(x, x)
    &&& forall|x: T, y: T, z: T| #[trigger] lt(x, y) && #[trigger] lt(y, z) ==> lt(x, z)
    &&& forall|x: T, y: T| x != y ==> #[trigger] lt(x, y) || #[trigger] lt(y, x)
}

/// The reflexive closure of a strict order.
pub open spec fn le_of<T>(lt: spec_fn(T, T) -> bool) -> spec_fn(T, T) -> bool {
    |x: T, y: T| x == y || lt(x, y)
}

/// Every element is strictly below every later element.
pub open spec fn strictly_sorted<T>(s: Seq<T>, lt: spec_fn(T, T) -> bool) -> bool {
    forall|i: int, j: int| 0 <= i < j < s.len() ==> #[trigger] lt(s[i], s[j])
}

/// The elements of the finite set `s`, each once, in ascending order.
pub open spec fn ascending<T>(s: Set<T>, lt: spec_fn(T, T) -> bool) -> Seq<T> {
    s.to_sorted_seq(le_of(lt))
}

/// Lexicographic order on sequences, from an order on their elements.
/// A proper prefix comes before the longer sequence.
pub open spec fn lex<T>(a: Seq<T>, b: Seq<T>, lt: spec_fn(T, T) -> bool) -> bool
    decreases a.len(),
{
    if a.len() == 0 {
        b.len() > 0
    } else if b.len() == 0 {
        false
    } else if a[0] == b[0] {
        lex(a.drop_first(), b.drop_first(), lt)
    } else {
        lt(a[0], b[0])
    }
}

pub proof fn lemma_le_total<T>(lt: spec_fn(T, T) -> bool)
    requires
        strict_total(lt),
    ensures
        total_ordering(le_of(lt)),
{
    let le = le_of(lt);
    assert forall|x: T, y: T| #[trigger] le(x, y) && #[trigger] le(y, x) implies x == y by {
        if x != y {
            assert(lt(x, y) && lt(y, x));
            assert(lt(x, x));
        }
    }
    assert forall|x: T, y: T, z: T| #[trigger] le(x, y) && #[trigger] le(y, z) implies le(x, z) by {
        if x != y && y != z {
            assert(lt(x, y) && lt(y, z));
        }
    }
    assert forall|x: T, y: T| #[trigger] le(x, y) || #[trigger] le(y, x) by {
        if x != y {
            assert(lt(x, y) || lt(y, x));
        }
    }
}

pub proof fn lemma_set_to_seq_no_dup<T>(s: Set<T>)
    requires
        s.finite(),
    ensures
        s.to_seq().no_duplicates(),
        s.to_seq().to_set() == s,
    decreases s.len(),
{
    s.lemma_to_seq_to_set_id();
    if s.len() != 0 {
        let x = s.choose();
        let r = s.remove(x);
        lemma_set_to_seq_no_dup(r);
        let q = Seq::<T>::empty().push(x) + r.to_seq();
        assert(s.to_seq() == q);
        assert forall|i: int, j: int| 0 <= i < q.len() && 0 <= j < q.len() && i != j implies q[i]
            != q[j] by {
            if i == 0 {
                assert(r.to_seq().contains(q[j]));
            } else if j == 0 {
                assert(r.to_seq().contains(q[i]));
            } else {
                assert(q[i] == r.to_seq()[i - 1]);
                assert(q[j] == r.to_seq()[j - 1]);
            }
        }
    }
}

proof fn lemma_no_dup_same_set_multiset<T>(a: Seq<T>, b: Seq<T>)
    requires
        a.no_duplicates(),
        b.no_duplicates(),
        a.to_set() == b.to_set(),
    ensures
        a.to_multiset() == b.to_multiset(),
{
    broadcast use vstd::multiset::group_multiset_axioms;
    broadcast use vstd::seq_lib::group_to_multiset_ensures;

    a.lemma_multiset_has_no_duplicates();
    b.lemma_multiset_has_no_duplicates();
    assert forall|x: T| a.to_multiset().count(x) == b.to_multiset().count(x) by {
        if a.contains(x) {
            assert(a.to_set().contains(x));
            assert(b.contains(x));
        } else {
            assert(!a.to_set().contains(x));
            assert(!b.contains(x));
        }
    }
    assert(a.to_multiset() =~= b.to_multiset());
}

/// A strictly sorted sequence is the ascending enumeration of its elements.
pub proof fn lemma_ascending_unique<T>(s: Seq<T>, lt: spec_fn(T, T) -> bool)
    requires
        strict_total(lt),
        strictly_sorted(s, lt),
    ensures
        s == ascending(s.to_set(), lt),
        s.no_duplicates(),
{
    let le = le_of(lt);
    let set = s.to_set();
    lemma_le_total(lt);
    assert(s.no_duplicates()) by {
        assert forall|i: int, j: int| 0 <= i < s.len() && 0 <= j < s.len() && i != j implies s[i]
            != s[j] by {
            if i < j {
                assert(lt(s[i], s[j]));
            } else {
                assert(lt(s[j], s[i]));
            }
        }
    }
    vstd::seq_lib::seq_to_set_is_finite(s);
    lemma_set_to_seq_no_dup(set);
    let t = set.to_seq();
    t.lemma_sort_by_ensures(le);
    let srt = t.sort_by(le);
    lemma_no_dup_same_set_multiset(s, t);
    assert(sorted_by(s, le)) by {
        assert forall|i: int, j: int| 0 <= i < j < s.len() implies #[trigger] le(s[i], s[j]) by {
            assert(lt(s[i], s[j]));
        }
    }
    vstd::seq_lib::lemma_sorted_unique(s, srt, le);
}

/// The ascending enumeration is strictly sorted and enumerates exactly the set.
pub proof fn lemma_ascending_props<T>(set: Set<T>, lt: spec_fn(T, T) -> bool)
    requires
        strict_total(lt),
        set.finite(),
    ensures
        strictly_sorted(ascending(set, lt), lt),
        ascending(set, lt).to_set() == set,
        ascending(set, lt).no_duplicates(),
        ascending(set, lt).len() == set.len(),
{
    broadcast use vstd::multiset::group_multiset_axioms;
    broadcast use vstd::seq_lib::group_to_multiset_ensures;

    let le = le_of(lt);
    lemma_le_total(lt);
    lemma_set_to_seq_no_dup(set);
    let t = set.to_seq();
    t.lemma_sort_by_ensures(le);
    let srt = t.sort_by(le);
    assert(srt.to_set() == set) by {
        assert forall|x: T| srt.contains(x) <==> set.contains(x) by {
            assert(srt.to_multiset().count(x) == t.to_multiset().count(x));
            if t.contains(x) {
                assert(t.to_set().contains(x));
            }
            if set.contains(x) {
                assert(t.to_set().contains(x));
            }
        }
        assert(srt.to_set() =~= set);
    }
    t.lemma_multiset_has_no_duplicates();
    assert(srt.no_duplicates()) by {
        assert forall|x: T| srt.to_multiset().contains(x) implies srt.to_multiset().count(x)
            == 1 by {
            assert(srt.to_multiset().count(x) == t.to_multiset().count(x));
        }
        srt.lemma_multiset_has_no_duplicates_conv();
    }
    assert(strictly_sorted(srt, lt)) by {
        assert forall|i: int, j: int| 0 <= i < j < srt.len() implies #[trigger] lt(
            srt[i],
            srt[j],
        ) by {
            assert(le(srt[i], srt[j]));
        }
    }
    srt.unique_seq_to_set();
}

proof fn lemma_lex_irreflexive<T>(a: Seq<T>, lt: spec_fn(T, T) -> bool)
    ensures
        !lex(a, a, lt),
    decreases a.len(),
{
    if a.len() > 0 {
        lemma_lex_irreflexive(a.drop_first(), lt);
    }
}

proof fn lemma_lex_transitive<T>(a: Seq<T>, b: Seq<T>, c: Seq<T>, lt: spec_fn(T, T) -> bool)
    requires
        strict_total(lt),
        lex(a, b, lt),
        lex(b, c, lt),
    ensures
        lex(a, c, lt),
    decreases a.len(),
{
    if a.len() > 0 && b.len() > 0 && c.len() > 0 {
        if a[0] == b[0] && b[0] == c[0] {
            lemma_lex_transitive(a.drop_first(), b.drop_first(), c.drop_first(), lt);
        } else if a[0] == b[0] {
            assert(lt(b[0], c[0]));
        } else if b[0] == c[0] {
            assert(lt(a[0], b[0]));
        } else {
            assert(lt(a[0], b[0]) && lt(b[0], c[0]));
            assert(lt(a[0], c[0]));
            if a[0] == c[0] {
                assert(lt(a[0], a[0]));
            }
        }
    }
}

proof fn lemma_lex_connected<T>(a: Seq<T>, b: Seq<T>, lt: spec_fn(T, T) -> bool)
    requires
        strict_total(lt),
        a != b,
    ensures
        lex(a, b, lt) || lex(b, a, lt),
    decreases a.len(),
{
    if a.len() > 0 && b.len() > 0 {
        if a[0] == b[0] {
            if a.drop_first() == b.drop_first() {
                assert(a =~= seq![a[0]] + a.drop_first());
                assert(b =~= seq![b[0]] + b.drop_first());
            }
            lemma_lex_connected(a.drop_first(), b.drop_first(), lt);
        } else {
            assert(lt(a[0], b[0]) || lt(b[0], a[0]));
        }
    } else if a.len() == 0 && b.len() == 0 {
        assert(a =~= b);
    }
}

/// The lexicographic order built from a strict total order is a strict total order.
pub proof fn lemma_lex_strict_total<T>(lt: spec_fn(T, T) -> bool)
    requires
        strict_total(lt),
    ensures
        strict_total(|a: Seq<T>, b: Seq<T>| lex(a, b, lt)),
{
    let l = |a: Seq<T>, b: Seq<T>| lex(a, b, lt);
    assert forall|x: Seq<T>| !#[trigger] l(x, x) by {
        lemma_lex_irreflexive(x, lt);
    }
    assert forall|x: Seq<T>, y: Seq<T>, z: Seq<T>| #[trigger] l(x, y) && #[trigger] l(y, z) implies l(
        x,
        z,
    ) by {
        lemma_lex_transitive(x, y, z, lt);
    }
    assert forall|x: Seq<T>, y: Seq<T>| x != y implies #[trigger] l(x, y) || #[trigger] l(y, x) by {
        lemma_lex_connected(x, y, lt);
    }
}

/// When two sequences agree on their first `i` elements, their order is that of their rests.
pub proof fn lemma_lex_skip<T>(a: Seq<T>, b: Seq<T>, i: int, lt: spec_fn(T, T) -> bool)
    requires
        0 <= i <= a.len(),
        i <= b.len(),
        a.subrange(0, i) == b.subrange(0, i),
    ensures
        lex(a, b, lt) == lex(a.skip(i), b.skip(i), lt),
    decreases i,
{
    if i > 0 {
        assert(a[0] == a.subrange(0, i)[0]);
        assert(b[0] == b.subrange(0, i)[0]);
        assert(a.drop_first().subrange(0, i - 1) =~= a.subrange(0, i).drop_first());
        assert(b.drop_first().subrange(0, i - 1) =~= b.subrange(0, i).drop_first());
        lemma_lex_skip(a.drop_first(), b.drop_first(), i - 1, lt);
        assert(a.drop_first().skip(i - 1) =~= a.skip(i));
        assert(b.drop_first().skip(i - 1) =~= b.skip(i));
    } else {
        assert(a.skip(0) =~= a);
        assert(b.skip(0) =~= b);
    }
}

} // verus!
