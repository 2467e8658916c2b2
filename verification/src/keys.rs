//! Ascending enumeration of text keys and tuple keys, and stable orderings by text key.
use vstd::prelude::*;
use crate::order::{ascending, lemma_ascending_unique, strict_total, strictly_sorted};
use crate::text::{compare_key, compare_text, key_lt, lemma_key_order, lemma_text_order, text_lt, Order};

verus! {

/// The characters of each component of a tuple key.
pub open spec fn key_view(k: Vec<String>) -> Seq<Seq<char>> {
    k@.map_values(|s: String| s@)
}

pub open spec fn keys_view(ks: Seq<Vec<String>>) -> Seq<Seq<Seq<char>>> {
    ks.map_values(|k: Vec<String>| key_view(k))
}

pub open spec fn texts_view(ts: Seq<String>) -> Seq<Seq<char>> {
    ts.map_values(|t: String| t@)
}

pub open spec fn klt() -> spec_fn(Seq<Seq<char>>, Seq<Seq<char>>) -> bool {
    |a: Seq<Seq<char>>, b: Seq<Seq<char>>| key_lt(a, b)
}

pub open spec fn tlt() -> spec_fn(Seq<char>, Seq<char>) -> bool {
    |a: Seq<char>, b: Seq<char>| text_lt(a, b)
}

/// A copy of a tuple key.
pub fn clone_key(k: &Vec<String>) -> (r: Vec<String>)
    ensures
        key_view(r) == key_view(*k),
        r@.len() == k@.len(),
{
    let mut r: Vec<String> = Vec::new();
    let mut i: usize = 0;
    while i < k.len()
        invariant
            i <= k@.len(),
            r@.len() == i,
            forall|j: int| 0 <= j < i ==> #[trigger] r@[j]@ == k@[j]@,
        decreases k.len() - i,
    {
        r.push(k[i].clone());
        i += 1;
    }
    assert(key_view(r) =~= key_view(*k));
    r
}

/// Adds `k` to a strictly ascending list of tuple keys, unless it is already there.
pub fn insert_key(ks: &mut Vec<Vec<String>>, k: Vec<String>)
    requires
        strictly_sorted(keys_view(old(ks)@), klt()),
    ensures
        strictly_sorted(keys_view(final(ks)@), klt()),
        keys_view(final(ks)@).to_set() == keys_view(old(ks)@).to_set().insert(key_view(k)),
{
    proof {
        lemma_key_order();
    }
    let ghost old_v = keys_view(ks@);
    let ghost kv = key_view(k);
    let mut i: usize = 0;
    while i < ks.len()
        invariant
            0 <= i <= ks@.len(),
            ks@ == old(ks)@,
            old_v == keys_view(ks@),
            kv == key_view(k),
            strictly_sorted(old_v, klt()),
            strict_total(klt()),
            forall|j: int| 0 <= j < i ==> #[trigger] key_lt(old_v[j], kv),
        ensures
            0 <= i <= ks@.len(),
            ks@ == old(ks)@,
            forall|j: int| 0 <= j < i ==> #[trigger] key_lt(old_v[j], kv),
            i == ks@.len() || key_lt(kv, old_v[i as int]),
        decreases ks.len() - i,
    {
        let c = compare_key(ks[i].as_slice(), k.as_slice());
        match c {
            Order::Less => {},
            Order::Equal => {
                assert(old_v.to_set().insert(kv) =~= old_v.to_set()) by {
                    assert(old_v[i as int] == kv);
                }
                return;
            },
            Order::Greater => {
                break;
            },
        }
        i += 1;
    }
    ks.insert(i, k);
    let ghost nv = keys_view(ks@);
    assert(nv =~= old_v.insert(i as int, kv));
    assert(strictly_sorted(nv, klt())) by {
        assert forall|a: int, b: int| 0 <= a < b < nv.len() implies #[trigger] key_lt(
            nv[a],
            nv[b],
        ) by {
            if b < i {
                assert(klt()(old_v[a], old_v[b]));
            } else if a < i && b == i {
            } else if a < i && b > i {
                assert(klt()(old_v[a], old_v[b - 1]));
            } else if a == i {
                if b - 1 > i {
                    assert(klt()(old_v[i as int], old_v[b - 1]));
                }
            } else {
                assert(klt()(old_v[a - 1], old_v[b - 1]));
            }
        }
        assert forall|a: int, b: int| 0 <= a < b < nv.len() implies #[trigger] klt()(
            nv[a],
            nv[b],
        ) by {
            assert(key_lt(nv[a], nv[b]));
        }
    }
    assert(nv.to_set() =~= old_v.to_set().insert(kv)) by {
        assert forall|x: Seq<Seq<char>>| nv.to_set().contains(x) <==> old_v.to_set().insert(
            kv,
        ).contains(x) by {
            if nv.contains(x) {
                let j = choose|j: int| 0 <= j < nv.len() && nv[j] == x;
                if j < i {
                    assert(old_v[j] == x);
                } else if j > i {
                    assert(old_v[j - 1] == x);
                }
            }
            if old_v.contains(x) {
                let j = choose|j: int| 0 <= j < old_v.len() && old_v[j] == x;
                if j < i {
                    assert(nv[j] == x);
                } else {
                    assert(nv[j + 1] == x);
                }
            }
            if x == kv {
                assert(nv[i as int] == x);
            }
        }
    }
}

/// The distinct tuple keys of a list, in ascending order.
pub fn ascending_keys(keys: &[Vec<String>]) -> (r: Vec<Vec<String>>)
    ensures
        keys_view(r@) == ascending(keys_view(keys@).to_set(), klt()),
{
    proof {
        lemma_key_order();
    }
    let mut r: Vec<Vec<String>> = Vec::new();
    let mut i: usize = 0;
    while i < keys.len()
        invariant
            i <= keys@.len(),
            strictly_sorted(keys_view(r@), klt()),
            keys_view(r@).to_set() == keys_view(keys@.subrange(0, i as int)).to_set(),
        decreases keys.len() - i,
    {
        let k = clone_key(&keys[i]);
        insert_key(&mut r, k);
        proof {
            let pre = keys_view(keys@.subrange(0, i as int));
            let post = keys_view(keys@.subrange(0, i + 1 as int));
            assert(post =~= pre.push(key_view(keys@[i as int])));
            pre.lemma_push_to_set_commute(key_view(keys@[i as int]));
        }
        i += 1;
    }
    assert(keys@.subrange(0, keys@.len() as int) =~= keys@);
    proof {
        lemma_ascending_unique(keys_view(r@), klt());
    }
    r
}

/// Adds `t` to a strictly ascending list of texts, unless it is already there.
pub fn insert_text(ts: &mut Vec<String>, t: String)
    requires
        strictly_sorted(texts_view(old(ts)@), tlt()),
    ensures
        strictly_sorted(texts_view(final(ts)@), tlt()),
        texts_view(final(ts)@).to_set() == texts_view(old(ts)@).to_set().insert(t@),
{
    proof {
        lemma_text_order();
    }
    let ghost old_v = texts_view(ts@);
    let ghost kv = t@;
    let mut i: usize = 0;
    while i < ts.len()
        invariant
            0 <= i <= ts@.len(),
            ts@ == old(ts)@,
            old_v == texts_view(ts@),
            kv == t@,
            strictly_sorted(old_v, tlt()),
            strict_total(tlt()),
            forall|j: int| 0 <= j < i ==> #[trigger] text_lt(old_v[j], kv),
        ensures
            0 <= i <= ts@.len(),
            ts@ == old(ts)@,
            forall|j: int| 0 <= j < i ==> #[trigger] text_lt(old_v[j], kv),
            i == ts@.len() || text_lt(kv, old_v[i as int]),
        decreases ts.len() - i,
    {
        let c = compare_text(ts[i].as_str(), t.as_str());
        match c {
            Order::Less => {},
            Order::Equal => {
                assert(old_v.to_set().insert(kv) =~= old_v.to_set()) by {
                    assert(old_v[i as int] == kv);
                }
                return;
            },
            Order::Greater => {
                break;
            },
        }
        i += 1;
    }
    ts.insert(i, t);
    let ghost nv = texts_view(ts@);
    assert(nv =~= old_v.insert(i as int, kv));
    assert(strictly_sorted(nv, tlt())) by {
        assert forall|a: int, b: int| 0 <= a < b < nv.len() implies #[trigger] text_lt(
            nv[a],
            nv[b],
        ) by {
            if b < i {
                assert(tlt()(old_v[a], old_v[b]));
            } else if a < i && b == i {
            } else if a < i && b > i {
                assert(tlt()(old_v[a], old_v[b - 1]));
            } else if a == i {
                if b - 1 > i {
                    assert(tlt()(old_v[i as int], old_v[b - 1]));
                }
            } else {
                assert(tlt()(old_v[a - 1], old_v[b - 1]));
            }
        }
        assert forall|a: int, b: int| 0 <= a < b < nv.len() implies #[trigger] tlt()(
            nv[a],
            nv[b],
        ) by {
            assert(text_lt(nv[a], nv[b]));
        }
    }
    assert(nv.to_set() =~= old_v.to_set().insert(kv)) by {
        assert forall|x: Seq<char>| nv.to_set().contains(x) <==> old_v.to_set().insert(
            kv,
        ).contains(x) by {
            if nv.contains(x) {
                let j = choose|j: int| 0 <= j < nv.len() && nv[j] == x;
                if j < i {
                    assert(old_v[j] == x);
                } else if j > i {
                    assert(old_v[j - 1] == x);
                }
            }
            if old_v.contains(x) {
                let j = choose|j: int| 0 <= j < old_v.len() && old_v[j] == x;
                if j < i {
                    assert(nv[j] == x);
                } else {
                    assert(nv[j + 1] == x);
                }
            }
            if x == kv {
                assert(nv[i as int] == x);
            }
        }
    }
}

/// The distinct texts of a list, in ascending order.
pub fn ascending_texts(ts: &[String]) -> (r: Vec<String>)
    ensures
        texts_view(r@) == ascending(texts_view(ts@).to_set(), tlt()),
{
    proof {
        lemma_text_order();
    }
    let mut r: Vec<String> = Vec::new();
    let mut i: usize = 0;
    while i < ts.len()
        invariant
            i <= ts@.len(),
            strictly_sorted(texts_view(r@), tlt()),
            texts_view(r@).to_set() == texts_view(ts@.subrange(0, i as int)).to_set(),
        decreases ts.len() - i,
    {
        let t = ts[i].clone();
        insert_text(&mut r, t);
        proof {
            let pre = texts_view(ts@.subrange(0, i as int));
            let post = texts_view(ts@.subrange(0, i + 1 as int));
            assert(post =~= pre.push(ts@[i as int]@));
            pre.lemma_push_to_set_commute(ts@[i as int]@);
        }
        i += 1;
    }
    assert(ts@.subrange(0, ts@.len() as int) =~= ts@);
    proof {
        lemma_ascending_unique(texts_view(r@), tlt());
    }
    r
}

/// Order on positions of a list of texts: by text, then by position (a stable sort).
pub open spec fn stable_lt(keys: Seq<Seq<char>>) -> spec_fn(int, int) -> bool {
    |i: int, j: int| text_lt(keys[i], keys[j]) || (keys[i] == keys[j] && i < j)
}

/// The positions `0..n`.
pub open spec fn positions(n: int) -> Set<int> {
    Set::new(|i: int| 0 <= i < n)
}

pub proof fn lemma_stable_order(keys: Seq<Seq<char>>)
    ensures
        strict_total(stable_lt(keys)),
{
    lemma_text_order();
    let l = stable_lt(keys);
    assert forall|x: int| !#[trigger] l(x, x) by {
        assert(!text_lt(keys[x], keys[x]));
    }
    assert forall|x: int, y: int, z: int| #[trigger] l(x, y) && #[trigger] l(y, z) implies l(x, z) by {
        if text_lt(keys[x], keys[y]) && text_lt(keys[y], keys[z]) {
            assert(text_lt(keys[x], keys[z]));
        }
    }
    assert forall|x: int, y: int| x != y implies #[trigger] l(x, y) || #[trigger] l(y, x) by {
        if keys[x] != keys[y] {
            assert(text_lt(keys[x], keys[y]) || text_lt(keys[y], keys[x]));
        }
    }
}

/// The positions of `keys` ordered by key, equal keys keeping their order.
pub fn stable_text_order(keys: &[String]) -> (r: Vec<usize>)
    ensures
        r@.map_values(|i: usize| i as int) == ascending(
            positions(keys@.len() as int),
            stable_lt(texts_view(keys@)),
        ),
        r@.len() == keys@.len(),
        forall|i: int| 0 <= i < r@.len() ==> #[trigger] r@[i] < keys@.len(),
{
    let ghost kv = texts_view(keys@);
    let ghost l = stable_lt(kv);
    proof {
        lemma_stable_order(kv);
        lemma_text_order();
    }
    let mut r: Vec<usize> = Vec::new();
    let mut n: usize = 0;
    while n < keys.len()
        invariant
            n <= keys@.len(),
            kv == texts_view(keys@),
            l == stable_lt(kv),
            strict_total(l),
            strict_total(tlt()),
            r@.len() == n,
            forall|i: int| 0 <= i < r@.len() ==> #[trigger] r@[i] < n,
            strictly_sorted(r@.map_values(|i: usize| i as int), l),
            r@.map_values(|i: usize| i as int).to_set() == positions(n as int),
        decreases keys.len() - n,
    {
        let ghost rv = r@.map_values(|i: usize| i as int);
        // every earlier position is below `n` unless its key is greater
        let mut p: usize = r.len();
        while p > 0
            invariant
                p <= r@.len(),
                n < keys@.len(),
                rv == r@.map_values(|i: usize| i as int),
                kv == texts_view(keys@),
                l == stable_lt(kv),
                forall|i: int| 0 <= i < r@.len() ==> #[trigger] r@[i] < n,
                forall|j: int| p <= j < r@.len() ==> #[trigger] l(n as int, rv[j]),
            ensures
                p <= r@.len(),
                forall|j: int| p <= j < r@.len() ==> #[trigger] l(n as int, rv[j]),
                p == 0 || l(rv[p - 1], n as int),
            decreases p,
        {
            let c = compare_text(keys[r[p - 1]].as_str(), keys[n].as_str());
            match c {
                Order::Greater => {
                    assert(text_lt(kv[n as int], kv[r@[p - 1] as int]));
                },
                _ => {
                    assert(kv[r@[p - 1] as int] == keys@[r@[p - 1] as int]@);
                    assert(kv[n as int] == keys@[n as int]@);
                    assert(rv[p - 1] == r@[p - 1] as int);
                    assert(r@[p - 1] < n);
                    assert(text_lt(kv[rv[p - 1]], kv[n as int]) || (kv[rv[p - 1]] == kv[n as int]
                        && rv[p - 1] < n));
                    assert(l(rv[p - 1], n as int));
                    break;
                },
            }
            p -= 1;
        }
        let ghost old_rv = rv;
        r.insert(p, n);
        proof {
            let nv = r@.map_values(|i: usize| i as int);
            assert(nv =~= old_rv.insert(p as int, n as int));
            assert forall|a: int, b: int| 0 <= a < b < nv.len() implies #[trigger] l(
                nv[a],
                nv[b],
            ) by {
                if b < p {
                } else if a < p && b == p {
                    assert(l(old_rv[a], old_rv[p - 1]) || a == p - 1);
                    assert(l(old_rv[p - 1], n as int));
                } else if a < p && b > p {
                } else if a == p {
                    assert(l(n as int, old_rv[b - 1]));
                } else {
                }
            }
            assert forall|x: int| nv.to_set().contains(x) <==> positions(n + 1 as int).contains(x) by {
                if nv.contains(x) {
                    let j = choose|j: int| 0 <= j < nv.len() && nv[j] == x;
                    if j < p {
                        assert(old_rv[j] == x);
                        assert(old_rv.to_set().contains(x));
                    } else if j > p {
                        assert(old_rv[j - 1] == x);
                        assert(old_rv.to_set().contains(x));
                    }
                }
                if 0 <= x < n {
                    assert(old_rv.to_set().contains(x));
                    let j = choose|j: int| 0 <= j < old_rv.len() && old_rv[j] == x;
                    if j < p {
                        assert(nv[j] == x);
                    } else {
                        assert(nv[j + 1] == x);
                    }
                }
                if x == n {
                    assert(nv[p as int] == x);
                }
            }
            assert(nv.to_set() =~= positions(n + 1 as int));
        }
        n += 1;
    }
    proof {
        lemma_ascending_unique(r@.map_values(|i: usize| i as int), l);
    }
    r
}

} // verus!
