//! Lists of values keyed by tuples of texts, collapsed to one value per key
//! in ascending key order (a later value under a key replaces an earlier one).
use vstd::prelude::*;
use crate::keys::{ascending_keys, clone_key, key_view, keys_view, klt};
use crate::order::{ascending, lemma_ascending_props, lemma_ascending_unique, strictly_sorted};
use crate::text::{compare_key, lemma_key_order, Order};

verus! {

/// Values that can be copied with their view kept.
pub trait Copyable: View + Sized {
    fn copy_of(&self) -> (r: Self)
        ensures
            r@ == self@,
    ;
}

impl Copyable for String {
    fn copy_of(&self) -> (r: String) {
        self.clone()
    }
}

pub open spec fn entries_v<V: View>(es: Seq<(Vec<String>, V)>) -> Seq<(Seq<Seq<char>>, V::V)> {
    es.map_values(|e: (Vec<String>, V)| (key_view(e.0), e.1@))
}

pub open spec fn entry_keys<W>(es: Seq<(Seq<Seq<char>>, W)>) -> Seq<Seq<Seq<char>>> {
    es.map_values(|e: (Seq<Seq<char>>, W)| e.0)
}

pub open spec fn key_set<W>(es: Seq<(Seq<Seq<char>>, W)>) -> Set<Seq<Seq<char>>> {
    entry_keys(es).to_set()
}

/// The last value recorded under `k`.
pub open spec fn last_value<W>(es: Seq<(Seq<Seq<char>>, W)>, k: Seq<Seq<char>>) -> W
    decreases es.len(),
{
    if es.len() == 0 {
        arbitrary()
    } else if es.last().0 == k {
        es.last().1
    } else {
        last_value(es.drop_last(), k)
    }
}

/// One entry per key, in ascending key order, holding the last value recorded under it.
pub open spec fn collapse<W>(es: Seq<(Seq<Seq<char>>, W)>) -> Seq<(Seq<Seq<char>>, W)> {
    ascending(key_set(es), klt()).map_values(|k: Seq<Seq<char>>| (k, last_value(es, k)))
}

pub proof fn lemma_collapse<W>(es: Seq<(Seq<Seq<char>>, W)>)
    ensures
        entry_keys(collapse(es)) == ascending(key_set(es), klt()),
        strictly_sorted(entry_keys(collapse(es)), klt()),
        key_set(collapse(es)) == key_set(es),
        forall|i: int|
            0 <= i < collapse(es).len() ==> #[trigger] collapse(es)[i].1 == last_value(
                es,
                collapse(es)[i].0,
            ),
{
    lemma_key_order();
    vstd::seq_lib::seq_to_set_is_finite(entry_keys(es));
    lemma_ascending_props(key_set(es), klt());
    assert(entry_keys(collapse(es)) =~= ascending(key_set(es), klt()));
}

/// Whether some entry has key `k`.
pub fn has_entry_key<V>(es: &[(Vec<String>, V)], k: &[String]) -> (r: bool)
    ensures
        r == keys_view(es@.map_values(|e: (Vec<String>, V)| e.0)).contains(
            k@.map_values(|s: String| s@),
        ),
{
    let ghost kv = k@.map_values(|s: String| s@);
    let ghost ks = keys_view(es@.map_values(|e: (Vec<String>, V)| e.0));
    let mut i: usize = 0;
    while i < es.len()
        invariant
            i <= es@.len(),
            kv == k@.map_values(|s: String| s@),
            ks == keys_view(es@.map_values(|e: (Vec<String>, V)| e.0)),
            forall|j: int| 0 <= j < i ==> #[trigger] ks[j] != kv,
        decreases es.len() - i,
    {
        match compare_key(es[i].0.as_slice(), k) {
            Order::Equal => {
                assert(ks[i as int] == kv);
                return true;
            },
            _ => {},
        }
        i += 1;
    }
    false
}

pub proof fn lemma_entry_keys<V: View>(es: Seq<(Vec<String>, V)>)
    ensures
        entry_keys(entries_v(es)) == keys_view(es.map_values(|e: (Vec<String>, V)| e.0)),
{
    assert(entry_keys(entries_v(es)) =~= keys_view(es.map_values(|e: (Vec<String>, V)| e.0)));
}

/// The last value recorded under `k`, which must occur.
pub fn last_value_of<V: Copyable>(es: &[(Vec<String>, V)], k: &[String]) -> (r: V)
    requires
        entry_keys(entries_v(es@)).contains(k@.map_values(|s: String| s@)),
    ensures
        r@ == last_value(entries_v(es@), k@.map_values(|s: String| s@)),
{
    let ghost kv = k@.map_values(|s: String| s@);
    let ghost ev = entries_v(es@);
    let mut j: usize = es.len();
    assert(ev.subrange(0, j as int) =~= ev);
    while j > 0
        invariant
            j <= es@.len(),
            kv == k@.map_values(|s: String| s@),
            ev == entries_v(es@),
            last_value(ev, kv) == last_value(ev.subrange(0, j as int), kv),
            entry_keys(ev.subrange(0, j as int)).contains(kv),
        decreases j,
    {
        let c = compare_key(es[j - 1].0.as_slice(), k);
        assert(ev.subrange(0, j as int).last() == ev[j - 1]);
        match c {
            Order::Equal => {
                return es[j - 1].1.copy_of();
            },
            _ => {},
        }
        assert(ev.subrange(0, j as int).drop_last() =~= ev.subrange(0, j - 1 as int));
        proof {
            let w = choose|w: int|
                0 <= w < j && #[trigger] entry_keys(ev.subrange(0, j as int))[w] == kv;
            assert(w != j - 1);
            assert(entry_keys(ev.subrange(0, j - 1 as int))[w] == kv);
        }
        j -= 1;
    }
    proof {
        assert(entry_keys(ev.subrange(0, 0)).len() == 0);
    }
    es[0].1.copy_of()
}

/// One entry per key, in ascending key order, holding the last value recorded under it.
pub fn collapse_last<V: Copyable>(es: &[(Vec<String>, V)]) -> (r: Vec<(Vec<String>, V)>)
    ensures
        entries_v(r@) == collapse(entries_v(es@)),
{
    let ghost ev = entries_v(es@);
    let mut all_keys: Vec<Vec<String>> = Vec::new();
    let mut i: usize = 0;
    while i < es.len()
        invariant
            i <= es@.len(),
            all_keys@.len() == i,
            forall|q: int| 0 <= q < i ==> #[trigger] key_view(all_keys@[q]) == key_view(es@[q].0),
        decreases es.len() - i,
    {
        all_keys.push(clone_key(&es[i].0));
        i += 1;
    }
    assert(keys_view(all_keys@) =~= entry_keys(ev));
    let asc = ascending_keys(all_keys.as_slice());
    let ghost av = keys_view(asc@);
    proof {
        lemma_collapse(ev);
        vstd::seq_lib::seq_to_set_is_finite(entry_keys(ev));
        lemma_key_order();
        lemma_ascending_props(key_set(ev), klt());
    }
    let mut out: Vec<(Vec<String>, V)> = Vec::new();
    let mut j: usize = 0;
    while j < asc.len()
        invariant
            j <= asc@.len(),
            av == keys_view(asc@),
            av == ascending(key_set(ev), klt()),
            av.to_set() == key_set(ev),
            ev == entries_v(es@),
            out@.len() == j,
            forall|q: int|
                0 <= q < j ==> #[trigger] entries_v(out@)[q] == (av[q], last_value(ev, av[q])),
        decreases asc.len() - j,
    {
        let k = &asc[j];
        assert(key_view(*k) == av[j as int]);
        assert(av.to_set().contains(av[j as int]));
        assert(k@.map_values(|s: String| s@) =~= key_view(*k));
        let v = last_value_of(es, k.as_slice());
        let ghost before = out@;
        out.push((clone_key(k), v));
        assert forall|q: int| 0 <= q < j + 1 implies #[trigger] entries_v(out@)[q] == (
            av[q],
            last_value(ev, av[q]),
        ) by {
            if q < j {
                assert(out@[q] == before[q]);
                assert(entries_v(before)[q] == (av[q], last_value(ev, av[q])));
            } else {
                assert(out@[q].1@ == last_value(ev, av[q]));
                assert(key_view(out@[q].0) == av[q]);
            }
        }
        j += 1;
    }
    assert(entries_v(out@) =~= collapse(ev));
    out
}

/// The keys of `a` that `b` lacks, in ascending order; `a` must be ascending by key.
pub fn keys_only_in<V, W>(a: &[(Vec<String>, V)], b: &[(Vec<String>, W)]) -> (r: Vec<Vec<String>>)
    requires
        strictly_sorted(keys_view(a@.map_values(|e: (Vec<String>, V)| e.0)), klt()),
    ensures
        keys_view(r@) == ascending(
            keys_view(a@.map_values(|e: (Vec<String>, V)| e.0)).to_set().difference(
                keys_view(b@.map_values(|e: (Vec<String>, W)| e.0)).to_set(),
            ),
            klt(),
        ),
{
    proof {
        lemma_key_order();
    }
    let ghost ak = keys_view(a@.map_values(|e: (Vec<String>, V)| e.0));
    let ghost bs = keys_view(b@.map_values(|e: (Vec<String>, W)| e.0)).to_set();
    let mut out: Vec<Vec<String>> = Vec::new();
    let mut i: usize = 0;
    while i < a.len()
        invariant
            i <= a@.len(),
            ak == keys_view(a@.map_values(|e: (Vec<String>, V)| e.0)),
            bs == keys_view(b@.map_values(|e: (Vec<String>, W)| e.0)).to_set(),
            strictly_sorted(ak, klt()),
            crate::order::strict_total(klt()),
            strictly_sorted(keys_view(out@), klt()),
            keys_view(out@).to_set() == ak.take(i as int).to_set().difference(bs),
            forall|q: int|
                0 <= q < out@.len() ==> exists|w: int| 0 <= w < i && #[trigger] keys_view(out@)[q] == ak[w],
        decreases a.len() - i,
    {
        let ghost kv = ak[i as int];
        assert(key_view(a@[i as int].0) == kv);
        let k = &a[i].0;
        assert(k@.map_values(|s: String| s@) =~= kv);
        let present = has_entry_key(b, k.as_slice());
        let ghost old_out = keys_view(out@);
        if !present {
            out.push(clone_key(k));
            assert(keys_view(out@) =~= old_out.push(kv));
            assert forall|x: int, y: int| 0 <= x < y < keys_view(out@).len() implies #[trigger] klt()(
                keys_view(out@)[x],
                keys_view(out@)[y],
            ) by {
                if y == old_out.len() {
                    let w = choose|w: int| 0 <= w < i && #[trigger] old_out[x] == ak[w];
                    assert(old_out[x] == ak[w]);
                    assert(klt()(ak[w], ak[i as int]));
                } else {
                    assert(klt()(old_out[x], old_out[y]));
                }
            }
            assert forall|q: int| 0 <= q < keys_view(out@).len() implies exists|w: int|
                0 <= w < i + 1 && #[trigger] keys_view(out@)[q] == ak[w] by {
                if q == old_out.len() {
                    assert(keys_view(out@)[q] == ak[i as int]);
                } else {
                    let w = choose|w: int| 0 <= w < i && #[trigger] old_out[q] == ak[w];
                    assert(keys_view(out@)[q] == ak[w]);
                }
            }
        }
        proof {
            let pre = ak.take(i as int);
            let post = ak.take(i + 1 as int);
            assert(post =~= pre.push(kv));
            pre.lemma_push_to_set_commute(kv);
            if !present {
                old_out.lemma_push_to_set_commute(kv);
            }
            assert(keys_view(out@).to_set() =~= post.to_set().difference(bs));
        }
        i += 1;
    }
    proof {
        assert(ak.take(a@.len() as int) =~= ak);
        lemma_ascending_unique(keys_view(out@), klt());
    }
    out
}

} // verus!
