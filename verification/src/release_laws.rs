//! Laws of the release statistics: every release is counted once, and windows split
//! the releases exactly at the gaps of more than twenty minutes.
use vstd::prelude::*;
use crate::order::lemma_ascending_props;

verus! {

/// Total number of releases over the buckets `ks`.
pub open spec fn bucket_total(ps: Seq<u32>, ks: Seq<u32>) -> nat
    decreases ks.len(),
{
    if ks.len() == 0 {
        0
    } else {
        bucket_total(ps, ks.drop_last()) + crate::release::bucket_values(ps, ks.last()).len()
    }
}

pub open spec fn key_is(x: u32) -> spec_fn(u32) -> bool {
    |k: u32| k == x
}

proof fn lemma_bucket_total_push(ps: Seq<u32>, p: u32, ks: Seq<u32>)
    ensures
        bucket_total(ps.push(p), ks) == bucket_total(ps, ks) + ks.filter(key_is(p / 1800)).len(),
    decreases ks.len(),
{
    if ks.len() > 0 {
        let k = ks.last();
        lemma_bucket_total_push(ps, p, ks.drop_last());
        ps.lemma_filter_push(p, |x: u32| x / 1800 == k);
        assert(ks =~= ks.drop_last().push(k));
        ks.drop_last().lemma_filter_push(k, key_is(p / 1800));
    }
}

proof fn lemma_filter_single(ks: Seq<u32>, x: u32)
    requires
        ks.no_duplicates(),
        ks.contains(x),
    ensures
        ks.filter(key_is(x)).len() == 1,
    decreases ks.len(),
{
    let f = key_is(x);
    assert(ks =~= ks.drop_last().push(ks.last()));
    ks.drop_last().lemma_filter_push(ks.last(), f);
    if ks.last() == x {
        assert(!ks.drop_last().contains(x)) by {
            if ks.drop_last().contains(x) {
                let j = choose|j: int| 0 <= j < ks.drop_last().len() && ks.drop_last()[j] == x;
                assert(ks[j] == ks[ks.len() - 1]);
            }
        }
        ks.drop_last().lemma_filter_len(f);
        assert(ks.drop_last().filter(f).len() == 0) by {
            if ks.drop_last().filter(f).len() > 0 {
                ks.drop_last().lemma_filter_pred(f, 0);
                let e = ks.drop_last().filter(f)[0];
                assert(ks.drop_last().filter(f).contains(e));
                ks.drop_last().lemma_filter_contains_rev(f, e);
            }
        }
    } else {
        let j = choose|j: int| 0 <= j < ks.len() && ks[j] == x;
        assert(ks.drop_last()[j] == x);
        assert(ks.drop_last().no_duplicates());
        lemma_filter_single(ks.drop_last(), x);
    }
}

proof fn lemma_bucket_total_all(ps: Seq<u32>, ks: Seq<u32>)
    requires
        ks.no_duplicates(),
        forall|i: int| 0 <= i < ps.len() ==> ks.contains(#[trigger] ps[i] / 1800),
    ensures
        bucket_total(ps, ks) == ps.len(),
    decreases ps.len(),
{
    if ps.len() == 0 {
        lemma_bucket_total_empty(ks);
        assert(ps =~= Seq::<u32>::empty());
    } else {
        let pre = ps.drop_last();
        let p = ps.last();
        assert forall|i: int| 0 <= i < pre.len() implies ks.contains(#[trigger] pre[i] / 1800) by {
            assert(pre[i] == ps[i]);
        }
        lemma_bucket_total_all(pre, ks);
        assert(ps =~= pre.push(p));
        lemma_bucket_total_push(pre, p, ks);
        assert(ks.contains(ps[ps.len() - 1] / 1800));
        lemma_filter_single(ks, p / 1800);
        assert(bucket_total(pre.push(p), ks) == pre.len() + 1);
    }
}

proof fn lemma_bucket_total_empty(ks: Seq<u32>)
    ensures
        bucket_total(Seq::<u32>::empty(), ks) == 0,
    decreases ks.len(),
{
    if ks.len() > 0 {
        lemma_bucket_total_empty(ks.drop_last());
        let e = Seq::<u32>::empty();
        e.lemma_filter_len(|x: u32| x / 1800 == ks.last());
    }
}

/// Every release falls into exactly one bucket: the bucket counts add up to the number
/// of releases.
pub proof fn law_buckets_count_every_release(ps: Seq<u32>)
    ensures
        bucket_total(ps, crate::release::bucket_keys(ps)) == ps.len(),
{
    crate::release::lemma_ult();
    let kv = ps.map_values(|p: u32| p / 1800);
    vstd::seq_lib::seq_to_set_is_finite(kv);
    lemma_ascending_props(kv.to_set(), crate::release::ult());
    let ks = crate::release::bucket_keys(ps);
    assert forall|i: int| 0 <= i < ps.len() implies ks.contains(#[trigger] ps[i] / 1800) by {
        assert(kv[i] == ps[i] / 1800);
        assert(kv.to_set().contains(kv[i]));
    }
    lemma_bucket_total_all(ps, ks);
}

/// Total number of releases over the runs.
pub open spec fn cluster_total(cs: Seq<Seq<u32>>) -> nat
    decreases cs.len(),
{
    if cs.len() == 0 {
        0
    } else {
        cluster_total(cs.drop_last()) + cs.last().len()
    }
}

/// Every release belongs to exactly one window: the window sizes add up to the number
/// of releases.
pub proof fn law_windows_count_every_release(ps: Seq<u32>)
    ensures
        cluster_total(crate::release::clusters(ps)) == ps.len(),
    decreases ps.len(),
{
    if ps.len() > 0 {
        let pre = ps.drop_last();
        law_windows_count_every_release(pre);
        let cs = crate::release::clusters(pre);
        let p = ps.last();
        let all = crate::release::clusters(ps);
        if cs.len() > 0 && crate::release::sat_sub(p, cs.last().last()) <= crate::release::cluster_gap() {
            assert(all.drop_last() =~= cs.drop_last());
            assert(all.last() == cs.last().push(p));
        } else {
            assert(all.drop_last() =~= cs);
        }
    }
}

/// The windows one after another.
pub open spec fn joined(cs: Seq<Seq<u32>>) -> Seq<u32>
    decreases cs.len(),
{
    if cs.len() == 0 {
        seq![]
    } else {
        joined(cs.drop_last()) + cs.last()
    }
}

/// The windows split the releases, in order, exactly at the gaps: laid end to end they
/// are the releases; none is empty; inside a window every release is at most twenty
/// minutes (1200 s) after the one before it (or not after it); and every window after
/// the first starts with a release more than twenty minutes after the last release of
/// the window before.
pub proof fn law_windows_split_at_gaps(ps: Seq<u32>)
    ensures
        joined(crate::release::clusters(ps)) == ps,
        forall|i: int|
            0 <= i < crate::release::clusters(ps).len() ==> #[trigger] crate::release::clusters(
                ps,
            )[i].len() > 0,
        forall|i: int, j: int|
            0 <= i < crate::release::clusters(ps).len() && 0 < j < crate::release::clusters(
                ps,
            )[i].len() ==> crate::release::sat_sub(
                #[trigger] crate::release::clusters(ps)[i][j],
                crate::release::clusters(ps)[i][j - 1],
            ) <= 1200,
        forall|i: int|
            0 < i < crate::release::clusters(ps).len() ==> crate::release::sat_sub(
                #[trigger] crate::release::clusters(ps)[i][0],
                crate::release::clusters(ps)[i - 1].last(),
            ) > 1200,
    decreases ps.len(),
{
    if ps.len() > 0 {
        let pre = ps.drop_last();
        law_windows_split_at_gaps(pre);
        let cs = crate::release::clusters(pre);
        let p = ps.last();
        let all = crate::release::clusters(ps);
        if cs.len() > 0 && crate::release::sat_sub(p, cs.last().last()) <= 1200 {
            assert(all.drop_last() =~= cs.drop_last());
            assert(all.last() == cs.last().push(p));
            assert(joined(cs) == joined(cs.drop_last()) + cs.last());
            assert(joined(all) == joined(all.drop_last()) + all.last());
            assert(joined(all.drop_last()) == joined(cs.drop_last()));
            let a = joined(cs.drop_last());
            let b = cs.last();
            assert(joined(all) == a + b.push(p));
            assert(a + b.push(p) =~= (a + b) + seq![p]);
            assert(joined(cs) == a + b);
            assert(joined(all) == joined(cs) + seq![p]);
            assert forall|i: int, j: int|
                0 <= i < all.len() && 0 < j < all[i].len() implies crate::release::sat_sub(
                #[trigger] all[i][j],
                all[i][j - 1],
            ) <= 1200 by {
                if i < cs.len() - 1 {
                    assert(all[i] == cs[i]);
                } else if j < cs.last().len() {
                    assert(all[i][j] == cs[i][j]);
                    assert(all[i][j - 1] == cs[i][j - 1]);
                }
            }
            assert forall|i: int| 0 < i < all.len() implies crate::release::sat_sub(
                #[trigger] all[i][0],
                all[i - 1].last(),
            ) > 1200 by {
                assert(all[i - 1] == cs[i - 1]);
                assert(all[i][0] == cs[i][0]);
            }
            assert(ps =~= pre.push(p));
        } else {
            assert(all =~= cs.push(seq![p]));
            assert(all.drop_last() =~= cs);
            assert(all.last() == seq![p]);
            assert(joined(all) == joined(all.drop_last()) + all.last());
            assert(joined(all) == joined(cs) + seq![p]);
            assert forall|i: int, j: int|
                0 <= i < all.len() && 0 < j < all[i].len() implies crate::release::sat_sub(
                #[trigger] all[i][j],
                all[i][j - 1],
            ) <= 1200 by {
                assert(all[i] == cs[i]);
            }
            assert forall|i: int| 0 < i < all.len() implies crate::release::sat_sub(
                #[trigger] all[i][0],
                all[i - 1].last(),
            ) > 1200 by {
                if i < cs.len() {
                    assert(all[i - 1] == cs[i - 1]);
                    assert(all[i] == cs[i]);
                }
            }
            assert(ps =~= pre.push(p));
        }
    }
}

} // verus!
