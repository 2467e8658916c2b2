//! Points of a snapshot: one per (slot, branch) pair, identified by
//! branch code, date, time and slot id.
use vstd::prelude::*;
use crate::keys::{ascending_keys, clone_key, key_view, keys_view, klt};
use crate::models::{BranchInfo, BranchV, SlotDetail, SlotV, branches_v, slots_v};
use crate::order::{ascending, lemma_ascending_props, lemma_ascending_unique, strictly_sorted};
use crate::text::{compare_key, key_lt, lemma_key_order, Order};

verus! {

/// The identity of a bookable point: branch code, date, time, slot id.
pub open spec fn point_key(s: SlotV, b: BranchV) -> Seq<Seq<char>> {
    seq![b.code, s.date, s.time, s.time_slot_id]
}

/// The slot narrowed to a single branch.
pub open spec fn single(s: SlotV, b: BranchV) -> SlotV {
    SlotV { date: s.date, time: s.time, time_slot_id: s.time_slot_id, branches: seq![b] }
}

pub open spec fn slot_points(s: SlotV) -> Seq<(Seq<Seq<char>>, SlotV)> {
    s.branches.map_values(|b: BranchV| (point_key(s, b), single(s, b)))
}

/// Every (slot, branch) pair of a snapshot in order, with its key.
pub open spec fn points(ds: Seq<SlotV>) -> Seq<(Seq<Seq<char>>, SlotV)>
    decreases ds.len(),
{
    if ds.len() == 0 {
        seq![]
    } else {
        points(ds.drop_last()) + slot_points(ds.last())
    }
}

pub open spec fn point_key_seq(ps: Seq<(Seq<Seq<char>>, SlotV)>) -> Seq<Seq<Seq<char>>> {
    ps.map_values(|p: (Seq<Seq<char>>, SlotV)| p.0)
}

/// The keys of all points of a snapshot.
pub open spec fn point_keys(ds: Seq<SlotV>) -> Set<Seq<Seq<char>>> {
    point_key_seq(points(ds)).to_set()
}

/// The last point recorded under key `k` (later points replace earlier ones).
pub open spec fn last_point(ps: Seq<(Seq<Seq<char>>, SlotV)>, k: Seq<Seq<char>>) -> SlotV
    decreases ps.len(),
{
    if ps.len() == 0 {
        arbitrary()
    } else if ps.last().0 == k {
        ps.last().1
    } else {
        last_point(ps.drop_last(), k)
    }
}

/// Points of `a` whose key `b` lacks, in ascending key order, one per key.
pub open spec fn points_only_in(a: Seq<SlotV>, b: Seq<SlotV>) -> Seq<SlotV> {
    ascending(point_keys(a).difference(point_keys(b)), klt()).map_values(
        |k: Seq<Seq<char>>| last_point(points(a), k),
    )
}

pub open spec fn points_v(ps: Seq<(Vec<String>, SlotDetail)>) -> Seq<(Seq<Seq<char>>, SlotV)> {
    ps.map_values(|p: (Vec<String>, SlotDetail)| (key_view(p.0), p.1@))
}

/// Every (slot, branch) pair of `details`, keyed, in order.
pub fn flatten_points(details: &[SlotDetail]) -> (r: Vec<(Vec<String>, SlotDetail)>)
    ensures
        points_v(r@) == points(slots_v(details@)),
{
    let ghost dv = slots_v(details@);
    let mut r: Vec<(Vec<String>, SlotDetail)> = Vec::new();
    let mut i: usize = 0;
    while i < details.len()
        invariant
            i <= details@.len(),
            dv == slots_v(details@),
            points_v(r@) == points(dv.subrange(0, i as int)),
        decreases details.len() - i,
    {
        let slot = &details[i];
        let ghost sv = slot@;
        let ghost base = points_v(r@);
        let mut j: usize = 0;
        while j < slot.branches.len()
            invariant
                j <= slot.branches@.len(),
                sv == slot@,
                points_v(r@) == base + slot_points(sv).subrange(0, j as int),
            decreases slot.branches.len() - j,
        {
            let b = &slot.branches[j];
            let mut key: Vec<String> = Vec::new();
            key.push(b.code.clone());
            key.push(slot.date.clone());
            key.push(slot.time.clone());
            key.push(slot.time_slot_id.clone());
            let mut bs: Vec<BranchInfo> = Vec::new();
            bs.push(b.duplicate());
            let one = SlotDetail {
                date: slot.date.clone(),
                time: slot.time.clone(),
                time_slot_id: slot.time_slot_id.clone(),
                branches: bs,
            };
            let ghost before = points_v(r@);
            proof {
                assert(key_view(key) =~= point_key(sv, b@));
                assert(branches_v(one.branches@) =~= seq![b@]);
                assert(sv.branches[j as int] == b@);
            }
            r.push((key, one));
            proof {
                assert(points_v(r@) =~= before.push((key_view(key), one@)));
                assert(slot_points(sv).subrange(0, j + 1 as int) =~= slot_points(sv).subrange(
                    0,
                    j as int,
                ).push(slot_points(sv)[j as int]));
            }
            j += 1;
        }
        proof {
            assert(slot_points(sv).subrange(0, slot.branches@.len() as int) =~= slot_points(sv));
            assert(dv.subrange(0, i + 1 as int).drop_last() =~= dv.subrange(0, i as int));
            assert(dv.subrange(0, i + 1 as int).last() == sv);
        }
        i += 1;
    }
    assert(dv.subrange(0, details@.len() as int) =~= dv);
    r
}

/// The keys of a list of points.
pub fn keys_of(ps: &[(Vec<String>, SlotDetail)]) -> (r: Vec<Vec<String>>)
    ensures
        keys_view(r@) == point_key_seq(points_v(ps@)),
{
    let mut r: Vec<Vec<String>> = Vec::new();
    let mut i: usize = 0;
    while i < ps.len()
        invariant
            i <= ps@.len(),
            r@.len() == i,
            forall|j: int| 0 <= j < i ==> #[trigger] key_view(r@[j]) == key_view(ps@[j].0),
        decreases ps.len() - i,
    {
        r.push(clone_key(&ps[i].0));
        i += 1;
    }
    assert(keys_view(r@) =~= point_key_seq(points_v(ps@)));
    r
}

/// Whether `k` is one of `keys`.
pub fn has_key(keys: &[Vec<String>], k: &[String]) -> (r: bool)
    ensures
        r == keys_view(keys@).contains(k@.map_values(|s: String| s@)),
{
    let ghost kv = k@.map_values(|s: String| s@);
    let mut i: usize = 0;
    while i < keys.len()
        invariant
            i <= keys@.len(),
            kv == k@.map_values(|s: String| s@),
            forall|j: int| 0 <= j < i ==> #[trigger] keys_view(keys@)[j] != kv,
        decreases keys.len() - i,
    {
        match compare_key(keys[i].as_slice(), k) {
            Order::Equal => {
                assert(keys_view(keys@)[i as int] == kv);
                return true;
            },
            _ => {},
        }
        i += 1;
    }
    false
}

/// The last point recorded under `k`, which must occur.
pub fn last_point_of(ps: &[(Vec<String>, SlotDetail)], k: &[String]) -> (r: SlotDetail)
    requires
        point_key_seq(points_v(ps@)).contains(k@.map_values(|s: String| s@)),
    ensures
        r@ == last_point(points_v(ps@), k@.map_values(|s: String| s@)),
{
    let ghost kv = k@.map_values(|s: String| s@);
    let ghost pv = points_v(ps@);
    let mut j: usize = ps.len();
    assert(pv.subrange(0, j as int) =~= pv);
    while j > 0
        invariant
            j <= ps@.len(),
            kv == k@.map_values(|s: String| s@),
            pv == points_v(ps@),
            last_point(pv, kv) == last_point(pv.subrange(0, j as int), kv),
            point_key_seq(pv.subrange(0, j as int)).contains(kv),
        decreases j,
    {
        let c = compare_key(ps[j - 1].0.as_slice(), k);
        assert(pv.subrange(0, j as int).last() == pv[j - 1]);
        match c {
            Order::Equal => {
                return ps[j - 1].1.duplicate();
            },
            _ => {},
        }
        assert(pv.subrange(0, j as int).drop_last() =~= pv.subrange(0, j - 1 as int));
        proof {
            let w = choose|w: int|
                0 <= w < j && #[trigger] point_key_seq(pv.subrange(0, j as int))[w] == kv;
            assert(w != j - 1);
            assert(point_key_seq(pv.subrange(0, j - 1 as int))[w] == kv);
        }
        j -= 1;
    }
    proof {
        assert(point_key_seq(pv.subrange(0, 0)).len() == 0);
    }
    ps[0].1.duplicate()
}

/// The points of `a_points` whose key is missing from `b_keys`, one per key,
/// in ascending key order.
pub fn points_missing_from(
    a_points: &[(Vec<String>, SlotDetail)],
    b_keys: &[Vec<String>],
) -> (r: Vec<SlotDetail>)
    ensures
        slots_v(r@) == ascending(
            point_key_seq(points_v(a_points@)).to_set().difference(keys_view(b_keys@).to_set()),
            klt(),
        ).map_values(|k: Seq<Seq<char>>| last_point(points_v(a_points@), k)),
{
    proof {
        lemma_key_order();
    }
    let ghost pv = points_v(a_points@);
    let ghost sa = point_key_seq(pv).to_set();
    let ghost sb = keys_view(b_keys@).to_set();
    let all_keys = keys_of(a_points);
    let asc = ascending_keys(all_keys.as_slice());
    let ghost av = keys_view(asc@);
    proof {
        vstd::seq_lib::seq_to_set_is_finite(point_key_seq(pv));
        lemma_ascending_props(sa, klt());
    }
    let mut out: Vec<SlotDetail> = Vec::new();
    let ghost mut out_keys: Seq<Seq<Seq<char>>> = seq![];
    let mut i: usize = 0;
    while i < asc.len()
        invariant
            i <= asc@.len(),
            av == keys_view(asc@),
            av == ascending(sa, klt()),
            strictly_sorted(av, klt()),
            av.to_set() == sa,
            pv == points_v(a_points@),
            sa == point_key_seq(pv).to_set(),
            sb == keys_view(b_keys@).to_set(),
            strictly_sorted(out_keys, klt()),
            out_keys.to_set() == av.subrange(0, i as int).to_set().difference(sb),
            slots_v(out@) == out_keys.map_values(|k: Seq<Seq<char>>| last_point(pv, k)),
        decreases asc.len() - i,
    {
        let k = &asc[i];
        let ghost kv = av[i as int];
        assert(key_view(*k) == kv);
        let present = has_key(b_keys, k.as_slice());
        let ghost old_keys = out_keys;
        if !present {
            proof {
                assert(av.to_set().contains(kv));
            }
            let p = last_point_of(a_points, k.as_slice());
            let ghost old_out = slots_v(out@);
            let ghost pval = p@;
            out.push(p);
            assert(slots_v(out@) =~= old_out.push(pval));
            proof {
                out_keys = out_keys.push(kv);
                assert forall|a: int, b: int| 0 <= a < b < out_keys.len() implies #[trigger] klt()(
                    out_keys[a],
                    out_keys[b],
                ) by {
                    if b == out_keys.len() - 1 {
                        assert(old_keys.to_set().contains(out_keys[a]));
                        let w = choose|w: int| 0 <= w < i && av.subrange(0, i as int)[w] == out_keys[a];
                        assert(klt()(av[w], av[i as int]));
                    } else {
                        assert(klt()(old_keys[a], old_keys[b]));
                    }
                }
                assert(out_keys.map_values(|k: Seq<Seq<char>>| last_point(pv, k)) =~= old_keys.map_values(
                    |k: Seq<Seq<char>>| last_point(pv, k),
                ).push(last_point(pv, kv)));
            }
        }
        proof {
            let pre = av.subrange(0, i as int);
            let post = av.subrange(0, i + 1 as int);
            assert(post =~= pre.push(kv));
            pre.lemma_push_to_set_commute(kv);
            assert(out_keys.to_set() =~= post.to_set().difference(sb)) by {
                if !present {
                    old_keys.lemma_push_to_set_commute(kv);
                }
            }
        }
        i += 1;
    }
    proof {
        assert(av.subrange(0, av.len() as int) =~= av);
        lemma_ascending_unique(out_keys, klt());
    }
    out
}

} // verus!
