//! Properties of the library as a whole, proved over the specifications its
//! functions are held to.
use vstd::prelude::*;
use crate::changes::{added_member_diffs, field_path, json_diff, old_member_diffs};
use crate::config::bark_urls;
use crate::history::{page_count, shown_page};
use crate::json::{json_wf, lemma_member_some, lemma_members_wf, member, member_keys, members_wf, Json};
use crate::keys::klt;
use crate::models::{BranchV, SlotV};
use crate::monitor::has_branches;
use crate::order::{ascending, lemma_ascending_props};
use crate::release::{ranked_windows, WindowV};
use crate::snapshot::{point_keys, points_only_in};
use crate::state::{enabled_slots, first_per_code, has_code, point_set};
use crate::text::{lemma_key_order, rfind};
use crate::notifier::spec_mask_url;
use vstd::utf8::encode_utf8;

verus! {

proof fn lemma_ascending_set<T>(s: Set<T>, lt: spec_fn(T, T) -> bool)
    requires
        crate::order::strict_total(lt),
        s.finite(),
    ensures
        ascending(s, lt).to_set() == s,
        ascending(s, lt).len() == s.len(),
{
    lemma_ascending_props(s, lt);
}

proof fn lemma_point_keys_finite(ds: Seq<SlotV>)
    ensures
        point_keys(ds).finite(),
{
    vstd::seq_lib::seq_to_set_is_finite(crate::snapshot::point_key_seq(crate::snapshot::points(ds)));
}

/// Comparing a snapshot with itself finds no new and no vanished point.
pub proof fn law_same_snapshot_no_changes(ds: Seq<SlotV>)
    ensures
        points_only_in(ds, ds).len() == 0,
{
    lemma_key_order();
    lemma_point_keys_finite(ds);
    let d = point_keys(ds).difference(point_keys(ds));
    assert(d =~= Set::empty());
    lemma_ascending_set(d, klt());
}

/// The new points and the vanished points never share a key: a point is new only if the
/// old snapshot lacks its key, vanished only if the new one lacks it.
pub proof fn law_added_and_removed_disjoint(old: Seq<SlotV>, new: Seq<SlotV>)
    ensures
        ascending(point_keys(new).difference(point_keys(old)), klt()).to_set().disjoint(
            ascending(point_keys(old).difference(point_keys(new)), klt()).to_set(),
        ),
        ascending(point_keys(new).difference(point_keys(old)), klt()).len()
            == point_keys(new).difference(point_keys(old)).len(),
{
    lemma_key_order();
    lemma_point_keys_finite(old);
    lemma_point_keys_finite(new);
    let a = point_keys(new).difference(point_keys(old));
    let b = point_keys(old).difference(point_keys(new));
    lemma_ascending_set(a, klt());
    lemma_ascending_set(b, klt());
}

proof fn lemma_point_set_finite(ds: Seq<SlotV>)
    ensures
        point_set(ds).finite(),
{
    vstd::seq_lib::seq_to_set_is_finite(crate::keyed::entry_keys(crate::state::slot_entries(ds)));
}

/// Storing a snapshot over another records an `appeared` event exactly for each point
/// only the new one has and a `disappeared` event exactly for each point only the old one
/// has; no point gets both, every appeared point is current, and the current points are
/// those kept plus those that appeared.
pub proof fn law_snapshot_events(old: Seq<SlotV>, new: Seq<SlotV>)
    ensures
        ({
            let appeared = ascending(point_set(new).difference(point_set(old)), klt()).to_set();
            let disappeared = ascending(point_set(old).difference(point_set(new)), klt()).to_set();
            let current = ascending(point_set(new), klt()).to_set();
            &&& appeared.disjoint(disappeared)
            &&& appeared.subset_of(current)
            &&& current == point_set(new).intersect(point_set(old)).union(appeared)
            &&& disappeared.disjoint(current)
        }),
{
    lemma_key_order();
    lemma_point_set_finite(old);
    lemma_point_set_finite(new);
    let a = point_set(new).difference(point_set(old));
    let d = point_set(old).difference(point_set(new));
    lemma_ascending_set(a, klt());
    lemma_ascending_set(d, klt());
    lemma_ascending_set(point_set(new), klt());
    assert(point_set(new) =~= point_set(new).intersect(point_set(old)).union(a));
}

/// Storing the same snapshot again records no event.
pub proof fn law_same_snapshot_no_events(ds: Seq<SlotV>)
    ensures
        ascending(point_set(ds).difference(point_set(ds)), klt()).len() == 0,
{
    lemma_key_order();
    lemma_point_set_finite(ds);
    let d = point_set(ds).difference(point_set(ds));
    assert(d =~= Set::empty());
    lemma_ascending_set(d, klt());
}

/// A document compared with itself has no differing field.
pub proof fn law_same_document_no_diff(path: Seq<char>, j: Json)
    ensures
        json_diff(path, j, j).len() == 0,
{
}

/// Filtering out disabled branches leaves no branch with a disabled code and no slot
/// without branches.
pub proof fn law_enabled_slots(ds: Seq<SlotV>, disabled: Set<Seq<char>>)
    ensures
        forall|i: int, j: int|
            0 <= i < enabled_slots(ds, disabled).len() && 0 <= j < enabled_slots(
                ds,
                disabled,
            )[i].branches.len() ==> !disabled.contains(
                #[trigger] enabled_slots(ds, disabled)[i].branches[j].code,
            ),
        forall|i: int|
            0 <= i < enabled_slots(ds, disabled).len() ==> #[trigger] enabled_slots(
                ds,
                disabled,
            )[i].branches.len() > 0,
    decreases ds.len(),
{
    if ds.len() > 0 {
        law_enabled_slots(ds.drop_last(), disabled);
        let s = ds.last();
        let pred = |b: BranchV| !disabled.contains(b.code);
        let kept = s.branches.filter(pred);
        assert forall|j: int| 0 <= j < kept.len() implies !disabled.contains(#[trigger] kept[j].code) by {
            s.branches.lemma_filter_pred(pred, j);
        }
        let pre = enabled_slots(ds.drop_last(), disabled);
        let all = enabled_slots(ds, disabled);
        assert(kept == crate::state::enabled_branches(s.branches, disabled));
        assert forall|i: int, j: int| 0 <= i < all.len() && 0 <= j < all[i].branches.len() implies !disabled.contains(
            #[trigger] all[i].branches[j].code,
        ) by {
            if i < pre.len() {
                assert(all[i] == pre[i]);
                assert(!disabled.contains(pre[i].branches[j].code));
            } else {
                assert(all[i].branches == kept);
            }
        }
        assert forall|i: int| 0 <= i < all.len() implies #[trigger] all[i].branches.len() > 0 by {
            if i < pre.len() {
                assert(all[i] == pre[i]);
            }
        }
    }
}

/// The page shown lies between 1 and the number of pages (1 when there is none), the
/// pages hold every item, and the first item shown exists whenever there are items.
pub proof fn law_pagination(total: nat, requested: nat, size: nat)
    ensures
        1 <= shown_page(requested, page_count(total, size)),
        page_count(total, size) > 0 ==> shown_page(requested, page_count(total, size))
            <= page_count(total, size),
        size > 0 ==> page_count(total, size) * size >= total,
        size > 0 && total > 0 ==> (shown_page(requested, page_count(total, size)) - 1) * size
            < total,
        size == 0 && total > 0 ==> shown_page(requested, page_count(total, size)) - 1 < total,
{
    let pc = page_count(total, size);
    let p = shown_page(requested, pc);
    if size > 0 && total > 0 {
        let t = total as int;
        let s = size as int;
        assert(pc == (t + s - 1) / s);
        assert(pc * s >= t) by (nonlinear_arith)
            requires
                pc == (t + s - 1) / s,
                s >= 1,
        ;
        assert((pc - 1) * s < t) by (nonlinear_arith)
            requires
                pc == (t + s - 1) / s,
                s >= 1,
                t >= 1,
        ;
        assert((p - 1) * s <= (pc - 1) * s) by (nonlinear_arith)
            requires
                1 <= p <= pc,
                s >= 1,
        ;
    }
    if size > 0 && total == 0 {
        assert(pc == 0);
        assert(pc * size == 0) by (nonlinear_arith)
            requires
                pc == 0,
        ;
    }
}

/// The ranking keeps `limit` windows, or all of them when there are fewer.
pub proof fn law_ranked_windows_count(ws: Seq<WindowV>, limit: nat)
    ensures
        ranked_windows(ws, limit).len() == if limit < ws.len() {
            limit
        } else {
            ws.len()
        },
{
    crate::release::lemma_rank_order(ws);
    let ps = crate::keys::positions(ws.len() as int);
    assert(ps.finite() && ps.len() == ws.len()) by {
        lemma_positions(ws.len() as int);
    }
    lemma_ascending_props(ps, crate::release::rank_lt(ws));
}

proof fn lemma_positions(n: int)
    requires
        n >= 0,
    ensures
        crate::keys::positions(n).finite(),
        crate::keys::positions(n).len() == n,
    decreases n,
{
    if n == 0 {
        assert(crate::keys::positions(0) =~= Set::empty());
    } else {
        lemma_positions(n - 1);
        assert(crate::keys::positions(n) =~= crate::keys::positions(n - 1).insert(n - 1));
    }
}

/// The endpoints read from the environment are never empty.
pub proof fn law_bark_urls_non_empty(value: Seq<char>)
    ensures
        forall|i: int| 0 <= i < bark_urls(value).len() ==> #[trigger] bark_urls(value)[i].len() > 0,
{
    let ts = crate::config::comma_pieces(value).map_values(|p: Seq<char>| crate::text::trim(p));
    let pred = |p: Seq<char>| p.len() > 0;
    assert forall|i: int| 0 <= i < bark_urls(value).len() implies #[trigger] bark_urls(value)[i].len() > 0 by {
        ts.lemma_filter_pred(pred, i);
    }
}

/// The catalog update writes each branch code once.
pub proof fn law_catalog_codes_distinct(bs: Seq<BranchV>)
    ensures
        forall|i: int, j: int|
            0 <= i < j < first_per_code(bs).len() ==> #[trigger] first_per_code(bs)[i].code
                != #[trigger] first_per_code(bs)[j].code,
        forall|i: int|
            0 <= i < first_per_code(bs).len() ==> has_code(bs, #[trigger] first_per_code(bs)[i].code),
    decreases bs.len(),
{
    if bs.len() > 0 {
        let pre = bs.drop_last();
        law_catalog_codes_distinct(pre);
        let fp = first_per_code(pre);
        assert forall|i: int| 0 <= i < fp.len() implies has_code(bs, #[trigger] fp[i].code) by {
            let w = choose|w: int| 0 <= w < pre.len() && #[trigger] pre[w].code == fp[i].code;
            assert(bs[w].code == fp[i].code);
        }
        if !has_code(pre, bs.last().code) {
            assert(has_code(bs, bs.last().code)) by {
                assert(bs[bs.len() - 1].code == bs.last().code);
            }
            assert forall|i: int| 0 <= i < fp.len() implies fp[i].code != bs.last().code by {
                if fp[i].code == bs.last().code {
                    assert(has_code(pre, fp[i].code));
                }
            }
        }
    }
}

/// Every merged drill-down slot has branches.
pub proof fn law_merged_slots_have_branches(vs: Seq<SlotV>)
    ensures
        ({
            let kept = vs.filter(|s: SlotV| has_branches(s));
            forall|i: int| 0 <= i < kept.len() ==> #[trigger] kept[i].branches.len() > 0
        }),
{
    let pred = |s: SlotV| has_branches(s);
    let kept = vs.filter(pred);
    assert forall|i: int| 0 <= i < kept.len() implies #[trigger] kept[i].branches.len() > 0 by {
        vs.lemma_filter_pred(pred, i);
    }
}

/// The key a one-branch point is stored under.
pub open spec fn key_of_point(p: SlotV) -> Seq<Seq<char>> {
    crate::snapshot::point_key(p, p.branches[0])
}

proof fn lemma_points_shape(ds: Seq<SlotV>)
    ensures
        forall|j: int|
            0 <= j < crate::snapshot::points(ds).len() ==> {
                let p = #[trigger] crate::snapshot::points(ds)[j];
                &&& p.1.branches.len() == 1
                &&& p.0 == key_of_point(p.1)
            },
    decreases ds.len(),
{
    if ds.len() > 0 {
        lemma_points_shape(ds.drop_last());
        let pre = crate::snapshot::points(ds.drop_last());
        let part = crate::snapshot::slot_points(ds.last());
        assert forall|j: int| 0 <= j < crate::snapshot::points(ds).len() implies {
            let p = #[trigger] crate::snapshot::points(ds)[j];
            &&& p.1.branches.len() == 1
            &&& p.0 == key_of_point(p.1)
        } by {
            if j < pre.len() {
                assert(crate::snapshot::points(ds)[j] == pre[j]);
            } else {
                assert(crate::snapshot::points(ds)[j] == part[j - pre.len()]);
            }
        }
    }
}

proof fn lemma_last_point_key(ps: Seq<(Seq<Seq<char>>, SlotV)>, k: Seq<Seq<char>>)
    requires
        crate::snapshot::point_key_seq(ps).contains(k),
        forall|j: int|
            0 <= j < ps.len() ==> (#[trigger] ps[j]).1.branches.len() == 1 && ps[j].0 == key_of_point(
                ps[j].1,
            ),
    ensures
        crate::snapshot::last_point(ps, k).branches.len() == 1,
        key_of_point(crate::snapshot::last_point(ps, k)) == k,
    decreases ps.len(),
{
    let ks = crate::snapshot::point_key_seq(ps);
    if ps.last().0 != k {
        let w = choose|w: int| 0 <= w < ks.len() && ks[w] == k;
        assert(w != ps.len() - 1);
        assert(crate::snapshot::point_key_seq(ps.drop_last())[w] == k);
        assert forall|j: int| 0 <= j < ps.drop_last().len() implies (#[trigger] ps.drop_last()[j]).1.branches.len()
            == 1 && ps.drop_last()[j].0 == key_of_point(ps.drop_last()[j].1) by {
            assert(ps.drop_last()[j] == ps[j]);
        }
        lemma_last_point_key(ps.drop_last(), k);
    } else {
        assert(ps[ps.len() - 1] == ps.last());
    }
}

/// The new points of a comparison are one per key the new snapshot has and the old one
/// lacks, in strictly ascending key order, each narrowed to its one branch (the vanished
/// points likewise, with the snapshots' roles swapped).
pub proof fn law_added_points_are_new(old: Seq<SlotV>, new: Seq<SlotV>)
    ensures
        ({
            let added = points_only_in(new, old);
            &&& added.map_values(|p: SlotV| key_of_point(p)) == ascending(
                point_keys(new).difference(point_keys(old)),
                klt(),
            )
            &&& forall|i: int| 0 <= i < added.len() ==> (#[trigger] added[i]).branches.len() == 1
            &&& forall|i: int|
                0 <= i < added.len() ==> point_keys(new).contains(key_of_point(#[trigger] added[i]))
                    && !point_keys(old).contains(key_of_point(added[i]))
            &&& crate::order::strictly_sorted(added.map_values(|p: SlotV| key_of_point(p)), klt())
        }),
{
    lemma_key_order();
    lemma_point_keys_finite(old);
    lemma_point_keys_finite(new);
    let d = point_keys(new).difference(point_keys(old));
    lemma_ascending_props(d, klt());
    let asc = ascending(d, klt());
    let ps = crate::snapshot::points(new);
    lemma_points_shape(new);
    let added = points_only_in(new, old);
    assert forall|i: int| 0 <= i < asc.len() implies #[trigger] added[i].branches.len() == 1
        && key_of_point(added[i]) == asc[i] by {
        assert(asc.to_set().contains(asc[i]));
        assert(d.contains(asc[i]));
        assert(added[i] == crate::snapshot::last_point(ps, asc[i]));
        lemma_last_point_key(ps, asc[i]);
    }
    assert(added.len() == asc.len());
    let km = added.map_values(|p: SlotV| key_of_point(p));
    assert forall|i: int| 0 <= i < asc.len() implies #[trigger] km[i] == asc[i] by {
        assert(added[i].branches.len() == 1 && key_of_point(added[i]) == asc[i]);
    }
    assert(km =~= asc);
    assert forall|i: int| 0 <= i < added.len() implies point_keys(new).contains(
        key_of_point(#[trigger] added[i]),
    ) && !point_keys(old).contains(key_of_point(added[i])) by {
        assert(asc.to_set().contains(asc[i]));
        assert(key_of_point(added[i]) == asc[i]);
    }
}

proof fn lemma_member_at(m: Seq<(Seq<char>, Json)>, i: int)
    requires
        crate::order::strictly_sorted(member_keys(m), crate::keys::tlt()),
        0 <= i < m.len(),
    ensures
        crate::json::member(m, m[i].0) == Some(m[i].1),
    decreases m.len(),
{
    crate::text::lemma_text_order();
    if i > 0 {
        assert(crate::keys::tlt()(member_keys(m)[0], member_keys(m)[i]));
        assert(m[0].0 != m[i].0);
        let t = m.drop_first();
        assert forall|a: int, b: int| 0 <= a < b < member_keys(t).len() implies #[trigger] crate::keys::tlt()(
            member_keys(t)[a],
            member_keys(t)[b],
        ) by {
            assert(crate::keys::tlt()(member_keys(m)[a + 1], member_keys(m)[b + 1]));
        }
        lemma_member_at(t, i - 1);
        assert(t[i - 1] == m[i]);
    }
}

/// When no member of `om` yields a difference, `nm` holds each of them with an equal value.
proof fn lemma_old_diffs_empty(path: Seq<char>, om: Seq<(Seq<char>, Json)>, nm: Seq<(Seq<char>, Json)>)
    requires
        members_wf(om),
        members_wf(nm),
        crate::changes::old_member_diffs(path, om, nm).len() == 0,
    ensures
        forall|i: int| 0 <= i < om.len() ==> crate::json::member(nm, #[trigger] om[i].0) == Some(om[i].1),
    decreases om,
{
    if om.len() > 0 {
        let pre = om.drop_last();
        let e = om.last();
        let fp = crate::changes::field_path(path, e.0);
        assert(members_wf(pre));
        lemma_old_diffs_empty(path, pre, nm);
        match crate::json::member(nm, e.0) {
            Some(nv) => {
                assert(crate::changes::json_diff(fp, e.1, nv).len() == 0);
                lemma_member_some(nm, e.0);
                let j = choose|j: int| 0 <= j < nm.len() && #[trigger] nm[j] == (e.0, nv);
                lemma_members_wf(nm, j);
                assert(json_wf(e.1));
                law_json_diff_empty_iff_equal(fp, e.1, nv);
            },
            None => {},
        }
        assert forall|i: int| 0 <= i < om.len() implies crate::json::member(nm, #[trigger] om[i].0)
            == Some(om[i].1) by {
            if i < om.len() - 1 {
                assert(pre[i] == om[i]);
            }
        }
    }
}

/// When no member of `nm` is reported as added, `om` has a member of each key.
proof fn lemma_added_diffs_empty(path: Seq<char>, om: Seq<(Seq<char>, Json)>, nm: Seq<(Seq<char>, Json)>)
    requires
        crate::changes::added_member_diffs(path, om, nm).len() == 0,
    ensures
        forall|j: int| 0 <= j < nm.len() ==> crate::json::member(om, #[trigger] nm[j].0) is Some,
    decreases nm.len(),
{
    if nm.len() > 0 {
        lemma_added_diffs_empty(path, om, nm.drop_last());
        assert forall|j: int| 0 <= j < nm.len() implies crate::json::member(om, #[trigger] nm[j].0) is Some by {
            if j < nm.len() - 1 {
                assert(nm.drop_last()[j] == nm[j]);
            }
        }
    }
}

/// Two documents as the service's JSON reader produces them have no differing field
/// exactly when they are equal.
pub proof fn law_json_diff_empty_iff_equal(path: Seq<char>, old: Json, new: Json)
    requires
        json_wf(old),
        json_wf(new),
    ensures
        (json_diff(path, old, new).len() == 0) <==> (old == new),
    decreases old,
{
    if old != new {
        match (old, new) {
            (Json::Object(om), Json::Object(nm)) => {
                if json_diff(path, old, new).len() == 0 {
                    lemma_old_diffs_empty(path, om, nm);
                    lemma_added_diffs_empty(path, om, nm);
                    crate::text::lemma_text_order();
                    let ko = member_keys(om);
                    let kn = member_keys(nm);
                    assert(ko.to_set() =~= kn.to_set()) by {
                        assert forall|k: Seq<char>| ko.to_set().contains(k) <==> kn.to_set().contains(k) by {
                            if ko.contains(k) {
                                let i = choose|i: int| 0 <= i < ko.len() && ko[i] == k;
                                assert(om[i].0 == k);
                                assert(crate::json::member(nm, om[i].0) is Some);
                                lemma_member_some(nm, k);
                                let v = crate::json::member(nm, k)->Some_0;
                                let j = choose|j: int| 0 <= j < nm.len() && #[trigger] nm[j] == (k, v);
                                assert(kn[j] == k);
                            }
                            if kn.contains(k) {
                                let j = choose|j: int| 0 <= j < kn.len() && kn[j] == k;
                                assert(nm[j].0 == k);
                                assert(crate::json::member(om, nm[j].0) is Some);
                                lemma_member_some(om, k);
                                let v = crate::json::member(om, k)->Some_0;
                                let i = choose|i: int| 0 <= i < om.len() && #[trigger] om[i] == (k, v);
                                assert(ko[i] == k);
                            }
                        }
                    }
                    crate::order::lemma_ascending_unique(ko, crate::keys::tlt());
                    crate::order::lemma_ascending_unique(kn, crate::keys::tlt());
                    assert(ko == kn);
                    assert forall|i: int| 0 <= i < om.len() implies #[trigger] om[i] == nm[i] by {
                        assert(ko[i] == kn[i]);
                        lemma_member_at(nm, i);
                        assert(crate::json::member(nm, om[i].0) == Some(om[i].1));
                    }
                    assert(om =~= nm);
                }
            },
            _ => {},
        }
    }
}

/// Replaying a comparison rebuilds the new snapshot's points: the old keys without the
/// vanished ones, plus the new ones, are exactly the new snapshot's keys.
pub proof fn law_diff_rebuilds_new_keys(old: Seq<SlotV>, new: Seq<SlotV>)
    ensures
        point_keys(old).difference(
            ascending(point_keys(old).difference(point_keys(new)), klt()).to_set(),
        ).union(ascending(point_keys(new).difference(point_keys(old)), klt()).to_set())
            == point_keys(new),
{
    lemma_key_order();
    lemma_point_keys_finite(old);
    lemma_point_keys_finite(new);
    let a = point_keys(new).difference(point_keys(old));
    let d = point_keys(old).difference(point_keys(new));
    lemma_ascending_set(a, klt());
    lemma_ascending_set(d, klt());
    assert(point_keys(old).difference(d).union(a) =~= point_keys(new));
}

/// A character that may stand in a URL query unescaped: an ASCII letter or digit, one of
/// `-_.~`, or the `%` of an escape.
pub open spec fn url_safe(c: char) -> bool {
    ('A' <= c && c <= 'Z') || ('a' <= c && c <= 'z') || ('0' <= c && c <= '9') || c == '-' || c
        == '_' || c == '.' || c == '~' || c == '%'
}

/// Percent-encoding yields only URL-safe characters, and leaves a text made of
/// unreserved ASCII characters as it is.
pub proof fn law_percent_encoding_is_url_safe(b: Seq<u8>)
    ensures
        forall|i: int|
            0 <= i < crate::notifier::percent_encode(b).len() ==> url_safe(
                #[trigger] crate::notifier::percent_encode(b)[i],
            ),
        (forall|i: int| 0 <= i < b.len() ==> crate::notifier::unreserved(#[trigger] b[i]))
            ==> crate::notifier::percent_encode(b).len() == b.len(),
    decreases b.len(),
{
    if b.len() > 0 {
        let pre = b.drop_last();
        law_percent_encoding_is_url_safe(pre);
        let x = b.last();
        let e = crate::notifier::encode_byte(x);
        let p = crate::notifier::percent_encode(pre);
        assert forall|i: int| 0 <= i < e.len() implies url_safe(#[trigger] e[i]) by {
            if crate::notifier::unreserved(x) {
                assert(e[i] == x as char);
                assert((x as char) as u32 == x as u32);
            } else {
                assert(0 <= x as int / 16 < 16);
                assert(0 <= x as int % 16 < 16);
            }
        }
        assert forall|i: int| 0 <= i < (p + e).len() implies url_safe(#[trigger] (p + e)[i]) by {
            if i < p.len() {
                assert((p + e)[i] == p[i]);
            } else {
                assert((p + e)[i] == e[i - p.len()]);
            }
        }
        if forall|i: int| 0 <= i < b.len() ==> crate::notifier::unreserved(#[trigger] b[i]) {
            assert forall|i: int| 0 <= i < pre.len() implies crate::notifier::unreserved(#[trigger] pre[i]) by {
                assert(pre[i] == b[i]);
            }
            assert(crate::notifier::unreserved(b[b.len() - 1]));
        }
    }
}

/// The available dates come out in ascending order, as many as there are open entries,
/// each one of them.
pub proof fn law_sorted_texts_ascending(ts: Seq<Seq<char>>)
    ensures
        ({
            let out = crate::responses::sorted_texts(ts);
            &&& out.len() == ts.len()
            &&& forall|i: int, j: int|
                0 <= i < j < out.len() ==> #[trigger] crate::text::text_lt(out[i], out[j]) || out[i]
                    == out[j]
            &&& forall|i: int| 0 <= i < out.len() ==> ts.contains(#[trigger] out[i])
        }),
{
    let l = crate::keys::stable_lt(ts);
    crate::keys::lemma_stable_order(ts);
    lemma_positions(ts.len() as int);
    let ps = crate::keys::positions(ts.len() as int);
    lemma_ascending_props(ps, l);
    let asc = ascending(ps, l);
    let out = crate::responses::sorted_texts(ts);
    assert forall|i: int| 0 <= i < asc.len() implies 0 <= #[trigger] asc[i] < ts.len() by {
        assert(asc.to_set().contains(asc[i]));
    }
    assert forall|i: int, j: int| 0 <= i < j < out.len() implies #[trigger] crate::text::text_lt(
        out[i],
        out[j],
    ) || out[i] == out[j] by {
        assert(l(asc[i], asc[j]));
    }
    assert forall|i: int| 0 <= i < out.len() implies ts.contains(#[trigger] out[i]) by {
        assert(out[i] == ts[asc[i]]);
    }
}

proof fn lemma_rfind_after_slash(p: Seq<char>, t: Seq<char>)
    requires
        p.len() > 0,
        p.last() == '/',
        !t.contains('/'),
    ensures
        rfind(p + t, '/') == Some(p.len() - 1),
    decreases t.len(),
{
    if t.len() == 0 {
        assert(p + t =~= p);
    } else {
        assert((p + t).drop_last() =~= p + t.drop_last());
        assert((p + t).last() == t[t.len() - 1]);
        assert(!t.drop_last().contains('/')) by {
            if t.drop_last().contains('/') {
                let w = choose|w: int| 0 <= w < t.drop_last().len() && t.drop_last()[w] == '/';
                assert(t[w] == '/');
            }
        }
        lemma_rfind_after_slash(p, t.drop_last());
    }
}

/// Masking hides the token: two URLs that share everything up to their last `/`, whose
/// tokens (the text after it) both have at most six bytes, or both more than six with the
/// same first three and last three bytes, mask to the same text, whatever else the tokens
/// hold.
pub proof fn law_mask_hides_token(p: Seq<char>, t1: Seq<char>, t2: Seq<char>)
    requires
        p.len() > 0,
        p.last() == '/',
        !t1.contains('/'),
        !t2.contains('/'),
        (encode_utf8(t1).len() <= 6 && encode_utf8(t2).len() <= 6) || (encode_utf8(t1).len() > 6
            && encode_utf8(t2).len() > 6 && encode_utf8(t1).subrange(0, 3) == encode_utf8(
            t2,
        ).subrange(0, 3) && encode_utf8(t1).subrange(
            encode_utf8(t1).len() - 3,
            encode_utf8(t1).len() as int,
        ) == encode_utf8(t2).subrange(encode_utf8(t2).len() - 3, encode_utf8(t2).len() as int)),
    ensures
        spec_mask_url(p + t1) == spec_mask_url(p + t2),
{
    lemma_rfind_after_slash(p, t1);
    lemma_rfind_after_slash(p, t2);
    assert((p + t1).skip(p.len() as int) =~= t1);
    assert((p + t2).skip(p.len() as int) =~= t2);
    assert((p + t1).subrange(0, p.len() as int) =~= p);
    assert((p + t2).subrange(0, p.len() as int) =~= p);
}

/// `v` is `doc` or lies inside it, reached through object members.
pub open spec fn within(v: Json, doc: Json) -> bool
    decreases doc,
{
    v == doc || match doc {
        Json::Object(m) => within_members(v, m),
        _ => false,
    }
}

/// `v` lies in the value of one of the members `m`.
pub open spec fn within_members(v: Json, m: Seq<(Seq<char>, Json)>) -> bool
    decreases m,
{
    if m.len() == 0 {
        false
    } else {
        within_members(v, m.drop_last()) || within(v, m.last().1)
    }
}

/// A reported difference is real and read from the documents: its old value lies in
/// `old` (or is null), its new value lies in `new` (or is null), and the two differ
/// unless both are null.
pub open spec fn diff_is_real(d: (Seq<char>, Json, Json), old: Json, new: Json) -> bool {
    &&& d.1 != d.2 || (d.1 == Json::Null && d.2 == Json::Null)
    &&& d.1 == Json::Null || within(d.1, old)
    &&& d.2 == Json::Null || within(d.2, new)
}

proof fn lemma_within_members(v: Json, m: Seq<(Seq<char>, Json)>)
    ensures
        within_members(v, m) <==> exists|i: int| 0 <= i < m.len() && within(v, #[trigger] m[i].1),
    decreases m.len(),
{
    if m.len() > 0 {
        let d = m.drop_last();
        lemma_within_members(v, d);
        if within_members(v, d) {
            let i = choose|i: int| 0 <= i < d.len() && within(v, #[trigger] d[i].1);
            assert(m[i] == d[i]);
        }
        if within(v, m.last().1) {
            assert(m[m.len() - 1] == m.last());
        }
        if exists|i: int| 0 <= i < m.len() && within(v, #[trigger] m[i].1) {
            let i = choose|i: int| 0 <= i < m.len() && within(v, #[trigger] m[i].1);
            if i < d.len() {
                assert(d[i] == m[i]);
            }
        }
    }
}

proof fn lemma_member_within(m: Seq<(Seq<char>, Json)>, i: int)
    requires
        0 <= i < m.len(),
    ensures
        within(m[i].1, Json::Object(m)),
{
    lemma_within_members(m[i].1, m);
    assert(within(m[i].1, m[i].1));
}

proof fn lemma_within_trans(x: Json, y: Json, z: Json)
    requires
        within(x, y),
        within(y, z),
    ensures
        within(x, z),
    decreases z,
{
    if y != z {
        match z {
            Json::Object(m) => {
                lemma_within_members(y, m);
                let i = choose|i: int| 0 <= i < m.len() && within(y, #[trigger] m[i].1);
                assert(decreases_to!(z => m));
                assert(decreases_to!(m => m[i]));
                assert(decreases_to!(m[i] => m[i].1));
                lemma_within_trans(x, y, m[i].1);
                lemma_within_members(x, m);
            },
            _ => {},
        }
    }
}

proof fn lemma_diff_real(path: Seq<char>, old: Json, new: Json)
    ensures
        forall|i: int|
            0 <= i < json_diff(path, old, new).len() ==> diff_is_real(
                #[trigger] json_diff(path, old, new)[i],
                old,
                new,
            ),
    decreases old,
{
    if old != new {
        match (old, new) {
            (Json::Object(om), Json::Object(nm)) => {
                assert forall|q: int| 0 <= q < om.len() implies within(#[trigger] om[q].1, old) by {
                    lemma_member_within(om, q);
                }
                assert forall|q: int| 0 <= q < nm.len() implies within(#[trigger] nm[q].1, new) by {
                    lemma_member_within(nm, q);
                }
                assert(decreases_to!(old => om));
                lemma_old_members_real(path, om, nm, old, new);
                lemma_added_real(path, om, nm, old, new);
                let a = old_member_diffs(path, om, nm);
                let b = added_member_diffs(path, om, nm);
                assert(json_diff(path, old, new) == a + b);
                assert forall|i: int| 0 <= i < (a + b).len() implies diff_is_real(
                    #[trigger] (a + b)[i],
                    old,
                    new,
                ) by {
                    if i < a.len() {
                        assert((a + b)[i] == a[i]);
                    } else {
                        assert((a + b)[i] == b[i - a.len()]);
                    }
                }
            },
            _ => {
                assert(json_diff(path, old, new) == seq![(path, old, new)]);
                assert(within(old, old) && within(new, new));
            },
        }
    }
}

proof fn lemma_old_members_real(
    path: Seq<char>,
    om: Seq<(Seq<char>, Json)>,
    nm: Seq<(Seq<char>, Json)>,
    old: Json,
    new: Json,
)
    requires
        forall|q: int| 0 <= q < om.len() ==> within(#[trigger] om[q].1, old),
        forall|q: int| 0 <= q < nm.len() ==> within(#[trigger] nm[q].1, new),
    ensures
        forall|i: int|
            0 <= i < old_member_diffs(path, om, nm).len() ==> diff_is_real(
                #[trigger] old_member_diffs(path, om, nm)[i],
                old,
                new,
            ),
    decreases om,
{
    if om.len() > 0 {
        let d = om.drop_last();
        assert forall|q: int| 0 <= q < d.len() implies within(#[trigger] d[q].1, old) by {
            assert(d[q] == om[q]);
        }
        lemma_old_members_real(path, d, nm, old, new);
        let e = om.last();
        assert(e == om[om.len() - 1]);
        let fp = field_path(path, e.0);
        let head = old_member_diffs(path, d, nm);
        let tail = match member(nm, e.0) {
            Some(nv) => json_diff(fp, e.1, nv),
            None => seq![(fp, e.1, Json::Null)],
        };
        assert(old_member_diffs(path, om, nm) == head + tail);
        assert forall|i: int| 0 <= i < tail.len() implies diff_is_real(#[trigger] tail[i], old, new) by {
            match member(nm, e.0) {
                Some(nv) => {
                    lemma_member_some(nm, e.0);
                    let j = choose|j: int| 0 <= j < nm.len() && #[trigger] nm[j] == (e.0, nv);
                    assert(within(nm[j].1, new));
                    assert(decreases_to!(om => om[om.len() - 1]));
                    lemma_diff_real(fp, e.1, nv);
                    let t = tail[i];
                    assert(diff_is_real(t, e.1, nv));
                    if t.1 != Json::Null {
                        lemma_within_trans(t.1, e.1, old);
                    }
                    if t.2 != Json::Null {
                        lemma_within_trans(t.2, nv, new);
                    }
                },
                None => {},
            }
        }
        assert forall|i: int| 0 <= i < (head + tail).len() implies diff_is_real(
            #[trigger] (head + tail)[i],
            old,
            new,
        ) by {
            if i < head.len() {
                assert((head + tail)[i] == head[i]);
            } else {
                assert((head + tail)[i] == tail[i - head.len()]);
            }
        }
    }
}

proof fn lemma_added_real(
    path: Seq<char>,
    om: Seq<(Seq<char>, Json)>,
    nm: Seq<(Seq<char>, Json)>,
    old: Json,
    new: Json,
)
    requires
        forall|q: int| 0 <= q < nm.len() ==> within(#[trigger] nm[q].1, new),
    ensures
        forall|i: int|
            0 <= i < added_member_diffs(path, om, nm).len() ==> diff_is_real(
                #[trigger] added_member_diffs(path, om, nm)[i],
                old,
                new,
            ),
    decreases nm.len(),
{
    if nm.len() > 0 {
        let d = nm.drop_last();
        assert forall|q: int| 0 <= q < d.len() implies within(#[trigger] d[q].1, new) by {
            assert(d[q] == nm[q]);
        }
        lemma_added_real(path, om, d, old, new);
        let e = nm.last();
        assert(e == nm[nm.len() - 1]);
        assert(within(e.1, new));
        let prev = added_member_diffs(path, om, d);
        let res = added_member_diffs(path, om, nm);
        if member(om, e.0) is None {
            assert(res == prev.push((field_path(path, e.0), Json::Null, e.1)));
            assert forall|i: int| 0 <= i < res.len() implies diff_is_real(#[trigger] res[i], old, new) by {
                if i < prev.len() {
                    assert(res[i] == prev[i]);
                }
            }
        } else {
            assert(res == prev);
        }
    }
}

/// Every reported difference is real and read from the two documents: its old value lies
/// in the old document (null for a field only the new one has), its new value lies in the
/// new document (null for a field only the old one has), and the two values differ unless
/// both are null.
pub proof fn law_diffs_are_real(path: Seq<char>, old: Json, new: Json)
    ensures
        forall|i: int|
            0 <= i < json_diff(path, old, new).len() ==> diff_is_real(
                #[trigger] json_diff(path, old, new)[i],
                old,
                new,
            ),
{
    lemma_diff_real(path, old, new);
}

} // verus!
