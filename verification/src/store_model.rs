//! The slot store's tables as mathematical values, what each write does to them, what
//! each read returns, and the round trips through them: a stored snapshot read back,
//! the first-seen times after a snapshot, the catalog after an update, and the runtime
//! state after a save.
use vstd::prelude::*;
use crate::keyed::{collapse, entry_keys, key_set, last_value, lemma_collapse};
use crate::keys::klt;
use crate::models::{BranchV, SlotV};
use crate::order::{ascending, lemma_ascending_props, strictly_sorted};
use crate::state::{
    branches_at, catalog_key, catalog_listing, first_per_code, first_seen_entries, has_code,
    CatalogEntryV, grouped_slots, point_set, row_branch, row_slot_key,
    runtime_text, slot_entries, slot_key, stored_points, SlotRowV,
};
use crate::text::{lemma_key_order, text_lt};

verus! {

/// A row of the branch catalog, keyed by branch code.
pub struct CatalogRowV {
    pub name: Seq<char>,
    pub address_cn: Seq<char>,
    pub tel_no: Seq<char>,
    pub enabled: bool,
    pub updated_at: Seq<char>,
}

/// A row of the event log.
pub struct EventV {
    pub at: Seq<char>,
    /// `true` for an `appeared` event, `false` for a `disappeared` one.
    pub appeared: bool,
    /// Branch code, date, time.
    pub key: Seq<Seq<char>>,
}

/// The store: the branch catalog, the current points with the time each was first seen,
/// the event log in insertion order, and the stored `last_release_at` value.
pub struct StoreV {
    pub branches: Map<Seq<char>, CatalogRowV>,
    pub current: Map<Seq<Seq<char>>, Seq<char>>,
    pub events: Seq<EventV>,
    pub last_release_at: Option<Seq<char>>,
}

/// The catalog row that writing branch `b` at time `t` leaves: name, address and
/// telephone from `b`, the time `t`, and the enabled flag kept (a new row is enabled).
pub open spec fn upserted_row(br: Map<Seq<char>, CatalogRowV>, b: BranchV, t: Seq<char>) -> CatalogRowV {
    CatalogRowV {
        name: b.name,
        address_cn: b.address_cn,
        tel_no: b.tel_no,
        enabled: if br.dom().contains(b.code) { br[b.code].enabled } else { true },
        updated_at: t,
    }
}

/// The catalog after writing the branches `bs` in order at time `t`.
pub open spec fn upsert_all(br: Map<Seq<char>, CatalogRowV>, bs: Seq<BranchV>, t: Seq<char>) -> Map<
    Seq<char>,
    CatalogRowV,
>
    decreases bs.len(),
{
    if bs.len() == 0 {
        br
    } else {
        let prev = upsert_all(br, bs.drop_last(), t);
        prev.insert(bs.last().code, upserted_row(prev, bs.last(), t))
    }
}

/// One event per key, all at time `t` and of one kind.
pub open spec fn events_for(keys: Seq<Seq<Seq<char>>>, t: Seq<char>, appeared: bool) -> Seq<EventV> {
    keys.map_values(|k: Seq<Seq<char>>| EventV { at: t, appeared, key: k })
}

/// The earliest time of an `appeared` event for `k` (texts compared by code point, as the
/// store compares them), if there is one.
pub open spec fn first_appeared(evs: Seq<EventV>, k: Seq<Seq<char>>) -> Option<Seq<char>>
    decreases evs.len(),
{
    if evs.len() == 0 {
        None
    } else {
        let before = first_appeared(evs.drop_last(), k);
        let e = evs.last();
        if e.appeared && e.key == k {
            match before {
                None => Some(e.at),
                Some(a) => Some(if text_lt(e.at, a) { e.at } else { a }),
            }
        } else {
            before
        }
    }
}

/// The store after writing a snapshot plan at time `t`: the branches written into the
/// catalog, an `appeared` event per appeared key and a `disappeared` event per vanished
/// key appended to the log, and the current points replaced by `current`, each first seen
/// at its earliest `appeared` event, or at `t` when the log has none.
pub open spec fn apply_plan(
    s: StoreV,
    branches: Seq<BranchV>,
    appeared: Seq<Seq<Seq<char>>>,
    disappeared: Seq<Seq<Seq<char>>>,
    current: Seq<Seq<Seq<char>>>,
    t: Seq<char>,
) -> StoreV {
    let events = s.events + events_for(appeared, t, true) + events_for(disappeared, t, false);
    StoreV {
        branches: upsert_all(s.branches, branches, t),
        current: Map::new(
            |k: Seq<Seq<char>>| current.contains(k),
            |k: Seq<Seq<char>>|
                match first_appeared(events, k) {
                    Some(a) => a,
                    None => t,
                },
        ),
        events,
        last_release_at: s.last_release_at,
    }
}

/// The store after a catalog update at time `t` writes the branches `bs`.
pub open spec fn apply_catalog(s: StoreV, bs: Seq<BranchV>, t: Seq<char>) -> StoreV {
    StoreV { branches: upsert_all(s.branches, bs, t), ..s }
}

/// The store after saving `v` as `last_release_at`.
pub open spec fn save_runtime(s: StoreV, v: Seq<char>) -> StoreV {
    StoreV { last_release_at: Some(v), ..s }
}

/// The store after the runtime state is read: an empty `last_release_at` is stored first
/// when none is.
pub open spec fn touch_runtime(s: StoreV) -> StoreV {
    match s.last_release_at {
        Some(_) => s,
        None => StoreV { last_release_at: Some(Seq::<char>::empty()), ..s },
    }
}

/// What reading the runtime state finds stored (after `touch_runtime`).
pub open spec fn runtime_row(s: StoreV) -> Option<Seq<char>> {
    touch_runtime(s).last_release_at
}

/// A point that the current-slot reads list: current, with its branch in the catalog
/// and enabled.
pub open spec fn listed_point(s: StoreV, k: Seq<Seq<char>>) -> bool {
    &&& s.current.dom().contains(k)
    &&& s.branches.dom().contains(k[0])
    &&& s.branches[k[0]].enabled
}

/// The store after `new` is stored over `old` at time `t`: the writes that
/// `plan_snapshot_diff` computes for the two snapshots, applied.
pub open spec fn persisted(s: StoreV, old: Seq<SlotV>, new: Seq<SlotV>, t: Seq<char>) -> StoreV {
    apply_plan(
        s,
        stored_points(new).map_values(|e: (Seq<Seq<char>>, BranchV)| e.1),
        ascending(point_set(new).difference(point_set(old)), klt()),
        ascending(point_set(old).difference(point_set(new)), klt()),
        ascending(point_set(new), klt()),
        t,
    )
}

/// The codes of `new` that the catalog already holds are enabled there.
pub open spec fn codes_enabled(s: StoreV, new: Seq<SlotV>) -> bool {
    forall|k: Seq<Seq<char>>|
        #[trigger] point_set(new).contains(k) && s.branches.dom().contains(k[0])
            ==> s.branches[k[0]].enabled
}

/// `es` are the rows the first-seen read returns: (key, first seen) for each listed
/// point, in any order.
pub open spec fn first_seen_read(s: StoreV, es: Seq<(Seq<Seq<char>>, Seq<char>)>) -> bool {
    &&& forall|i: int|
        0 <= i < es.len() ==> listed_point(s, #[trigger] es[i].0) && es[i].1 == s.current[es[i].0]
    &&& forall|k: Seq<Seq<char>>|
        #[trigger] listed_point(s, k) ==> exists|i: int| 0 <= i < es.len() && es[i].0 == k
}

proof fn lemma_first_appeared_suffix_none(a: Seq<EventV>, b: Seq<EventV>, k: Seq<Seq<char>>)
    requires
        first_appeared(b, k) is None,
    ensures
        first_appeared(a + b, k) == first_appeared(a, k),
    decreases b.len(),
{
    if b.len() == 0 {
        assert(a + b =~= a);
    } else {
        assert((a + b).drop_last() =~= a + b.drop_last());
        assert((a + b).last() == b.last());
        lemma_first_appeared_suffix_none(a, b.drop_last(), k);
    }
}

proof fn lemma_first_appeared_prefix_none(a: Seq<EventV>, b: Seq<EventV>, k: Seq<Seq<char>>)
    requires
        first_appeared(a, k) is None,
    ensures
        first_appeared(a + b, k) == first_appeared(b, k),
    decreases b.len(),
{
    if b.len() == 0 {
        assert(a + b =~= a);
    } else {
        assert((a + b).drop_last() =~= a + b.drop_last());
        assert((a + b).last() == b.last());
        lemma_first_appeared_prefix_none(a, b.drop_last(), k);
    }
}

proof fn lemma_events_for(keys: Seq<Seq<Seq<char>>>, t: Seq<char>, appeared: bool, k: Seq<Seq<char>>)
    ensures
        first_appeared(events_for(keys, t, appeared), k) == if appeared && keys.contains(k) {
            Some(t)
        } else {
            None
        },
    decreases keys.len(),
{
    if keys.len() > 0 {
        let d = keys.drop_last();
        assert(events_for(keys, t, appeared).drop_last() =~= events_for(d, t, appeared));
        lemma_events_for(d, t, appeared, k);
        if keys.contains(k) && keys.last() != k {
            let w = choose|w: int| 0 <= w < keys.len() && keys[w] == k;
            assert(d[w] == k);
        }
        if d.contains(k) {
            let w = choose|w: int| 0 <= w < d.len() && d[w] == k;
            assert(keys[w] == k);
        }
        if keys.last() == k {
            assert(keys[keys.len() - 1] == k);
        }
    }
}

/// Every entry of a snapshot is keyed by its branch's code, then date and time.
proof fn lemma_slot_entry_codes(ds: Seq<SlotV>)
    ensures
        forall|i: int|
            0 <= i < slot_entries(ds).len() ==> (#[trigger] slot_entries(ds)[i]).0.len() == 3
                && slot_entries(ds)[i].0[0] == slot_entries(ds)[i].1.code,
    decreases ds.len(),
{
    if ds.len() > 0 {
        lemma_slot_entry_codes(ds.drop_last());
        let p = slot_entries(ds.drop_last());
        let tl = ds.last().branches.map_values(
            |b: BranchV| (slot_key(ds.last(), b), b),
        );
        assert forall|i: int| 0 <= i < slot_entries(ds).len() implies (
        #[trigger] slot_entries(ds)[i]).0.len() == 3 && slot_entries(ds)[i].0[0]
            == slot_entries(ds)[i].1.code by {
            if i < p.len() {
                assert(slot_entries(ds)[i] == p[i]);
            } else {
                assert(slot_entries(ds)[i] == tl[i - p.len()]);
            }
        }
    }
}

/// A key that occurs has its last value at some entry with that key.
proof fn lemma_last_value_found<W>(es: Seq<(Seq<Seq<char>>, W)>, k: Seq<Seq<char>>)
    requires
        key_set(es).contains(k),
    ensures
        exists|j: int| 0 <= j < es.len() && es[j].0 == k && es[j].1 == last_value(es, k),
    decreases es.len(),
{
    let w = choose|w: int| 0 <= w < entry_keys(es).len() && entry_keys(es)[w] == k;
    if es.last().0 == k {
        assert(es[es.len() - 1].0 == k);
    } else {
        let d = es.drop_last();
        assert(w != es.len() - 1);
        assert(entry_keys(d)[w] == k);
        assert(key_set(d).contains(k));
        lemma_last_value_found(d, k);
        let j = choose|j: int| 0 <= j < d.len() && d[j].0 == k && d[j].1 == last_value(d, k);
        assert(es[j] == d[j]);
    }
}

/// The catalog after writing `bs`: every code of `bs` is in it, enabled as before (new
/// codes enabled), and a code written last at position `i` holds `bs[i]`'s fields.
proof fn lemma_upsert_all(br: Map<Seq<char>, CatalogRowV>, bs: Seq<BranchV>, t: Seq<char>)
    ensures
        forall|i: int| 0 <= i < bs.len() ==> upsert_all(br, bs, t).dom().contains(#[trigger] bs[i].code),
        forall|c: Seq<char>| #[trigger] br.dom().contains(c) ==> upsert_all(br, bs, t).dom().contains(c),
        forall|c: Seq<char>| #[trigger] upsert_all(br, bs, t).dom().contains(c)
            ==> br.dom().contains(c) || exists|i: int| 0 <= i < bs.len() && bs[i].code == c,
        forall|c: Seq<char>| #[trigger] upsert_all(br, bs, t).dom().contains(c)
            ==> upsert_all(br, bs, t)[c].enabled == if br.dom().contains(c) { br[c].enabled } else { true },
        forall|i: int|
            0 <= i < bs.len() && (forall|j: int| i < j < bs.len() ==> bs[j].code != bs[i].code)
                ==> upsert_all(br, bs, t)[#[trigger] bs[i].code] == upserted_row(br, bs[i], t),
    decreases bs.len(),
{
    if bs.len() > 0 {
        let d = bs.drop_last();
        lemma_upsert_all(br, d, t);
        let prev = upsert_all(br, d, t);
        let res = upsert_all(br, bs, t);
        assert forall|i: int| 0 <= i < bs.len() implies res.dom().contains(#[trigger] bs[i].code) by {
            if i < d.len() {
                assert(bs[i] == d[i]);
                assert(prev.dom().contains(d[i].code));
            }
        }
        assert forall|c: Seq<char>| #[trigger] res.dom().contains(c) implies br.dom().contains(c)
            || exists|i: int| 0 <= i < bs.len() && bs[i].code == c by {
            if c == bs.last().code {
                assert(bs[bs.len() - 1].code == c);
            } else {
                assert(prev.dom().contains(c));
                if !br.dom().contains(c) {
                    let i = choose|i: int| 0 <= i < d.len() && d[i].code == c;
                    assert(bs[i].code == c);
                }
            }
        }
        assert forall|i: int|
            0 <= i < bs.len() && (forall|j: int| i < j < bs.len() ==> bs[j].code != bs[i].code)
                implies res[#[trigger] bs[i].code] == upserted_row(br, bs[i], t) by {
            if i < d.len() {
                assert(bs[i] == d[i]);
                assert(bs[bs.len() - 1].code != bs[i].code);
                assert forall|j: int| i < j < d.len() implies d[j].code != d[i].code by {
                    assert(bs[j] == d[j]);
                }
            } else {
                assert(bs[i] == bs.last());
                if !prev.dom().contains(bs[i].code) {
                    assert(!br.dom().contains(bs[i].code));
                }
            }
        }
    }
}

/// After `new` is stored over `old`, the listed points are exactly the points of `new`.
proof fn lemma_listed_after_persist(s: StoreV, old: Seq<SlotV>, new: Seq<SlotV>, t: Seq<char>)
    requires
        codes_enabled(s, new),
    ensures
        forall|k: Seq<Seq<char>>|
            listed_point(persisted(s, old, new, t), k) <==> #[trigger] point_set(new).contains(k),
{
    let s2 = persisted(s, old, new, t);
    let es = slot_entries(new);
    let sp = stored_points(new);
    let bs = sp.map_values(|e: (Seq<Seq<char>>, BranchV)| e.1);
    let pn = point_set(new);
    lemma_key_order();
    vstd::seq_lib::seq_to_set_is_finite(entry_keys(es));
    lemma_ascending_props(pn, klt());
    lemma_collapse(es);
    lemma_slot_entry_codes(new);
    lemma_upsert_all(s.branches, bs, t);
    assert forall|k: Seq<Seq<char>>| listed_point(s2, k) <==> #[trigger] pn.contains(k) by {
        assert(ascending(pn, klt()).to_set().contains(k) == ascending(pn, klt()).contains(k));
        assert(s2.current.dom().contains(k) == ascending(pn, klt()).contains(k));
        if pn.contains(k) {
            assert(key_set(sp).contains(k));
            let i = choose|i: int| 0 <= i < entry_keys(sp).len() && entry_keys(sp)[i] == k;
            assert(sp[i].0 == k);
            assert(sp[i].1 == last_value(es, k));
            lemma_last_value_found(es, k);
            let j = choose|j: int| 0 <= j < es.len() && es[j].0 == k && es[j].1 == last_value(es, k);
            assert(slot_entries(new)[j].0[0] == slot_entries(new)[j].1.code);
            assert(bs[i].code == k[0]);
            assert(s2.branches.dom().contains(bs[i].code));
            if s.branches.dom().contains(k[0]) {
                assert(s.branches[k[0]].enabled);
            }
        }
    }
}

/// The key of the point a current-slot row describes: branch code, date, time.
pub open spec fn row_point(r: SlotRowV) -> Seq<Seq<char>> {
    seq![r.code, r.date, r.time]
}

/// `rows` are the rows the current-slot read returns: one per listed point, in any order,
/// each with its branch's catalog fields.
pub open spec fn current_rows_read(s: StoreV, rows: Seq<SlotRowV>) -> bool {
    &&& forall|i: int|
        0 <= i < rows.len() ==> {
            &&& listed_point(s, #[trigger] row_point(rows[i]))
            &&& rows[i].name == s.branches[rows[i].code].name
            &&& rows[i].address_cn == s.branches[rows[i].code].address_cn
            &&& rows[i].tel_no == s.branches[rows[i].code].tel_no
        }
    &&& forall|k: Seq<Seq<char>>|
        #[trigger] listed_point(s, k) ==> exists|i: int| 0 <= i < rows.len() && row_point(rows[i]) == k
}

proof fn lemma_slot_entries_member(ds: Seq<SlotV>, x: Seq<Seq<char>>)
    ensures
        key_set(slot_entries(ds)).contains(x) <==> exists|i: int, j: int|
            0 <= i < ds.len() && 0 <= j < ds[i].branches.len() && x == #[trigger] slot_key(
                ds[i],
                ds[i].branches[j],
            ),
    decreases ds.len(),
{
    if ds.len() > 0 {
        let d = ds.drop_last();
        let p = slot_entries(d);
        let tl = ds.last().branches.map_values(|b: BranchV| (slot_key(ds.last(), b), b));
        let es = slot_entries(ds);
        assert(es == p + tl);
        lemma_slot_entries_member(d, x);
        if key_set(es).contains(x) {
            let w = choose|w: int| 0 <= w < entry_keys(es).len() && entry_keys(es)[w] == x;
            if w < p.len() {
                assert(es[w] == p[w]);
                assert(entry_keys(p)[w] == x);
                assert(key_set(p).contains(x));
                let (i, j) = choose|i: int, j: int|
                    0 <= i < d.len() && 0 <= j < d[i].branches.len() && x == #[trigger] slot_key(
                        d[i],
                        d[i].branches[j],
                    );
                assert(ds[i] == d[i]);
            } else {
                let j = w - p.len();
                assert(es[w] == tl[j]);
                assert(x == slot_key(ds[ds.len() - 1], ds[ds.len() - 1].branches[j]));
            }
        }
        if exists|i: int, j: int|
            0 <= i < ds.len() && 0 <= j < ds[i].branches.len() && x == #[trigger] slot_key(
                ds[i],
                ds[i].branches[j],
            ) {
            let (i, j) = choose|i: int, j: int|
                0 <= i < ds.len() && 0 <= j < ds[i].branches.len() && x == #[trigger] slot_key(
                    ds[i],
                    ds[i].branches[j],
                );
            if i < d.len() {
                assert(d[i] == ds[i]);
                assert(x == slot_key(d[i], d[i].branches[j]));
                assert(key_set(p).contains(x));
                let w = choose|w: int| 0 <= w < entry_keys(p).len() && entry_keys(p)[w] == x;
                assert(es[w] == p[w]);
                assert(entry_keys(es)[w] == x);
            } else {
                let w = p.len() + j;
                assert(es[w] == tl[j]);
                assert(entry_keys(es)[w] == x);
            }
        }
    }
}

/// The row that the `j`-th branch listed at `k` comes from.
proof fn lemma_branch_source(rs: Seq<SlotRowV>, k: Seq<Seq<char>>, j: int) -> (r: int)
    requires
        0 <= j < branches_at(rs, k).len(),
    ensures
        0 <= r < rs.len(),
        row_slot_key(rs[r]) == k,
        branches_at(rs, k)[j] == row_branch(rs[r]),
    decreases rs.len(),
{
    let d = rs.drop_last();
    if row_slot_key(rs.last()) == k && j == branches_at(d, k).len() {
        rs.len() - 1
    } else {
        let r = lemma_branch_source(d, k, j);
        assert(rs[r] == d[r]);
        r
    }
}

/// Where the branch of a row at `k` is listed among the branches at `k`.
proof fn lemma_branch_target(rs: Seq<SlotRowV>, k: Seq<Seq<char>>, r: int) -> (j: int)
    requires
        0 <= r < rs.len(),
        row_slot_key(rs[r]) == k,
    ensures
        0 <= j < branches_at(rs, k).len(),
        branches_at(rs, k)[j] == row_branch(rs[r]),
    decreases rs.len(),
{
    let d = rs.drop_last();
    if r == rs.len() - 1 {
        branches_at(d, k).len() as int
    } else {
        assert(rs[r] == d[r]);
        let j = lemma_branch_target(d, k, r);
        assert(branches_at(rs, k)[j] == branches_at(d, k)[j]);
        j
    }
}

/// The points of the slots grouped from `rows` are the points the rows describe.
proof fn lemma_grouped_points(rows: Seq<SlotRowV>)
    ensures
        forall|x: Seq<Seq<char>>|
            #[trigger] point_set(grouped_slots(rows)).contains(x) <==> exists|i: int|
                0 <= i < rows.len() && row_point(rows[i]) == x,
{
    let g = grouped_slots(rows);
    let rk = rows.map_values(|r: SlotRowV| row_slot_key(r));
    let ks = rk.to_set();
    let a = ascending(ks, klt());
    lemma_key_order();
    vstd::seq_lib::seq_to_set_is_finite(rk);
    lemma_ascending_props(ks, klt());
    assert forall|x: Seq<Seq<char>>|
        #[trigger] point_set(g).contains(x) <==> exists|i: int|
            0 <= i < rows.len() && row_point(rows[i]) == x by {
        lemma_slot_entries_member(g, x);
        if point_set(g).contains(x) {
            let (i, j) = choose|i: int, j: int|
                0 <= i < g.len() && 0 <= j < g[i].branches.len() && x == #[trigger] slot_key(
                    g[i],
                    g[i].branches[j],
                );
            assert(g[i].branches[j] == branches_at(rows, a[i])[j]);
            let r = lemma_branch_source(rows, a[i], j);
            assert(row_point(rows[r]) =~= x);
        }
        if exists|i: int| 0 <= i < rows.len() && row_point(rows[i]) == x {
            let r = choose|r: int| 0 <= r < rows.len() && row_point(rows[r]) == x;
            let k = row_slot_key(rows[r]);
            assert(rk[r] == k);
            assert(ks.contains(k));
            assert(a.to_set().contains(k));
            let i = choose|i: int| 0 <= i < a.len() && a[i] == k;
            let j = lemma_branch_target(rows, k, r);
            assert(g[i].branches[j] == row_branch(rows[r]));
            assert(x =~= slot_key(g[i], g[i].branches[j]));
        }
    }
}

/// A branch read back at slot `s` is what row `r` stores: the row's date and time are the
/// slot's, and its code, name, address and telephone are the branch's, whose status is `A`.
pub open spec fn row_gives(r: SlotRowV, s: SlotV, b: BranchV) -> bool {
    &&& r.date == s.date
    &&& r.time == s.time
    &&& r.code == b.code
    &&& r.name == b.name
    &&& r.address_cn == b.address_cn
    &&& r.tel_no == b.tel_no
    &&& b.status == seq!['A']
}

/// Reading back the current slots changes no stored field: every branch of every slot
/// read is what some stored row gives at that slot's date and time, and every row is
/// read back so.
pub proof fn law_current_slot_branches_are_rows(rows: Seq<SlotRowV>)
    ensures
        forall|i: int, j: int|
            0 <= i < grouped_slots(rows).len() && 0 <= j < grouped_slots(rows)[i].branches.len()
                ==> exists|r: int|
                0 <= r < rows.len() && row_gives(
                    rows[r],
                    grouped_slots(rows)[i],
                    #[trigger] grouped_slots(rows)[i].branches[j],
                ),
        forall|r: int|
            0 <= r < rows.len() ==> exists|i: int, j: int|
                0 <= i < grouped_slots(rows).len() && 0 <= j < grouped_slots(rows)[i].branches.len()
                    && row_gives(
                    #[trigger] rows[r],
                    grouped_slots(rows)[i],
                    grouped_slots(rows)[i].branches[j],
                ),
{
    let g = grouped_slots(rows);
    let rk = rows.map_values(|r: SlotRowV| row_slot_key(r));
    let ks = rk.to_set();
    let a = ascending(ks, klt());
    lemma_key_order();
    vstd::seq_lib::seq_to_set_is_finite(rk);
    lemma_ascending_props(ks, klt());
    assert forall|i: int, j: int|
        0 <= i < g.len() && 0 <= j < g[i].branches.len() implies exists|r: int|
        0 <= r < rows.len() && row_gives(rows[r], g[i], #[trigger] g[i].branches[j]) by {
        assert(g[i].branches[j] == branches_at(rows, a[i])[j]);
        let r = lemma_branch_source(rows, a[i], j);
        assert(row_slot_key(rows[r]) == a[i]);
        assert(row_gives(rows[r], g[i], g[i].branches[j]));
    }
    assert forall|r: int| 0 <= r < rows.len() implies exists|i: int, j: int|
        0 <= i < g.len() && 0 <= j < g[i].branches.len() && row_gives(
            #[trigger] rows[r],
            g[i],
            g[i].branches[j],
        ) by {
        let k = row_slot_key(rows[r]);
        assert(rk[r] == k);
        assert(ks.contains(k));
        assert(a.to_set().contains(k));
        let i = choose|i: int| 0 <= i < a.len() && a[i] == k;
        let j = lemma_branch_target(rows, k, r);
        assert(g[i].branches[j] == row_branch(rows[r]));
        assert(row_gives(rows[r], g[i], g[i].branches[j]));
    }
}

/// Storing a snapshot and reading back the current slots: with no code of `new` disabled
/// in the catalog, the slots read hold exactly the points (branch code, date, time) of `new`.
pub proof fn law_current_slots_after_persist(
    s: StoreV,
    old: Seq<SlotV>,
    new: Seq<SlotV>,
    t: Seq<char>,
    rows: Seq<SlotRowV>,
)
    requires
        codes_enabled(s, new),
        current_rows_read(persisted(s, old, new, t), rows),
    ensures
        point_set(grouped_slots(rows)) == point_set(new),
{
    let s2 = persisted(s, old, new, t);
    lemma_listed_after_persist(s, old, new, t);
    lemma_grouped_points(rows);
    assert forall|x: Seq<Seq<char>>|
        point_set(grouped_slots(rows)).contains(x) <==> #[trigger] point_set(new).contains(x) by {
        if point_set(grouped_slots(rows)).contains(x) {
            let i = choose|i: int| 0 <= i < rows.len() && row_point(rows[i]) == x;
            assert(listed_point(s2, row_point(rows[i])));
        }
        if point_set(new).contains(x) {
            assert(listed_point(s2, x));
        }
    }
    assert(point_set(grouped_slots(rows)) =~= point_set(new));
}

/// Storing a snapshot and reading back the first-seen times: with no code of `new`
/// disabled in the catalog, the times read are keyed by exactly the points of `new`, and a
/// point of `new` that was not in `old` and had no `appeared` event before was first seen
/// at the time of the store.
pub proof fn law_first_seen_after_persist(
    s: StoreV,
    old: Seq<SlotV>,
    new: Seq<SlotV>,
    t: Seq<char>,
    rows: Seq<(String, String, String, String)>,
    k: Seq<Seq<char>>,
)
    requires
        codes_enabled(s, new),
        first_seen_read(persisted(s, old, new, t), first_seen_entries(rows)),
    ensures
        key_set(collapse(first_seen_entries(rows))) == point_set(new),
        point_set(new).contains(k) && !point_set(old).contains(k) && first_appeared(s.events, k)
            is None ==> forall|i: int|
            0 <= i < collapse(first_seen_entries(rows)).len() && #[trigger] collapse(
                first_seen_entries(rows),
            )[i].0 == k ==> collapse(first_seen_entries(rows))[i].1 == t,
{
    let fe = first_seen_entries(rows);
    let s2 = persisted(s, old, new, t);
    let pn = point_set(new);
    let po = point_set(old);
    lemma_listed_after_persist(s, old, new, t);
    lemma_collapse(fe);
    assert(key_set(fe) =~= pn) by {
        assert forall|x: Seq<Seq<char>>| key_set(fe).contains(x) <==> pn.contains(x) by {
            if key_set(fe).contains(x) {
                let w = choose|w: int| 0 <= w < entry_keys(fe).len() && entry_keys(fe)[w] == x;
                assert(fe[w].0 == x);
                assert(listed_point(s2, fe[w].0));
            }
            if pn.contains(x) {
                assert(listed_point(s2, x));
                let w = choose|w: int| 0 <= w < fe.len() && fe[w].0 == x;
                assert(entry_keys(fe)[w] == x);
            }
        }
    }
    if pn.contains(k) && !po.contains(k) && first_appeared(s.events, k) is None {
        lemma_key_order();
        vstd::seq_lib::seq_to_set_is_finite(entry_keys(slot_entries(new)));
        lemma_ascending_props(pn.difference(po), klt());
        let app = ascending(pn.difference(po), klt());
        let dis = ascending(po.difference(pn), klt());
        assert(app.to_set().contains(k));
        lemma_events_for(app, t, true, k);
        lemma_events_for(dis, t, false, k);
        let a = s.events + events_for(app, t, true);
        lemma_first_appeared_suffix_none(a, events_for(dis, t, false), k);
        lemma_first_appeared_prefix_none(s.events, events_for(app, t, true), k);
        assert(first_appeared(s2.events, k) == Some(t));
        assert(listed_point(s2, k));
        assert(s2.current[k] == t);
        assert forall|i: int|
            0 <= i < collapse(fe).len() && #[trigger] collapse(fe)[i].0 == k implies collapse(
                fe,
            )[i].1 == t by {
            lemma_last_value_found(fe, k);
            let j = choose|j: int| 0 <= j < fe.len() && fe[j].0 == k && fe[j].1 == last_value(fe, k);
            assert(listed_point(s2, fe[j].0));
        }
    }
}

/// A catalog entry as the catalog read returns it holds its row's fields.
pub open spec fn entry_holds(e: CatalogEntryV, row: CatalogRowV) -> bool {
    &&& e.name == row.name
    &&& e.address_cn == row.address_cn
    &&& e.tel_no == row.tel_no
    &&& e.is_enabled == row.enabled
    &&& e.updated_at == row.updated_at
}

/// `es` are the rows the catalog read returns: one per catalog row, in any order.
pub open spec fn catalog_read(s: StoreV, es: Seq<CatalogEntryV>) -> bool {
    &&& forall|i: int|
        0 <= i < es.len() ==> s.branches.dom().contains(#[trigger] es[i].code) && entry_holds(
            es[i],
            s.branches[es[i].code],
        )
    &&& forall|i: int, j: int| 0 <= i < j < es.len() ==> #[trigger] es[i].code != #[trigger] es[j].code
    &&& forall|c: Seq<char>|
        #[trigger] s.branches.dom().contains(c) ==> exists|i: int| 0 <= i < es.len() && es[i].code == c
}

/// The first branch of each code: no code twice, each taken from the list.
proof fn lemma_first_per_code(bs: Seq<BranchV>)
    ensures
        forall|i: int, j: int|
            0 <= i < j < first_per_code(bs).len() ==> #[trigger] first_per_code(bs)[i].code
                != #[trigger] first_per_code(bs)[j].code,
        forall|i: int| 0 <= i < first_per_code(bs).len() ==> has_code(bs, #[trigger] first_per_code(bs)[i].code),
    decreases bs.len(),
{
    if bs.len() > 0 {
        let d = bs.drop_last();
        lemma_first_per_code(d);
        let fd = first_per_code(d);
        let f = first_per_code(bs);
        assert forall|i: int| 0 <= i < f.len() implies has_code(bs, #[trigger] f[i].code) by {
            if i < fd.len() {
                assert(f[i] == fd[i]);
                assert(has_code(d, fd[i].code));
                let w = choose|w: int| 0 <= w < d.len() && #[trigger] d[w].code == fd[i].code;
                assert(bs[w] == d[w]);
            } else {
                assert(bs[bs.len() - 1].code == f[i].code);
            }
        }
        if !has_code(d, bs.last().code) {
            assert forall|i: int, j: int| 0 <= i < j < f.len() implies #[trigger] f[i].code
                != #[trigger] f[j].code by {
                if j < fd.len() {
                    assert(f[i] == fd[i] && f[j] == fd[j]);
                } else {
                    assert(f[i] == fd[i]);
                    assert(has_code(d, fd[i].code));
                }
            }
        }
    }
}

/// The `p`-th entry of the listing is the read entry with the `p`-th listing key.
proof fn lemma_listing_entry(es: Seq<CatalogEntryV>, p: int) -> (j: int)
    requires
        0 <= p < catalog_listing(es).len(),
    ensures
        0 <= j < es.len(),
        catalog_listing(es)[p] == es[j],
        collapse(es.map_values(|e: CatalogEntryV| (catalog_key(e), e)))[p].0 == catalog_key(es[j]),
{
    let ke = es.map_values(|e: CatalogEntryV| (catalog_key(e), e));
    lemma_collapse(ke);
    let k = collapse(ke)[p].0;
    assert(entry_keys(collapse(ke))[p] == k);
    assert(key_set(ke).contains(k));
    lemma_last_value_found(ke, k);
    let j = choose|j: int| 0 <= j < ke.len() && ke[j].0 == k && ke[j].1 == last_value(ke, k);
    j
}

/// Updating the catalog with `bs` at time `t` and reading it back: the listing is strictly
/// in listing order (enabled first, then name, then code), and for the first branch of
/// each code in `bs` it holds exactly one entry with that code, with that branch's name,
/// address and telephone, and the time `t`.
pub proof fn law_catalog_after_update(
    s: StoreV,
    bs: Seq<BranchV>,
    t: Seq<char>,
    es: Seq<CatalogEntryV>,
    i: int,
)
    requires
        catalog_read(apply_catalog(s, first_per_code(bs), t), es),
        0 <= i < first_per_code(bs).len(),
    ensures
        strictly_sorted(catalog_listing(es).map_values(|e: CatalogEntryV| catalog_key(e)), klt()),
        exists|p: int|
            0 <= p < catalog_listing(es).len() && #[trigger] catalog_listing(es)[p].code
                == first_per_code(bs)[i].code && catalog_listing(es)[p].name == first_per_code(
                bs,
            )[i].name && catalog_listing(es)[p].address_cn == first_per_code(bs)[i].address_cn
                && catalog_listing(es)[p].tel_no == first_per_code(bs)[i].tel_no
                && catalog_listing(es)[p].updated_at == t,
        forall|p: int, q: int|
            0 <= p < catalog_listing(es).len() && 0 <= q < catalog_listing(es).len()
                && #[trigger] catalog_listing(es)[p].code == first_per_code(bs)[i].code
                && #[trigger] catalog_listing(es)[q].code == first_per_code(bs)[i].code ==> p == q,
{
    let fp = first_per_code(bs);
    let s2 = apply_catalog(s, fp, t);
    let ke = es.map_values(|e: CatalogEntryV| (catalog_key(e), e));
    let lst = catalog_listing(es);
    let c = fp[i].code;
    lemma_key_order();
    lemma_collapse(ke);
    lemma_first_per_code(bs);
    lemma_upsert_all(s.branches, fp, t);
    let ks = lst.map_values(|e: CatalogEntryV| catalog_key(e));
    assert forall|p: int| 0 <= p < ks.len() implies #[trigger] ks[p] == entry_keys(collapse(ke))[p] by {
        let j = lemma_listing_entry(es, p);
    }
    assert(ks =~= entry_keys(collapse(ke)));
    // The row written for `c`.
    assert forall|j: int| i < j < fp.len() implies fp[j].code != fp[i].code by {}
    assert(s2.branches[c] == upserted_row(s.branches, fp[i], t));
    assert(s2.branches.dom().contains(c));
    let m = choose|m: int| 0 <= m < es.len() && es[m].code == c;
    let k0 = catalog_key(es[m]);
    assert(entry_keys(ke)[m] == k0);
    assert(key_set(collapse(ke)).contains(k0));
    let p0 = choose|p0: int| 0 <= p0 < entry_keys(collapse(ke)).len() && entry_keys(collapse(ke))[p0] == k0;
    let j0 = lemma_listing_entry(es, p0);
    assert(es[j0].code == catalog_key(es[j0])[2]);
    assert(es[m].code == k0[2]);
    if j0 != m {
        if j0 < m {
            assert(es[j0].code != es[m].code);
        } else {
            assert(es[m].code != es[j0].code);
        }
    }
    assert(lst[p0] == es[m]);
    assert(entry_holds(es[m], s2.branches[es[m].code]));
    assert forall|p: int, q: int|
        0 <= p < lst.len() && 0 <= q < lst.len() && #[trigger] lst[p].code == c
            && #[trigger] lst[q].code == c implies p == q by {
        let jp = lemma_listing_entry(es, p);
        let jq = lemma_listing_entry(es, q);
        if jp < jq {
            assert(es[jp].code != es[jq].code);
        } else if jq < jp {
            assert(es[jq].code != es[jp].code);
        }
        assert(entry_keys(collapse(ke))[p] == entry_keys(collapse(ke))[q]);
        if p < q {
            assert(klt()(entry_keys(collapse(ke))[p], entry_keys(collapse(ke))[q]));
        } else if q < p {
            assert(klt()(entry_keys(collapse(ke))[q], entry_keys(collapse(ke))[p]));
        }
    }
}

/// Saving the runtime state and reading it back gives the saved value; reading a store
/// that holds none gives the empty text and leaves the empty text stored.
pub proof fn law_runtime_round_trip(s: StoreV, v: Seq<char>)
    ensures
        runtime_text(runtime_row(save_runtime(s, v))) == v,
        s.last_release_at is None ==> runtime_text(runtime_row(s)) == Seq::<char>::empty()
            && touch_runtime(s).last_release_at == Some(Seq::<char>::empty()),
{
}

} // verus!
