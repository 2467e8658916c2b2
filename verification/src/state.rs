//! What the slot store records: the current points keyed by branch code, date and
//! time, the appear/disappear events between two snapshots, and the rows read back.
use vstd::prelude::*;
use crate::keyed::{
    Copyable,
    collapse, collapse_last, entries_v, entry_keys, key_set, keys_only_in, lemma_collapse,
    lemma_entry_keys,
};
use crate::keys::{ascending_keys, key_view, keys_view, klt, texts_view};
use crate::models::{BranchInfo, BranchV, SlotDetail, SlotV, branches_v, slots_v};
use crate::order::ascending;
use crate::text::{compare_key, compare_text, string_of, Order};

verus! {

/// State kept between runs.
pub struct RuntimeState {
    pub last_release_at: String,
}

impl Default for RuntimeState {
    fn default() -> (r: RuntimeState)
        ensures
            r.last_release_at@ == Seq::<char>::empty(),
    {
        RuntimeState { last_release_at: String::new() }
    }
}

/// The `last_release_at` text that a stored value gives: the value, or the empty text.
pub open spec fn runtime_text(stored: Option<Seq<char>>) -> Seq<char> {
    match stored {
        Some(s) => s,
        None => Seq::<char>::empty(),
    }
}

/// The runtime state from the stored `last_release_at` value (empty when none is stored).
pub fn load_runtime_state(stored: Option<String>) -> (r: RuntimeState)
    ensures
        r.last_release_at@ == runtime_text(
            match stored {
                Some(s) => Some(s@),
                None => None,
            },
        ),
{
    match stored {
        Some(s) => RuntimeState { last_release_at: s },
        None => RuntimeState::default(),
    }
}

/// The key of a stored point: branch code, date, time.
pub open spec fn slot_key(s: SlotV, b: BranchV) -> Seq<Seq<char>> {
    seq![b.code, s.date, s.time]
}

/// Every (slot, branch) pair of a snapshot in order, keyed by `slot_key`.
pub open spec fn slot_entries(ds: Seq<SlotV>) -> Seq<(Seq<Seq<char>>, BranchV)>
    decreases ds.len(),
{
    if ds.len() == 0 {
        seq![]
    } else {
        slot_entries(ds.drop_last()) + ds.last().branches.map_values(
            |b: BranchV| (slot_key(ds.last(), b), b),
        )
    }
}

/// The stored points of a snapshot: one per key in ascending order, each holding the
/// last branch recorded under it.
pub open spec fn stored_points(ds: Seq<SlotV>) -> Seq<(Seq<Seq<char>>, BranchV)> {
    collapse(slot_entries(ds))
}

/// The keys of the points of a snapshot.
pub open spec fn point_set(ds: Seq<SlotV>) -> Set<Seq<Seq<char>>> {
    key_set(slot_entries(ds))
}

/// The points of a snapshot keyed by (branch code, date, time), one per key in ascending
/// key order; a later branch under a key replaces an earlier one.
pub fn flatten(details: &[SlotDetail]) -> (r: Vec<(Vec<String>, BranchInfo)>)
    ensures
        entries_v(r@) == stored_points(slots_v(details@)),
{
    let ghost dv = slots_v(details@);
    let mut es: Vec<(Vec<String>, BranchInfo)> = Vec::new();
    let mut i: usize = 0;
    while i < details.len()
        invariant
            i <= details@.len(),
            dv == slots_v(details@),
            entries_v(es@) == slot_entries(dv.take(i as int)),
        decreases details.len() - i,
    {
        let slot = &details[i];
        let ghost sv = slot@;
        let ghost base = entries_v(es@);
        let ghost part = sv.branches.map_values(|b: BranchV| (slot_key(sv, b), b));
        let mut j: usize = 0;
        while j < slot.branches.len()
            invariant
                j <= slot.branches@.len(),
                sv == slot@,
                part == sv.branches.map_values(|b: BranchV| (slot_key(sv, b), b)),
                entries_v(es@) == base + part.take(j as int),
            decreases slot.branches.len() - j,
        {
            let b = &slot.branches[j];
            let mut key: Vec<String> = Vec::new();
            key.push(b.code.clone());
            key.push(slot.date.clone());
            key.push(slot.time.clone());
            let ghost before = entries_v(es@);
            proof {
                assert(key_view(key) =~= slot_key(sv, b@));
                assert(sv.branches[j as int] == b@);
            }
            es.push((key, b.duplicate()));
            assert(entries_v(es@) =~= before.push((slot_key(sv, b@), b@)));
            assert(part.take(j + 1 as int) =~= part.take(j as int).push(part[j as int]));
            j += 1;
        }
        proof {
            assert(part.take(slot.branches@.len() as int) =~= part);
            assert(dv.take(i + 1 as int).drop_last() =~= dv.take(i as int));
            assert(dv.take(i + 1 as int).last() == sv);
        }
        i += 1;
    }
    assert(dv.take(details@.len() as int) =~= dv);
    collapse_last(es.as_slice())
}

/// What storing a new snapshot over an old one writes.
pub struct SnapshotPlan {
    /// The branch of every current point, in ascending key order (to refresh the catalog).
    pub branches: Vec<BranchInfo>,
    /// Keys of points that appeared, ascending.
    pub appeared: Vec<Vec<String>>,
    /// Keys of points that disappeared, ascending.
    pub disappeared: Vec<Vec<String>>,
    /// Keys of all current points, ascending.
    pub current: Vec<Vec<String>>,
}

/// The writes that store `new_details` over `old_details`: branches to refresh, an
/// `appeared` event per new key, a `disappeared` event per vanished key, and the current keys.
pub fn plan_snapshot_diff(old_details: &[SlotDetail], new_details: &[SlotDetail]) -> (r: SnapshotPlan)
    ensures
        branches_v(r.branches@) == stored_points(slots_v(new_details@)).map_values(
            |e: (Seq<Seq<char>>, BranchV)| e.1,
        ),
        keys_view(r.appeared@) == ascending(
            point_set(slots_v(new_details@)).difference(point_set(slots_v(old_details@))),
            klt(),
        ),
        keys_view(r.disappeared@) == ascending(
            point_set(slots_v(old_details@)).difference(point_set(slots_v(new_details@))),
            klt(),
        ),
        keys_view(r.current@) == ascending(point_set(slots_v(new_details@)), klt()),
{
    let old_map = flatten(old_details);
    let new_map = flatten(new_details);
    let ghost ov = slot_entries(slots_v(old_details@));
    let ghost nv = slot_entries(slots_v(new_details@));
    proof {
        lemma_collapse(ov);
        lemma_collapse(nv);
        lemma_entry_keys(old_map@);
        lemma_entry_keys(new_map@);
    }
    let appeared = keys_only_in(new_map.as_slice(), old_map.as_slice());
    let disappeared = keys_only_in(old_map.as_slice(), new_map.as_slice());
    let mut branches: Vec<BranchInfo> = Vec::new();
    let mut current: Vec<Vec<String>> = Vec::new();
    let mut i: usize = 0;
    while i < new_map.len()
        invariant
            i <= new_map@.len(),
            branches@.len() == i,
            current@.len() == i,
            forall|q: int| 0 <= q < i ==> #[trigger] branches@[q]@ == new_map@[q].1@,
            forall|q: int| 0 <= q < i ==> #[trigger] key_view(current@[q]) == key_view(
                new_map@[q].0,
            ),
        decreases new_map.len() - i,
    {
        branches.push(new_map[i].1.duplicate());
        current.push(crate::keys::clone_key(&new_map[i].0));
        i += 1;
    }
    assert(branches_v(branches@) =~= entries_v(new_map@).map_values(
        |e: (Seq<Seq<char>>, BranchV)| e.1,
    ));
    assert(keys_view(current@) =~= entry_keys(entries_v(new_map@)));
    SnapshotPlan { branches, appeared, disappeared, current }
}

/// A current-slot row as read back from the store.
pub struct SlotRow {
    pub date: String,
    pub time: String,
    pub code: String,
    pub name: String,
    pub address_cn: String,
    pub tel_no: String,
}

pub struct SlotRowV {
    pub date: Seq<char>,
    pub time: Seq<char>,
    pub code: Seq<char>,
    pub name: Seq<char>,
    pub address_cn: Seq<char>,
    pub tel_no: Seq<char>,
}

impl View for SlotRow {
    type V = SlotRowV;

    open spec fn view(&self) -> SlotRowV {
        SlotRowV {
            date: self.date@,
            time: self.time@,
            code: self.code@,
            name: self.name@,
            address_cn: self.address_cn@,
            tel_no: self.tel_no@,
        }
    }
}

pub open spec fn rows_v(rs: Seq<SlotRow>) -> Seq<SlotRowV> {
    rs.map_values(|r: SlotRow| r@)
}

/// The branch a row describes; every stored point is bookable (status `A`).
pub open spec fn row_branch(r: SlotRowV) -> BranchV {
    BranchV {
        name: r.name,
        code: r.code,
        status: seq!['A'],
        address_cn: r.address_cn,
        tel_no: r.tel_no,
    }
}

pub open spec fn row_slot_key(r: SlotRowV) -> Seq<Seq<char>> {
    seq![r.date, r.time]
}

/// The branches of the rows at (date, time) `k`, in row order.
pub open spec fn branches_at(rs: Seq<SlotRowV>, k: Seq<Seq<char>>) -> Seq<BranchV>
    decreases rs.len(),
{
    if rs.len() == 0 {
        seq![]
    } else if row_slot_key(rs.last()) == k {
        branches_at(rs.drop_last(), k).push(row_branch(rs.last()))
    } else {
        branches_at(rs.drop_last(), k)
    }
}

/// Rows grouped into slots by (date, time), in ascending (date, time) order, each slot
/// with the branches of its rows in row order and no slot id.
pub open spec fn grouped_slots(rs: Seq<SlotRowV>) -> Seq<SlotV> {
    ascending(rs.map_values(|r: SlotRowV| row_slot_key(r)).to_set(), klt()).map_values(
        |k: Seq<Seq<char>>|
            SlotV { date: k[0], time: k[1], time_slot_id: seq![], branches: branches_at(rs, k) },
    )
}

/// The status text `A`.
fn status_open() -> (r: String)
    ensures
        r@ == seq!['A'],
{
    let v: Vec<char> = vec!['A'];
    assert(v@ =~= seq!['A']);
    string_of(v.as_slice())
}

/// The branches of the rows at (date, time).
fn branches_of_rows(rows: &[SlotRow], k: &[String]) -> (r: Vec<BranchInfo>)
    ensures
        branches_v(r@) == branches_at(rows_v(rows@), k@.map_values(|s: String| s@)),
{
    let ghost rv = rows_v(rows@);
    let ghost kv = k@.map_values(|s: String| s@);
    let mut out: Vec<BranchInfo> = Vec::new();
    let mut i: usize = 0;
    while i < rows.len()
        invariant
            i <= rows@.len(),
            rv == rows_v(rows@),
            kv == k@.map_values(|s: String| s@),
            branches_v(out@) == branches_at(rv.take(i as int), kv),
        decreases rows.len() - i,
    {
        let row = &rows[i];
        assert(rv.take(i + 1 as int).drop_last() =~= rv.take(i as int));
        assert(rv.take(i + 1 as int).last() == row@);
        let mut rk: Vec<String> = Vec::new();
        rk.push(row.date.clone());
        rk.push(row.time.clone());
        assert(rk@.map_values(|s: String| s@) =~= row_slot_key(row@));
        match compare_key(rk.as_slice(), k) {
            Order::Equal => {
                let b = BranchInfo {
                    name: row.name.clone(),
                    code: row.code.clone(),
                    status: status_open(),
                    address_cn: row.address_cn.clone(),
                    tel_no: row.tel_no.clone(),
                };
                let ghost before = out@;
                out.push(b);
                assert(branches_v(out@) =~= branches_v(before).push(row_branch(row@)));
            },
            _ => {},
        }
        assert(branches_v(out@) =~= branches_at(rv.take(i + 1 as int), kv));
        i += 1;
    }
    assert(rv.take(rows@.len() as int) =~= rv);
    out
}

/// The current slots from the stored rows, grouped by (date, time).
pub fn load_current_slots(rows: &[SlotRow]) -> (r: Vec<SlotDetail>)
    ensures
        slots_v(r@) == grouped_slots(rows_v(rows@)),
{
    let ghost rv = rows_v(rows@);
    let mut keys: Vec<Vec<String>> = Vec::new();
    let mut i: usize = 0;
    while i < rows.len()
        invariant
            i <= rows@.len(),
            rv == rows_v(rows@),
            keys@.len() == i,
            forall|q: int| 0 <= q < i ==> #[trigger] key_view(keys@[q]) == row_slot_key(rv[q]),
            forall|q: int| 0 <= q < i ==> (#[trigger] keys@[q])@.len() == 2,
        decreases rows.len() - i,
    {
        let mut k: Vec<String> = Vec::new();
        k.push(rows[i].date.clone());
        k.push(rows[i].time.clone());
        assert(key_view(k) =~= row_slot_key(rv[i as int]));
        keys.push(k);
        i += 1;
    }
    assert(keys_view(keys@) =~= rv.map_values(|r: SlotRowV| row_slot_key(r)));
    let asc = ascending_keys(keys.as_slice());
    let ghost rk = rv.map_values(|r: SlotRowV| row_slot_key(r));
    let ghost av = keys_view(asc@);
    proof {
        crate::text::lemma_key_order();
        vstd::seq_lib::seq_to_set_is_finite(rk);
        crate::order::lemma_ascending_props(rk.to_set(), klt());
    }
    let mut out: Vec<SlotDetail> = Vec::new();
    let mut j: usize = 0;
    while j < asc.len()
        invariant
            j <= asc@.len(),
            rv == rows_v(rows@),
            rk == rv.map_values(|r: SlotRowV| row_slot_key(r)),
            av == keys_view(asc@),
            av == ascending(rk.to_set(), klt()),
            av.to_set() == rk.to_set(),
            out@.len() == j,
            forall|q: int|
                0 <= q < j ==> #[trigger] out@[q]@ == (SlotV {
                    date: av[q][0],
                    time: av[q][1],
                    time_slot_id: seq![],
                    branches: branches_at(rv, av[q]),
                }),
        decreases asc.len() - j,
    {
        let k = &asc[j];
        proof {
            assert(av.to_set().contains(av[j as int]));
            let w = choose|w: int|
                0 <= w < rv.len() && #[trigger] rk[w]
                    == av[j as int];
            assert(av[j as int].len() == 2);
        }
        assert(key_view(*k) == av[j as int]);
        assert(k@.len() == 2);
        let branches = branches_of_rows(rows, k.as_slice());
        assert(k@.map_values(|s: String| s@) =~= av[j as int]);
        let slot = SlotDetail {
            date: k[0].clone(),
            time: k[1].clone(),
            time_slot_id: String::new(),
            branches,
        };
        out.push(slot);
        j += 1;
    }
    assert(slots_v(out@) =~= grouped_slots(rv));
    out
}

pub open spec fn first_seen_entries(rs: Seq<(String, String, String, String)>) -> Seq<
    (Seq<Seq<char>>, Seq<char>),
> {
    rs.map_values(|r: (String, String, String, String)| (seq![r.0@, r.1@, r.2@], r.3@))
}

/// When each current point was first seen, keyed by (branch code, date, time), from rows
/// (code, date, time, first seen); a later row for a key replaces an earlier one.
pub fn load_current_slot_first_seen_map(rows: &[(String, String, String, String)]) -> (r: Vec<
    (Vec<String>, String),
>)
    ensures
        entries_v(r@) == collapse(first_seen_entries(rows@)),
        crate::web::seen_keys_ascending(entries_v(r@)),
{
    let mut es: Vec<(Vec<String>, String)> = Vec::new();
    let mut i: usize = 0;
    while i < rows.len()
        invariant
            i <= rows@.len(),
            es@.len() == i,
            forall|q: int| 0 <= q < i ==> #[trigger] entries_v(es@)[q] == first_seen_entries(rows@)[q],
        decreases rows.len() - i,
    {
        let mut k: Vec<String> = Vec::new();
        k.push(rows[i].0.clone());
        k.push(rows[i].1.clone());
        k.push(rows[i].2.clone());
        assert(key_view(k) =~= seq![rows@[i as int].0@, rows@[i as int].1@, rows@[i as int].2@]);
        let ghost before = es@;
        es.push((k, rows[i].3.clone()));
        assert forall|q: int| 0 <= q < i + 1 implies #[trigger] entries_v(es@)[q]
            == first_seen_entries(rows@)[q] by {
            if q < i {
                assert(es@[q] == before[q]);
                assert(entries_v(before)[q] == first_seen_entries(rows@)[q]);
            }
        }
        i += 1;
    }
    assert(entries_v(es@) =~= first_seen_entries(rows@));
    proof {
        lemma_collapse(first_seen_entries(rows@));
    }
    collapse_last(es.as_slice())
}

/// Whether some branch of `bs` has code `c`.
pub open spec fn has_code(bs: Seq<BranchV>, c: Seq<char>) -> bool {
    exists|i: int| 0 <= i < bs.len() && #[trigger] bs[i].code == c
}

/// The first branch of each code, in list order.
pub open spec fn first_per_code(bs: Seq<BranchV>) -> Seq<BranchV>
    decreases bs.len(),
{
    if bs.len() == 0 {
        seq![]
    } else if has_code(bs.drop_last(), bs.last().code) {
        first_per_code(bs.drop_last())
    } else {
        first_per_code(bs.drop_last()).push(bs.last())
    }
}

/// The branches to write into the catalog: the first of each code, in list order (their
/// number is what the catalog update reports).
pub fn upsert_branch_catalog(branches: &[BranchInfo]) -> (r: Vec<BranchInfo>)
    ensures
        branches_v(r@) == first_per_code(branches_v(branches@)),
{
    let ghost bv = branches_v(branches@);
    let mut out: Vec<BranchInfo> = Vec::new();
    let mut seen: Vec<String> = Vec::new();
    let mut i: usize = 0;
    while i < branches.len()
        invariant
            i <= branches@.len(),
            bv == branches_v(branches@),
            branches_v(out@) == first_per_code(bv.take(i as int)),
            forall|c: Seq<char>|
                texts_view(seen@).contains(c) <==> has_code(bv.take(i as int), c),
        decreases branches.len() - i,
    {
        let b = &branches[i];
        assert(bv.take(i + 1 as int).drop_last() =~= bv.take(i as int));
        assert(bv.take(i + 1 as int).last() == b@);
        let mut found = false;
        let mut s: usize = 0;
        while s < seen.len()
            invariant
                s <= seen@.len(),
                found ==> texts_view(seen@).contains(b.code@),
                !found ==> forall|q: int| 0 <= q < s ==> #[trigger] seen@[q]@ != b.code@,
            decreases seen.len() - s,
        {
            if !found {
                match compare_text(seen[s].as_str(), b.code.as_str()) {
                    Order::Equal => {
                        assert(texts_view(seen@)[s as int] == b.code@);
                        found = true;
                    },
                    _ => {},
                }
            }
            s += 1;
        }
        if !found {
            assert(!texts_view(seen@).contains(b.code@)) by {
                if texts_view(seen@).contains(b.code@) {
                    let q = choose|q: int| 0 <= q < texts_view(seen@).len() && texts_view(seen@)[q] == b.code@;
                    assert(seen@[q]@ == b.code@);
                }
            }
        }
        let ghost old_seen = texts_view(seen@);
        assert(forall|c: Seq<char>| old_seen.contains(c) <==> has_code(bv.take(i as int), c));
        if !found {
            out.push(b.duplicate());
            seen.push(b.code.clone());
        }
        proof {
            let pre = bv.take(i as int);
            let post = bv.take(i + 1 as int);
            assert forall|c: Seq<char>| texts_view(seen@).contains(c) <==> has_code(post, c) by {
                if has_code(post, c) {
                    let w = choose|w: int| 0 <= w < post.len() && #[trigger] post[w].code == c;
                    if w < i {
                        assert(pre[w].code == c);
                        assert(has_code(pre, c));
                        assert(old_seen.contains(c));
                        let q = choose|q: int| 0 <= q < old_seen.len() && old_seen[q] == c;
                        assert(texts_view(seen@)[q] == c);
                    } else {
                        if !found {
                            assert(texts_view(seen@)[old_seen.len() as int] == c);
                        }
                    }
                }
                if texts_view(seen@).contains(c) {
                    let q = choose|q: int| 0 <= q < texts_view(seen@).len() && texts_view(seen@)[q] == c;
                    if q < old_seen.len() {
                        assert(old_seen[q] == c);
                        assert(old_seen.contains(c));
                        assert(has_code(pre, c));
                        let w = choose|w: int| 0 <= w < pre.len() && #[trigger] pre[w].code == c;
                        assert(post[w].code == c);
                    } else {
                        assert(post[i as int].code == c);
                    }
                }
            }
            assert(has_code(pre, b.code@) == found);
            if !found {
                assert(branches_v(out@) =~= first_per_code(pre).push(b@));
            }
        }
        i += 1;
    }
    assert(bv.take(branches@.len() as int) =~= bv);
    out
}

/// Whether `c` is one of `codes`.
fn contains_code(codes: &[String], c: &str) -> (r: bool)
    ensures
        r == texts_view(codes@).contains(c@),
{
    let mut i: usize = 0;
    while i < codes.len()
        invariant
            i <= codes@.len(),
            forall|q: int| 0 <= q < i ==> #[trigger] codes@[q]@ != c@,
        decreases codes.len() - i,
    {
        match compare_text(codes[i].as_str(), c) {
            Order::Equal => {
                assert(texts_view(codes@)[i as int] == c@);
                return true;
            },
            _ => {},
        }
        i += 1;
    }
    assert(!texts_view(codes@).contains(c@)) by {
        if texts_view(codes@).contains(c@) {
            let q = choose|q: int| 0 <= q < texts_view(codes@).len() && texts_view(codes@)[q] == c@;
            assert(codes@[q]@ == c@);
        }
    }
    false
}

/// The branches whose code is not disabled, in order.
pub open spec fn enabled_branches(bs: Seq<BranchV>, disabled: Set<Seq<char>>) -> Seq<BranchV> {
    bs.filter(|b: BranchV| !disabled.contains(b.code))
}

/// Each slot keeps its enabled branches; slots left without any are dropped.
pub open spec fn enabled_slots(ds: Seq<SlotV>, disabled: Set<Seq<char>>) -> Seq<SlotV>
    decreases ds.len(),
{
    if ds.len() == 0 {
        seq![]
    } else {
        let s = ds.last();
        let kept = enabled_branches(s.branches, disabled);
        if kept.len() == 0 {
            enabled_slots(ds.drop_last(), disabled)
        } else {
            enabled_slots(ds.drop_last(), disabled).push(
                SlotV { date: s.date, time: s.time, time_slot_id: s.time_slot_id, branches: kept },
            )
        }
    }
}

/// The details without the branches whose code is disabled in the catalog. With no
/// disabled code the details come back unchanged; otherwise slots left without branches
/// are dropped.
pub fn filter_enabled_details(details: &[SlotDetail], disabled_codes: &[String]) -> (r: Vec<SlotDetail>)
    ensures
        slots_v(r@) == if details@.len() == 0 {
            Seq::<SlotV>::empty()
        } else if disabled_codes@.len() == 0 {
            slots_v(details@)
        } else {
            enabled_slots(slots_v(details@), texts_view(disabled_codes@).to_set())
        },
{
    if details.len() == 0 {
        let r: Vec<SlotDetail> = Vec::new();
        assert(slots_v(r@) =~= Seq::<SlotV>::empty());
        return r;
    }
    if disabled_codes.len() == 0 {
        return crate::models::copy_slots(details);
    }
    let ghost dv = slots_v(details@);
    let ghost dis = texts_view(disabled_codes@).to_set();
    let mut filtered: Vec<SlotDetail> = Vec::new();
    let mut i: usize = 0;
    while i < details.len()
        invariant
            i <= details@.len(),
            dv == slots_v(details@),
            dis == texts_view(disabled_codes@).to_set(),
            slots_v(filtered@) == enabled_slots(dv.take(i as int), dis),
        decreases details.len() - i,
    {
        let slot = &details[i];
        let ghost bs = slot@.branches;
        let mut kept: Vec<BranchInfo> = Vec::new();
        let mut j: usize = 0;
        while j < slot.branches.len()
            invariant
                j <= slot.branches@.len(),
                bs == slot@.branches,
                dis == texts_view(disabled_codes@).to_set(),
                branches_v(kept@) == enabled_branches(bs.take(j as int), dis),
            decreases slot.branches.len() - j,
        {
            let b = &slot.branches[j];
            assert(bs.take(j + 1 as int).drop_last() =~= bs.take(j as int));
            assert(bs.take(j + 1 as int).last() == b@);
            let disabled = contains_code(disabled_codes, b.code.as_str());
            assert(disabled == dis.contains(b@.code));
            assert(bs.take(j + 1 as int) =~= bs.take(j as int).push(b@));
            let ghost before = kept@;
            if !disabled {
                kept.push(b.duplicate());
                assert(branches_v(kept@) =~= branches_v(before).push(b@));
            }
            proof {
                bs.take(j as int).lemma_filter_push(b@, |x: BranchV| !dis.contains(x.code));
            }
            j += 1;
        }
        assert(bs.take(slot.branches@.len() as int) =~= bs);
        assert(dv.take(i + 1 as int).drop_last() =~= dv.take(i as int));
        assert(dv.take(i + 1 as int).last() == slot@);
        if kept.len() > 0 {
            let ghost before = slots_v(filtered@);
            filtered.push(
                SlotDetail {
                    date: slot.date.clone(),
                    time: slot.time.clone(),
                    time_slot_id: slot.time_slot_id.clone(),
                    branches: kept,
                },
            );
            assert(slots_v(filtered@) =~= before.push(
                SlotV {
                    date: slot@.date,
                    time: slot@.time,
                    time_slot_id: slot@.time_slot_id,
                    branches: enabled_branches(bs, dis),
                },
            ));
        }
        i += 1;
    }
    assert(dv.take(details@.len() as int) =~= dv);
    filtered
}

/// A branch of the catalog as the catalog page lists it.
pub struct WebBranchCatalogEntry {
    pub code: String,
    pub name: String,
    pub address_cn: String,
    pub tel_no: String,
    pub is_enabled: bool,
    pub updated_at: String,
}

pub struct CatalogEntryV {
    pub code: Seq<char>,
    pub name: Seq<char>,
    pub address_cn: Seq<char>,
    pub tel_no: Seq<char>,
    pub is_enabled: bool,
    pub updated_at: Seq<char>,
}

impl View for WebBranchCatalogEntry {
    type V = CatalogEntryV;

    open spec fn view(&self) -> CatalogEntryV {
        CatalogEntryV {
            code: self.code@,
            name: self.name@,
            address_cn: self.address_cn@,
            tel_no: self.tel_no@,
            is_enabled: self.is_enabled,
            updated_at: self.updated_at@,
        }
    }
}

impl crate::keyed::Copyable for WebBranchCatalogEntry {
    fn copy_of(&self) -> (r: WebBranchCatalogEntry) {
        WebBranchCatalogEntry {
            code: self.code.clone(),
            name: self.name.clone(),
            address_cn: self.address_cn.clone(),
            tel_no: self.tel_no.clone(),
            is_enabled: self.is_enabled,
            updated_at: self.updated_at.clone(),
        }
    }
}

/// The listing key of a catalog entry: enabled ones first, then by name, then by code.
pub open spec fn catalog_key(e: CatalogEntryV) -> Seq<Seq<char>> {
    seq![if e.is_enabled { seq!['0'] } else { seq!['1'] }, e.name, e.code]
}

/// The catalog in listing order: enabled branches first, then by name, then by code
/// (one entry per listing key, the later one kept).
pub open spec fn catalog_listing(es: Seq<CatalogEntryV>) -> Seq<CatalogEntryV> {
    collapse(es.map_values(|e: CatalogEntryV| (catalog_key(e), e))).map_values(
        |x: (Seq<Seq<char>>, CatalogEntryV)| x.1,
    )
}

pub open spec fn catalog_v(es: Seq<WebBranchCatalogEntry>) -> Seq<CatalogEntryV> {
    es.map_values(|e: WebBranchCatalogEntry| e@)
}

/// Orders the catalog for listing: enabled branches first, then by name, then by code.
pub fn load_branch_catalog(entries: &[WebBranchCatalogEntry]) -> (r: Vec<WebBranchCatalogEntry>)
    ensures
        catalog_v(r@) == catalog_listing(catalog_v(entries@)),
{
    let ghost ev = catalog_v(entries@);
    let mut es: Vec<(Vec<String>, WebBranchCatalogEntry)> = Vec::new();
    let mut i: usize = 0;
    while i < entries.len()
        invariant
            i <= entries@.len(),
            ev == catalog_v(entries@),
            es@.len() == i,
            forall|q: int| 0 <= q < i ==> #[trigger] entries_v(es@)[q] == (catalog_key(ev[q]), ev[q]),
        decreases entries.len() - i,
    {
        let e = &entries[i];
        let mut k: Vec<String> = Vec::new();
        let flag: Vec<char> = if e.is_enabled {
            vec!['0']
        } else {
            vec!['1']
        };
        assert(flag@ =~= if e.is_enabled { seq!['0'] } else { seq!['1'] });
        k.push(string_of(flag.as_slice()));
        k.push(e.name.clone());
        k.push(e.code.clone());
        assert(key_view(k) =~= catalog_key(ev[i as int]));
        let ghost before = es@;
        es.push((k, e.copy_of()));
        assert forall|q: int| 0 <= q < i + 1 implies #[trigger] entries_v(es@)[q] == (
            catalog_key(ev[q]),
            ev[q],
        ) by {
            if q < i {
                assert(es@[q] == before[q]);
                assert(entries_v(before)[q] == (catalog_key(ev[q]), ev[q]));
            }
        }
        i += 1;
    }
    assert(entries_v(es@) =~= ev.map_values(|e: CatalogEntryV| (catalog_key(e), e)));
    let c = collapse_last(es.as_slice());
    let mut out: Vec<WebBranchCatalogEntry> = Vec::new();
    let mut j: usize = 0;
    while j < c.len()
        invariant
            j <= c@.len(),
            out@.len() == j,
            forall|q: int| 0 <= q < j ==> #[trigger] out@[q]@ == c@[q].1@,
        decreases c.len() - j,
    {
        out.push(c[j].1.copy_of());
        j += 1;
    }
    assert(catalog_v(out@) =~= entries_v(c@).map_values(|x: (Seq<Seq<char>>, CatalogEntryV)| x.1));
    out
}

} // verus!
