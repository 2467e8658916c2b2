//! What the status page shows: the branches with their bookable dates and times,
//! the dates of the quota, and the page of the event history asked for.
use vstd::prelude::*;
use crate::keyed::{
    collapse, collapse_last, entries_v, has_entry_key, key_set, last_value, last_value_of,
    lemma_entry_keys, Copyable,
};
use crate::keys::{ascending_keys, ascending_texts, clone_key, key_view, keys_view, klt, texts_view, tlt};
use crate::message::pairs;
use crate::models::{BranchV, SlotDetail, SlotV, slots_v};
use crate::order::{ascending, lemma_ascending_props};
use crate::parser::{date_splittable, format_date, spec_format_date};
use crate::text::{compare_key, lemma_key_order};

verus! {

/// Whether a branch offers a time on a date, and since when.
pub struct WebAvailabilityCell {
    pub status: String,
    pub first_seen_at: String,
}

pub struct CellV {
    pub status: Seq<char>,
    pub first_seen_at: Seq<char>,
}

impl View for WebAvailabilityCell {
    type V = CellV;

    open spec fn view(&self) -> CellV {
        CellV { status: self.status@, first_seen_at: self.first_seen_at@ }
    }
}

impl Copyable for WebAvailabilityCell {
    fn copy_of(&self) -> (r: WebAvailabilityCell) {
        WebAvailabilityCell { status: self.status.clone(), first_seen_at: self.first_seen_at.clone() }
    }
}

/// A branch on the status page; its availability is keyed by (date, time), ascending.
pub struct WebBranch {
    pub name: String,
    pub code: String,
    pub address_cn: String,
    pub tel_no: String,
    pub availability: Vec<(Vec<String>, WebAvailabilityCell)>,
}

pub struct WebBranchV {
    pub name: Seq<char>,
    pub code: Seq<char>,
    pub address_cn: Seq<char>,
    pub tel_no: Seq<char>,
    pub availability: Seq<(Seq<Seq<char>>, CellV)>,
}

impl View for WebBranch {
    type V = WebBranchV;

    open spec fn view(&self) -> WebBranchV {
        WebBranchV {
            name: self.name@,
            code: self.code@,
            address_cn: self.address_cn@,
            tel_no: self.tel_no@,
            availability: entries_v(self.availability@),
        }
    }
}

/// Everything the status page shows; the quota is (date, status) in date order.
pub struct WebData {
    pub updated_at: String,
    pub last_release_at: String,
    pub monitoring: bool,
    pub total_checks: u64,
    pub date_quota: Vec<(String, String)>,
    pub dates: Vec<String>,
    pub time_slots: Vec<String>,
    pub branches: Vec<WebBranch>,
}

pub open spec fn web_branches_v(bs: Seq<WebBranch>) -> Seq<WebBranchV> {
    bs.map_values(|b: WebBranch| b@)
}

pub open spec fn quota_v(q: Seq<(String, String)>) -> Seq<(Seq<char>, Seq<char>)> {
    q.map_values(|e: (String, String)| (e.0@, e.1@))
}

/// The key a branch is listed under: code, then name.
pub open spec fn branch_key(p: (SlotV, BranchV)) -> Seq<Seq<char>> {
    seq![p.1.code, p.1.name]
}

/// The first non-empty text, or the empty text.
pub open spec fn first_filled(s: Seq<Seq<char>>) -> Seq<char>
    decreases s.len(),
{
    if s.len() == 0 {
        seq![]
    } else if first_filled(s.drop_last()).len() > 0 {
        first_filled(s.drop_last())
    } else {
        s.last()
    }
}

/// When the point (code, date, time) was first seen, or the empty text if unknown.
pub open spec fn seen_at(fs: Seq<(Seq<Seq<char>>, Seq<char>)>, k: Seq<Seq<char>>) -> Seq<char> {
    if key_set(fs).contains(k) {
        last_value(fs, k)
    } else {
        seq![]
    }
}

/// The availability cell of a (slot, branch) pair, keyed by (date, time).
pub open spec fn cell_of(p: (SlotV, BranchV), fs: Seq<(Seq<Seq<char>>, Seq<char>)>) -> (
    Seq<Seq<char>>,
    CellV,
) {
    (
        seq![p.0.date, p.0.time],
        CellV { status: p.1.status, first_seen_at: seen_at(fs, seq![p.1.code, p.0.date, p.0.time]) },
    )
}

/// The pairs listed under branch key `k`, in order.
pub open spec fn pairs_at(ps: Seq<(SlotV, BranchV)>, k: Seq<Seq<char>>) -> Seq<(SlotV, BranchV)> {
    ps.filter(|p: (SlotV, BranchV)| branch_key(p) == k)
}

/// The branch listed under key `k`: the first non-empty address and telephone among its
/// pairs, and per (date, time) the cell of its last pair there.
pub open spec fn web_branch(
    ps: Seq<(SlotV, BranchV)>,
    fs: Seq<(Seq<Seq<char>>, Seq<char>)>,
    k: Seq<Seq<char>>,
) -> WebBranchV {
    let at = pairs_at(ps, k);
    WebBranchV {
        name: k[1],
        code: k[0],
        address_cn: first_filled(at.map_values(|p: (SlotV, BranchV)| p.1.address_cn)),
        tel_no: first_filled(at.map_values(|p: (SlotV, BranchV)| p.1.tel_no)),
        availability: collapse(at.map_values(|p: (SlotV, BranchV)| cell_of(p, fs))),
    }
}

/// The branches of the details, one per (code, name) in ascending order.
pub open spec fn web_branches(ds: Seq<SlotV>, fs: Seq<(Seq<Seq<char>>, Seq<char>)>) -> Seq<
    WebBranchV,
> {
    ascending(
        pairs(ds).map_values(|p: (SlotV, BranchV)| branch_key(p)).to_set(),
        klt(),
    ).map_values(|k: Seq<Seq<char>>| web_branch(pairs(ds), fs, k))
}

proof fn lemma_first_filled(s: Seq<Seq<char>>)
    ensures
        first_filled(s).len() > 0 ==> exists|j: int| 0 <= j < s.len() && s[j] == first_filled(s),
        (exists|j: int| 0 <= j < s.len() && s[j].len() > 0) ==> first_filled(s).len() > 0,
    decreases s.len(),
{
    if s.len() > 0 {
        let d = s.drop_last();
        lemma_first_filled(d);
        if first_filled(d).len() > 0 {
            let j = choose|j: int| 0 <= j < d.len() && d[j] == first_filled(d);
            assert(s[j] == d[j]);
        } else {
            assert(s[s.len() - 1] == s.last());
            if exists|j: int| 0 <= j < s.len() && s[j].len() > 0 {
                let j = choose|j: int| 0 <= j < s.len() && s[j].len() > 0;
                if j < d.len() {
                    assert(d[j] == s[j]);
                }
            }
        }
    }
}

/// The position in `s` of the `i`-th element kept by a filter.
proof fn lemma_filter_source<A>(s: Seq<A>, pred: spec_fn(A) -> bool, i: int) -> (j: int)
    requires
        0 <= i < s.filter(pred).len(),
    ensures
        0 <= j < s.len(),
        s[j] == s.filter(pred)[i],
    decreases s.len(),
{
    reveal(Seq::filter);
    let d = s.drop_last();
    if pred(s.last()) && i == d.filter(pred).len() {
        s.len() - 1
    } else {
        let j = lemma_filter_source(d, pred, i);
        j
    }
}

/// A listed branch shows an address and a telephone number that the details give for
/// that branch (same code and name), never one taken from another field or another
/// branch; each is empty only when no occurrence of the branch in the details gives one.
pub proof fn law_branch_contacts_come_from_details(
    ds: Seq<SlotV>,
    fs: Seq<(Seq<Seq<char>>, Seq<char>)>,
    i: int,
)
    requires
        0 <= i < web_branches(ds, fs).len(),
    ensures
        ({
            let w = web_branches(ds, fs)[i];
            let ps = pairs(ds);
            &&& w.tel_no.len() == 0 || exists|j: int|
                0 <= j < ps.len() && ps[j].1.code == w.code && ps[j].1.name == w.name
                    && ps[j].1.tel_no == w.tel_no
            &&& (exists|j: int|
                0 <= j < ps.len() && ps[j].1.code == w.code && ps[j].1.name == w.name
                    && ps[j].1.tel_no.len() > 0) ==> w.tel_no.len() > 0
            &&& w.address_cn.len() == 0 || exists|j: int|
                0 <= j < ps.len() && ps[j].1.code == w.code && ps[j].1.name == w.name
                    && ps[j].1.address_cn == w.address_cn
            &&& (exists|j: int|
                0 <= j < ps.len() && ps[j].1.code == w.code && ps[j].1.name == w.name
                    && ps[j].1.address_cn.len() > 0) ==> w.address_cn.len() > 0
        }),
{
    let ps = pairs(ds);
    let keys = ps.map_values(|p: (SlotV, BranchV)| branch_key(p));
    lemma_key_order();
    vstd::seq_lib::seq_to_set_is_finite(keys);
    lemma_ascending_props(keys.to_set(), klt());
    let k = ascending(keys.to_set(), klt())[i];
    assert(keys.to_set().contains(k));
    let q0 = choose|q: int| 0 <= q < keys.len() && keys[q] == k;
    assert(k.len() == 2);
    let w = web_branches(ds, fs)[i];
    assert(w == web_branch(ps, fs, k));
    let pred = |p: (SlotV, BranchV)| branch_key(p) == k;
    let at = ps.filter(pred);
    assert(at == pairs_at(ps, k));
    ps.filter_lemma(pred);
    let tels = at.map_values(|p: (SlotV, BranchV)| p.1.tel_no);
    let adds = at.map_values(|p: (SlotV, BranchV)| p.1.address_cn);
    lemma_first_filled(tels);
    lemma_first_filled(adds);
    if w.tel_no.len() > 0 {
        let j = choose|j: int| 0 <= j < tels.len() && tels[j] == first_filled(tels);
        let q = lemma_filter_source(ps, pred, j);
        assert(pred(at[j]));
        assert(ps[q].1.code == w.code && ps[q].1.name == w.name && ps[q].1.tel_no == w.tel_no);
    }
    if w.address_cn.len() > 0 {
        let j = choose|j: int| 0 <= j < adds.len() && adds[j] == first_filled(adds);
        let q = lemma_filter_source(ps, pred, j);
        assert(pred(at[j]));
        assert(ps[q].1.code == w.code && ps[q].1.name == w.name && ps[q].1.address_cn
            == w.address_cn);
    }
    if exists|j: int|
        0 <= j < ps.len() && ps[j].1.code == w.code && ps[j].1.name == w.name
            && ps[j].1.tel_no.len() > 0 {
        let j = choose|j: int|
            0 <= j < ps.len() && ps[j].1.code == w.code && ps[j].1.name == w.name
                && ps[j].1.tel_no.len() > 0;
        assert(branch_key(ps[j]) =~= k);
        assert(at.contains(ps[j]));
        let x = choose|x: int| 0 <= x < at.len() && at[x] == ps[j];
        assert(tels[x].len() > 0);
    }
    if exists|j: int|
        0 <= j < ps.len() && ps[j].1.code == w.code && ps[j].1.name == w.name
            && ps[j].1.address_cn.len() > 0 {
        let j = choose|j: int|
            0 <= j < ps.len() && ps[j].1.code == w.code && ps[j].1.name == w.name
                && ps[j].1.address_cn.len() > 0;
        assert(branch_key(ps[j]) =~= k);
        assert(at.contains(ps[j]));
        let x = choose|x: int| 0 <= x < at.len() && at[x] == ps[j];
        assert(adds[x].len() > 0);
    }
}

/// When (code, date, time) was first seen, or the empty text.
fn lookup_seen(fs: &[(Vec<String>, String)], k: &[String]) -> (r: String)
    ensures
        r@ == seen_at(entries_v(fs@), k@.map_values(|s: String| s@)),
{
    proof {
        lemma_entry_keys(fs@);
    }
    if has_entry_key(fs, k) {
        last_value_of(fs, k)
    } else {
        String::new()
    }
}

/// The branch listed under key `k`.
fn build_web_branch(
    details: &[SlotDetail],
    idx: &[(usize, usize)],
    first_seen_map: &[(Vec<String>, String)],
    k: &Vec<String>,
) -> (r: WebBranch)
    requires
        idx@.len() == pairs(slots_v(details@)).len(),
        forall|q: int|
            0 <= q < idx@.len() ==> #[trigger] idx@[q].0 < details@.len() && idx@[q].1
                < details@[idx@[q].0 as int].branches@.len() && pairs(slots_v(details@))[q] == (
                details@[idx@[q].0 as int]@,
                details@[idx@[q].0 as int].branches@[idx@[q].1 as int]@,
            ),
        k@.len() == 2,
    ensures
        r@ == web_branch(pairs(slots_v(details@)), entries_v(first_seen_map@), key_view(*k)),
{
    let ghost ps = pairs(slots_v(details@));
    let ghost kv = key_view(*k);
    let ghost fs = entries_v(first_seen_map@);
    let ghost keep = |p: (SlotV, BranchV)| branch_key(p) == kv;
    let mut address = String::new();
    let mut tel = String::new();
    let mut cells: Vec<(Vec<String>, WebAvailabilityCell)> = Vec::new();
    let mut q: usize = 0;
    while q < idx.len()
        invariant
            q <= idx@.len(),
            idx@.len() == ps.len(),
            ps == pairs(slots_v(details@)),
            kv == key_view(*k),
            fs == entries_v(first_seen_map@),
            keep == (|p: (SlotV, BranchV)| branch_key(p) == kv),
            forall|x: int|
                0 <= x < idx@.len() ==> #[trigger] idx@[x].0 < details@.len() && idx@[x].1
                    < details@[idx@[x].0 as int].branches@.len() && ps[x] == (
                    details@[idx@[x].0 as int]@,
                    details@[idx@[x].0 as int].branches@[idx@[x].1 as int]@,
                ),
            address@ == first_filled(
                ps.take(q as int).filter(keep).map_values(|p: (SlotV, BranchV)| p.1.address_cn),
            ),
            tel@ == first_filled(
                ps.take(q as int).filter(keep).map_values(|p: (SlotV, BranchV)| p.1.tel_no),
            ),
            entries_v(cells@) == ps.take(q as int).filter(keep).map_values(
                |p: (SlotV, BranchV)| cell_of(p, fs),
            ),
        decreases idx.len() - q,
    {
        let (si, bi) = idx[q];
        let slot = &details[si];
        let b = &slot.branches[bi];
        let ghost p = ps[q as int];
        assert(p == (slot@, b@));
        proof {
            assert(ps.take(q + 1 as int) =~= ps.take(q as int).push(p));
            ps.take(q as int).lemma_filter_push(p, keep);
        }
        let mut bk: Vec<String> = Vec::new();
        bk.push(b.code.clone());
        bk.push(b.name.clone());
        assert(bk@.map_values(|s: String| s@) =~= branch_key(p));
        let matches = match compare_key(bk.as_slice(), k.as_slice()) {
            crate::text::Order::Equal => true,
            _ => false,
        };
        assert(matches == keep(p));
        if !matches {
            assert(ps.take(q + 1 as int).filter(keep) == ps.take(q as int).filter(keep));
        }
        if matches {
            let ghost fa = ps.take(q as int).filter(keep);
            let ghost fb = fa.push(p);
            assert(fb.map_values(|p: (SlotV, BranchV)| p.1.address_cn) =~= fa.map_values(
                |p: (SlotV, BranchV)| p.1.address_cn,
            ).push(b@.address_cn));
            assert(fb.map_values(|p: (SlotV, BranchV)| p.1.tel_no) =~= fa.map_values(
                |p: (SlotV, BranchV)| p.1.tel_no,
            ).push(b@.tel_no));
            let ghost aa = fa.map_values(|p: (SlotV, BranchV)| p.1.address_cn);
            let ghost ta = fa.map_values(|p: (SlotV, BranchV)| p.1.tel_no);
            assert(aa.push(b@.address_cn).drop_last() =~= aa);
            assert(ta.push(b@.tel_no).drop_last() =~= ta);
            assert(ps.take(q + 1 as int).filter(keep) == fb);
            if address.as_str().is_empty() {
                address = b.address_cn.clone();
            }
            if tel.as_str().is_empty() {
                tel = b.tel_no.clone();
            }
            let mut ck: Vec<String> = Vec::new();
            ck.push(b.code.clone());
            ck.push(slot.date.clone());
            ck.push(slot.time.clone());
            assert(ck@.map_values(|s: String| s@) =~= seq![b@.code, slot@.date, slot@.time]);
            let seen = lookup_seen(first_seen_map, ck.as_slice());
            let mut dk: Vec<String> = Vec::new();
            dk.push(slot.date.clone());
            dk.push(slot.time.clone());
            assert(key_view(dk) =~= seq![slot@.date, slot@.time]);
            let ghost before = entries_v(cells@);
            cells.push((dk, WebAvailabilityCell { status: b.status.clone(), first_seen_at: seen }));
            assert(entries_v(cells@) =~= before.push(cell_of(p, fs)));
        }
        q += 1;
    }
    assert(ps.take(idx@.len() as int) =~= ps);
    let availability = collapse_last(cells.as_slice());
    WebBranch {
        name: k[1].clone(),
        code: k[0].clone(),
        address_cn: address,
        tel_no: tel,
        availability,
    }
}

/// The quota lists each date once, in strictly ascending order (a map keyed by date).
pub open spec fn quota_keys_ascending(q: Seq<(Seq<char>, Seq<char>)>) -> bool {
    crate::order::strictly_sorted(q.map_values(|e: (Seq<char>, Seq<char>)| e.0), tlt())
}

/// The first-seen times list each point once, in strictly ascending key order (a map keyed
/// by branch code, date and time).
pub open spec fn seen_keys_ascending(m: Seq<(Seq<Seq<char>>, Seq<char>)>) -> bool {
    crate::order::strictly_sorted(crate::keyed::entry_keys(m), klt())
}

/// The status page data, stamped with `updated_at`: the branches of the details with
/// their bookable dates and times, the quota, its dates formatted, and every time seen.
pub fn web_data_at(
    details: &[SlotDetail],
    date_quota: &[(String, String)],
    total_checks: u64,
    last_release_at: &str,
    first_seen_map: &[(Vec<String>, String)],
    updated_at: String,
) -> (r: WebData)
    requires
        forall|i: int| 0 <= i < date_quota@.len() ==> date_splittable(#[trigger] date_quota@[i].0@),
        quota_keys_ascending(quota_v(date_quota@)),
        seen_keys_ascending(entries_v(first_seen_map@)),
    ensures
        r.updated_at@ == updated_at@,
        r.last_release_at@ == last_release_at@,
        r.monitoring,
        r.total_checks == total_checks,
        quota_v(r.date_quota@) == quota_v(date_quota@),
        texts_view(r.dates@) == date_quota@.map_values(
            |e: (String, String)| spec_format_date(e.0@),
        ),
        texts_view(r.time_slots@) == ascending(
            slots_v(details@).map_values(|s: SlotV| s.time).to_set(),
            tlt(),
        ),
        web_branches_v(r.branches@) == web_branches(slots_v(details@), entries_v(first_seen_map@)),
{
    let ghost dv = slots_v(details@);
    let ghost ps = pairs(dv);
    let idx = crate::message::pair_index(details);
    let mut keys: Vec<Vec<String>> = Vec::new();
    let mut q: usize = 0;
    while q < idx.len()
        invariant
            q <= idx@.len(),
            ps == pairs(slots_v(details@)),
            idx@.len() == ps.len(),
            forall|x: int|
                0 <= x < idx@.len() ==> #[trigger] idx@[x].0 < details@.len() && idx@[x].1
                    < details@[idx@[x].0 as int].branches@.len() && ps[x] == (
                    details@[idx@[x].0 as int]@,
                    details@[idx@[x].0 as int].branches@[idx@[x].1 as int]@,
                ),
            keys@.len() == q,
            forall|x: int| 0 <= x < q ==> #[trigger] key_view(keys@[x]) == branch_key(ps[x]),
        decreases idx.len() - q,
    {
        let (si, bi) = idx[q];
        let b = &details[si].branches[bi];
        let mut k: Vec<String> = Vec::new();
        k.push(b.code.clone());
        k.push(b.name.clone());
        assert(key_view(k) =~= branch_key(ps[q as int]));
        keys.push(k);
        q += 1;
    }
    let ghost bks = ps.map_values(|p: (SlotV, BranchV)| branch_key(p));
    assert(keys_view(keys@) =~= bks);
    let asc = ascending_keys(keys.as_slice());
    proof {
        crate::text::lemma_key_order();
        vstd::seq_lib::seq_to_set_is_finite(bks);
        lemma_ascending_props(bks.to_set(), klt());
    }
    let ghost av = keys_view(asc@);
    let mut branches: Vec<WebBranch> = Vec::new();
    let mut j: usize = 0;
    while j < asc.len()
        invariant
            j <= asc@.len(),
            ps == pairs(slots_v(details@)),
            idx@.len() == ps.len(),
            forall|x: int|
                0 <= x < idx@.len() ==> #[trigger] idx@[x].0 < details@.len() && idx@[x].1
                    < details@[idx@[x].0 as int].branches@.len() && ps[x] == (
                    details@[idx@[x].0 as int]@,
                    details@[idx@[x].0 as int].branches@[idx@[x].1 as int]@,
                ),
            bks == ps.map_values(|p: (SlotV, BranchV)| branch_key(p)),
            av == keys_view(asc@),
            av == ascending(bks.to_set(), klt()),
            av.to_set() == bks.to_set(),
            branches@.len() == j,
            forall|x: int|
                0 <= x < j ==> #[trigger] branches@[x]@ == web_branch(
                    ps,
                    entries_v(first_seen_map@),
                    av[x],
                ),
        decreases asc.len() - j,
    {
        proof {
            assert(av.to_set().contains(av[j as int]));
            let w = choose|w: int| 0 <= w < bks.len() && bks[w] == av[j as int];
            assert(bks[w].len() == 2);
        }
        assert(key_view(asc@[j as int]) == av[j as int]);
        let wb = build_web_branch(details, idx.as_slice(), first_seen_map, &asc[j]);
        branches.push(wb);
        j += 1;
    }
    assert(web_branches_v(branches@) =~= web_branches(dv, entries_v(first_seen_map@)));
    let mut times: Vec<String> = Vec::new();
    let mut t: usize = 0;
    while t < details.len()
        invariant
            t <= details@.len(),
            times@.len() == t,
            forall|x: int| 0 <= x < t ==> #[trigger] times@[x]@ == details@[x].time@,
        decreases details.len() - t,
    {
        times.push(details[t].time.clone());
        t += 1;
    }
    assert(texts_view(times@) =~= dv.map_values(|s: SlotV| s.time));
    let time_slots = ascending_texts(times.as_slice());
    let mut quota: Vec<(String, String)> = Vec::new();
    let mut dates: Vec<String> = Vec::new();
    let mut d: usize = 0;
    while d < date_quota.len()
        invariant
            d <= date_quota@.len(),
            forall|i: int| 0 <= i < date_quota@.len() ==> date_splittable(#[trigger] date_quota@[i].0@),
            quota@.len() == d,
            dates@.len() == d,
            forall|x: int|
                0 <= x < d ==> #[trigger] quota@[x].0@ == date_quota@[x].0@ && quota@[x].1@
                    == date_quota@[x].1@,
            forall|x: int| 0 <= x < d ==> #[trigger] dates@[x]@ == spec_format_date(date_quota@[x].0@),
        decreases date_quota.len() - d,
    {
        quota.push((date_quota[d].0.clone(), date_quota[d].1.clone()));
        dates.push(format_date(date_quota[d].0.as_str()));
        d += 1;
    }
    assert(quota_v(quota@) =~= quota_v(date_quota@));
    assert(texts_view(dates@) =~= date_quota@.map_values(|e: (String, String)| spec_format_date(e.0@)));
    WebData {
        updated_at,
        last_release_at: crate::text::owned(last_release_at),
        monitoring: true,
        total_checks,
        date_quota: quota,
        dates,
        time_slots,
        branches,
    }
}

pub open spec fn digits_only(t: Seq<char>) -> bool {
    forall|i: int| 0 <= i < t.len() ==> '0' <= #[trigger] t[i] && t[i] <= '9'
}

/// The shape of a clock text `YYYY-MM-DD HH:MM:SS`: two-digit month, day, hour, minute and
/// second fields with their separators at the end, after a year of four digits, or of a
/// sign and at least four digits for a year outside 0 to 9999.
pub open spec fn clock_text_shape(t: Seq<char>) -> bool {
    let n = t.len() as int;
    let year = t.take(n - 15);
    &&& n >= 19
    &&& t[n - 15] == '-' && t[n - 12] == '-' && t[n - 9] == ' ' && t[n - 6] == ':' && t[n - 3]
        == ':'
    &&& digits_only(t.subrange(n - 14, n - 12)) && digits_only(t.subrange(n - 11, n - 9))
    &&& digits_only(t.subrange(n - 8, n - 6)) && digits_only(t.subrange(n - 5, n - 3))
    &&& digits_only(t.subrange(n - 2, n))
    &&& ((year.len() == 4 && digits_only(year)) || (year.len() >= 5 && (year[0] == '+' || year[0]
        == '-') && digits_only(year.drop_first())))
}

/// The local time now, `YYYY-MM-DD HH:MM:SS`: chrono's `Local::now()` formatted with that
/// pattern. Claimed: only the shape of the text (chrono writes each field other than the
/// year as two zero-padded digits, and the year as four zero-padded digits, with a sign
/// outside 0 to 9999); the time itself depends on the clock and the time zone.
#[verifier::external_body]
fn local_now_text() -> (r: String)
    ensures
        clock_text_shape(r@),
{
    chrono::Local::now().format("%Y-%m-%d %H:%M:%S").to_string()
}

/// The status page data, stamped with the local time now.
pub fn build_web_data(
    details: &[SlotDetail],
    date_quota: &[(String, String)],
    total_checks: u64,
    last_release_at: &str,
    first_seen_map: &[(Vec<String>, String)],
) -> (r: WebData)
    requires
        forall|i: int| 0 <= i < date_quota@.len() ==> date_splittable(#[trigger] date_quota@[i].0@),
        quota_keys_ascending(quota_v(date_quota@)),
        seen_keys_ascending(entries_v(first_seen_map@)),
    ensures
        r.last_release_at@ == last_release_at@,
        r.monitoring,
        r.total_checks == total_checks,
        quota_v(r.date_quota@) == quota_v(date_quota@),
        texts_view(r.dates@) == date_quota@.map_values(
            |e: (String, String)| spec_format_date(e.0@),
        ),
        texts_view(r.time_slots@) == ascending(
            slots_v(details@).map_values(|s: SlotV| s.time).to_set(),
            tlt(),
        ),
        web_branches_v(r.branches@) == web_branches(slots_v(details@), entries_v(first_seen_map@)),
        clock_text_shape(r.updated_at@),
{
    let now = local_now_text();
    web_data_at(details, date_quota, total_checks, last_release_at, first_seen_map, now)
}

/// Number of events on a page of the history.
pub const HISTORY_PAGE_SIZE: usize = 10;

/// The query of the history page.
pub struct HistoryQuery {
    pub page: Option<usize>,
}

/// The page asked for: 1 when none is given, and at least 1.
pub fn requested_page(query: &HistoryQuery) -> (r: usize)
    ensures
        r == match query.page {
            Some(p) => if p < 1 {
                1
            } else {
                p
            },
            None => 1,
        },
{
    match query.page {
        Some(p) => if p < 1 {
            1
        } else {
            p
        },
        None => 1,
    }
}

} // verus!
