//! Decisions of the drill-down from available dates to branches: which branch
//! contacts still have to be fetched, how contacts are filled in, which failures are
//! skipped softly, and how the per-date results are merged.
use vstd::prelude::*;
use crate::keyed::{collapse, collapse_last, entries_v, Copyable};
use crate::keys::{key_view, texts_view};
use crate::models::{BranchInfo, BranchV, SlotDetail, SlotV, branches_v, slots_v};
use crate::parser::{date_splittable, format_date, spec_format_date};
use crate::text::{chars_of, compare_text, contains_chars, contains_text, Order};

verus! {

impl Copyable for SlotDetail {
    fn copy_of(&self) -> (r: SlotDetail) {
        self.duplicate()
    }
}

/// The slots found by a drill-down, and how many time slots were skipped without
/// district details.
pub struct DrillDownResult {
    pub details: Vec<SlotDetail>,
    pub soft_skipped_slots: usize,
}

impl DrillDownResult {
    /// Whether no time slot was skipped.
    pub fn is_complete(&self) -> (r: bool)
        ensures
            r == (self.soft_skipped_slots == 0),
    {
        self.soft_skipped_slots == 0
    }
}

/// The marker of the service's "no district details" business error.
pub open spec fn soft_skip_marker() -> Seq<char> {
    "业务错误 WHKEQR888"@
}

/// Whether a failure is the service's "no district details" business error, which skips
/// the time slot (after one retry) instead of failing it.
pub fn is_soft_skip_error(err_text: &str) -> (r: bool)
    ensures
        r == contains_text(err_text@, soft_skip_marker()),
{
    let s = chars_of(err_text);
    let t = chars_of("业务错误 WHKEQR888");
    contains_chars(s.as_slice(), t.as_slice())
}

/// Contact details (address, telephone) by branch code; a later entry for a code
/// replaces an earlier one.
pub open spec fn meta_v(m: Seq<(String, (String, String))>) -> Seq<(Seq<char>, (Seq<char>, Seq<char>))> {
    m.map_values(|e: (String, (String, String))| (e.0@, (e.1.0@, e.1.1@)))
}

/// The contact details recorded last for `code`.
pub open spec fn meta_lookup(m: Seq<(Seq<char>, (Seq<char>, Seq<char>))>, code: Seq<char>) -> Option<
    (Seq<char>, Seq<char>),
>
    decreases m.len(),
{
    if m.len() == 0 {
        None
    } else if m.last().0 == code {
        Some(m.last().1)
    } else {
        meta_lookup(m.drop_last(), code)
    }
}

/// The contact details recorded last for `code`.
fn find_meta(m: &[(String, (String, String))], code: &str) -> (r: Option<(String, String)>)
    ensures
        r matches Some(x) ==> meta_lookup(meta_v(m@), code@) == Some((x.0@, x.1@)),
        r is None ==> meta_lookup(meta_v(m@), code@) is None,
{
    let ghost mv = meta_v(m@);
    let mut j: usize = m.len();
    assert(mv.take(j as int) =~= mv);
    while j > 0
        invariant
            j <= m@.len(),
            mv == meta_v(m@),
            meta_lookup(mv, code@) == meta_lookup(mv.take(j as int), code@),
        decreases j,
    {
        assert(mv.take(j as int).last() == mv[j - 1]);
        match compare_text(m[j - 1].0.as_str(), code) {
            Order::Equal => {
                return Some((m[j - 1].1.0.clone(), m[j - 1].1.1.clone()));
            },
            _ => {},
        }
        assert(mv.take(j as int).drop_last() =~= mv.take(j - 1 as int));
        j -= 1;
    }
    None
}

/// Where the contact details of a code are known from: the session cache first, then
/// the stored catalog.
pub open spec fn known_meta(
    cache: Seq<(Seq<char>, (Seq<char>, Seq<char>))>,
    stored: Seq<(Seq<char>, (Seq<char>, Seq<char>))>,
    code: Seq<char>,
) -> Option<(Seq<char>, Seq<char>)> {
    match meta_lookup(cache, code) {
        Some(m) => Some(m),
        None => meta_lookup(stored, code),
    }
}

/// The codes of the branches whose contact details are known neither from the cache
/// nor from the catalog, each once, in order of first appearance.
pub open spec fn missing_codes(
    bs: Seq<BranchV>,
    cache: Seq<(Seq<char>, (Seq<char>, Seq<char>))>,
    stored: Seq<(Seq<char>, (Seq<char>, Seq<char>))>,
) -> Seq<Seq<char>>
    decreases bs.len(),
{
    if bs.len() == 0 {
        seq![]
    } else {
        let pre = missing_codes(bs.drop_last(), cache, stored);
        let c = bs.last().code;
        if known_meta(cache, stored, c) is None && !pre.contains(c) {
            pre.push(c)
        } else {
            pre
        }
    }
}

/// Whether `c` is one of `codes`.
fn has_text(codes: &[String], c: &str) -> (r: bool)
    ensures
        r == texts_view(codes@).contains(c@),
{
    let mut i: usize = 0;
    while i < codes.len()
        invariant
            i <= codes@.len(),
            forall|q: int| 0 <= q < i ==> #[trigger] codes@[q]@ != c@,
        decreases codes.len() - i,
    {
        match compare_text(codes[i].as_str(), c) {
            Order::Equal => {
                assert(texts_view(codes@)[i as int] == c@);
                return true;
            },
            _ => {},
        }
        i += 1;
    }
    assert(!texts_view(codes@).contains(c@)) by {
        if texts_view(codes@).contains(c@) {
            let q = choose|q: int| 0 <= q < texts_view(codes@).len() && texts_view(codes@)[q] == c@;
            assert(codes@[q]@ == c@);
        }
    }
    false
}

/// The branch codes whose contact details must be fetched.
pub fn missing_branch_codes(
    branches: &[BranchInfo],
    cache: &[(String, (String, String))],
    stored: &[(String, (String, String))],
) -> (r: Vec<String>)
    ensures
        texts_view(r@) == missing_codes(branches_v(branches@), meta_v(cache@), meta_v(stored@)),
{
    let ghost bv = branches_v(branches@);
    let mut out: Vec<String> = Vec::new();
    let mut i: usize = 0;
    while i < branches.len()
        invariant
            i <= branches@.len(),
            bv == branches_v(branches@),
            texts_view(out@) == missing_codes(bv.take(i as int), meta_v(cache@), meta_v(stored@)),
        decreases branches.len() - i,
    {
        let b = &branches[i];
        assert(bv.take(i + 1 as int).drop_last() =~= bv.take(i as int));
        assert(bv.take(i + 1 as int).last() == b@);
        let known = match find_meta(cache, b.code.as_str()) {
            Some(_) => true,
            None => match find_meta(stored, b.code.as_str()) {
                Some(_) => true,
                None => false,
            },
        };
        if !known && !has_text(out.as_slice(), b.code.as_str()) {
            let ghost before = texts_view(out@);
            out.push(b.code.clone());
            assert(texts_view(out@) =~= before.push(b@.code));
        }
        i += 1;
    }
    assert(bv.take(branches@.len() as int) =~= bv);
    out
}

/// The branch with its contact details filled in: from the cache, else the catalog,
/// else what was just fetched; unchanged when none has them.
pub open spec fn with_meta(
    b: BranchV,
    cache: Seq<(Seq<char>, (Seq<char>, Seq<char>))>,
    stored: Seq<(Seq<char>, (Seq<char>, Seq<char>))>,
    fetched: Seq<(Seq<char>, (Seq<char>, Seq<char>))>,
) -> BranchV {
    let m = match known_meta(cache, stored, b.code) {
        Some(m) => Some(m),
        None => meta_lookup(fetched, b.code),
    };
    match m {
        Some(m) => BranchV { address_cn: m.0, tel_no: m.1, ..b },
        None => b,
    }
}

/// Fills in the contact details of each branch.
pub fn apply_branch_meta(
    branches: &[BranchInfo],
    cache: &[(String, (String, String))],
    stored: &[(String, (String, String))],
    fetched: &[(String, (String, String))],
) -> (r: Vec<BranchInfo>)
    ensures
        branches_v(r@) == branches_v(branches@).map_values(
            |b: BranchV| with_meta(b, meta_v(cache@), meta_v(stored@), meta_v(fetched@)),
        ),
{
    let mut out: Vec<BranchInfo> = Vec::new();
    let mut i: usize = 0;
    while i < branches.len()
        invariant
            i <= branches@.len(),
            out@.len() == i,
            forall|q: int|
                0 <= q < i ==> #[trigger] out@[q]@ == with_meta(
                    branches@[q]@,
                    meta_v(cache@),
                    meta_v(stored@),
                    meta_v(fetched@),
                ),
        decreases branches.len() - i,
    {
        let b = &branches[i];
        let m = match find_meta(cache, b.code.as_str()) {
            Some(m) => Some(m),
            None => match find_meta(stored, b.code.as_str()) {
                Some(m) => Some(m),
                None => find_meta(fetched, b.code.as_str()),
            },
        };
        let mut nb = b.duplicate();
        match m {
            Some((address_cn, tel_no)) => {
                nb.address_cn = address_cn;
                nb.tel_no = tel_no;
            },
            None => {},
        }
        out.push(nb);
        i += 1;
    }
    assert(branches_v(out@) =~= branches_v(branches@).map_values(
        |b: BranchV| with_meta(b, meta_v(cache@), meta_v(stored@), meta_v(fetched@)),
    ));
    out
}

/// The branches that got freshly fetched contact details, with those details, in order
/// (what is written back to the catalog).
pub open spec fn refreshed(
    bs: Seq<BranchV>,
    fetched: Seq<(Seq<char>, (Seq<char>, Seq<char>))>,
) -> Seq<BranchV>
    decreases bs.len(),
{
    if bs.len() == 0 {
        seq![]
    } else {
        let pre = refreshed(bs.drop_last(), fetched);
        let b = bs.last();
        match meta_lookup(fetched, b.code) {
            Some(m) => pre.push(BranchV { address_cn: m.0, tel_no: m.1, ..b }),
            None => pre,
        }
    }
}

/// The branches whose contact details were just fetched, with them filled in.
pub fn refreshed_branches(branches: &[BranchInfo], fetched: &[(String, (String, String))]) -> (r: Vec<
    BranchInfo,
>)
    ensures
        branches_v(r@) == refreshed(branches_v(branches@), meta_v(fetched@)),
{
    let ghost bv = branches_v(branches@);
    let mut out: Vec<BranchInfo> = Vec::new();
    let mut i: usize = 0;
    while i < branches.len()
        invariant
            i <= branches@.len(),
            bv == branches_v(branches@),
            branches_v(out@) == refreshed(bv.take(i as int), meta_v(fetched@)),
        decreases branches.len() - i,
    {
        let b = &branches[i];
        assert(bv.take(i + 1 as int).drop_last() =~= bv.take(i as int));
        assert(bv.take(i + 1 as int).last() == b@);
        match find_meta(fetched, b.code.as_str()) {
            Some((address_cn, tel_no)) => {
                let mut nb = b.duplicate();
                nb.address_cn = address_cn;
                nb.tel_no = tel_no;
                let ghost before = branches_v(out@);
                out.push(nb);
                assert(branches_v(out@) =~= before.push(
                    BranchV { address_cn: address_cn@, tel_no: tel_no@, ..b@ },
                ));
            },
            None => {},
        }
        i += 1;
    }
    assert(bv.take(branches@.len() as int) =~= bv);
    out
}

/// The slot found for a time slot of a date: the date formatted, the time text, the slot
/// id and the branches.
pub fn date_slot(date: &str, time: String, slot_id: String, branches: Vec<BranchInfo>) -> (r: SlotDetail)
    requires
        date_splittable(date@),
    ensures
        r@ == (SlotV {
            date: spec_format_date(date@),
            time: time@,
            time_slot_id: slot_id@,
            branches: branches_v(branches@),
        }),
{
    SlotDetail { date: format_date(date), time, time_slot_id: slot_id, branches }
}

pub open spec fn has_branches(s: SlotV) -> bool {
    s.branches.len() > 0
}

/// The slots of one date, one per slot id in ascending order (a later slot with the same
/// id replaces an earlier one), without those that have no branch.
pub open spec fn date_slots(ss: Seq<SlotV>) -> Seq<SlotV> {
    collapse(ss.map_values(|s: SlotV| (seq![s.time_slot_id], s))).map_values(
        |e: (Seq<Seq<char>>, SlotV)| e.1,
    ).filter(|s: SlotV| has_branches(s))
}

/// Keeps the entries' values that have branches, in order.
fn values_with_branches(es: &[(Vec<String>, SlotDetail)]) -> (r: Vec<SlotDetail>)
    ensures
        slots_v(r@) == entries_v(es@).map_values(|e: (Seq<Seq<char>>, SlotV)| e.1).filter(
            |s: SlotV| has_branches(s),
        ),
{
    let ghost vs = entries_v(es@).map_values(|e: (Seq<Seq<char>>, SlotV)| e.1);
    let mut out: Vec<SlotDetail> = Vec::new();
    let mut i: usize = 0;
    while i < es.len()
        invariant
            i <= es@.len(),
            vs == entries_v(es@).map_values(|e: (Seq<Seq<char>>, SlotV)| e.1),
            slots_v(out@) == vs.take(i as int).filter(|s: SlotV| has_branches(s)),
        decreases es.len() - i,
    {
        let s = &es[i].1;
        assert(vs[i as int] == s@);
        proof {
            assert(vs.take(i + 1 as int) =~= vs.take(i as int).push(s@));
            vs.take(i as int).lemma_filter_push(s@, |s: SlotV| has_branches(s));
        }
        if s.branches.len() > 0 {
            let ghost before = slots_v(out@);
            out.push(s.duplicate());
            assert(slots_v(out@) =~= before.push(s@));
        }
        i += 1;
    }
    assert(vs.take(es@.len() as int) =~= vs);
    out
}

/// The slots of one date, keyed by slot id, without those that have no branch.
pub fn collect_date_slots(slots: &[SlotDetail]) -> (r: Vec<SlotDetail>)
    ensures
        slots_v(r@) == date_slots(slots_v(slots@)),
{
    let ghost sv = slots_v(slots@);
    let mut es: Vec<(Vec<String>, SlotDetail)> = Vec::new();
    let mut i: usize = 0;
    while i < slots.len()
        invariant
            i <= slots@.len(),
            sv == slots_v(slots@),
            es@.len() == i,
            forall|q: int|
                0 <= q < i ==> #[trigger] entries_v(es@)[q] == (seq![sv[q].time_slot_id], sv[q]),
        decreases slots.len() - i,
    {
        let mut k: Vec<String> = Vec::new();
        k.push(slots[i].time_slot_id.clone());
        assert(key_view(k) =~= seq![sv[i as int].time_slot_id]);
        let ghost before = es@;
        es.push((k, slots[i].duplicate()));
        assert forall|q: int| 0 <= q < i + 1 implies #[trigger] entries_v(es@)[q] == (
            seq![sv[q].time_slot_id],
            sv[q],
        ) by {
            if q < i {
                assert(es@[q] == before[q]);
                assert(entries_v(before)[q] == (seq![sv[q].time_slot_id], sv[q]));
            }
        }
        i += 1;
    }
    assert(entries_v(es@) =~= sv.map_values(|s: SlotV| (seq![s.time_slot_id], s)));
    let c = collapse_last(es.as_slice());
    values_with_branches(c.as_slice())
}

pub open spec fn date_result_v(r: (String, Vec<SlotDetail>, usize)) -> (Seq<char>, Seq<SlotV>, usize) {
    (r.0@, slots_v(r.1@), r.2)
}

/// Every slot of the per-date results keyed by (date, slot id), in completion order.
pub open spec fn result_entries(rs: Seq<(Seq<char>, Seq<SlotV>, usize)>) -> Seq<
    (Seq<Seq<char>>, SlotV),
>
    decreases rs.len(),
{
    if rs.len() == 0 {
        seq![]
    } else {
        result_entries(rs.drop_last()) + rs.last().1.map_values(
            |s: SlotV| (seq![rs.last().0, s.time_slot_id], s),
        )
    }
}

/// Total number of skipped time slots.
pub open spec fn skipped_total(rs: Seq<(Seq<char>, Seq<SlotV>, usize)>) -> nat
    decreases rs.len(),
{
    if rs.len() == 0 {
        0
    } else {
        skipped_total(rs.drop_last()) + rs.last().2 as nat
    }
}

/// Merges the per-date results (date, slots, skipped count), in the order they completed:
/// one slot per (date, slot id) in ascending order, a later one replacing an earlier one,
/// without slots that have no branch; the skipped counts add up.
pub fn merge_drill_down(results: &[(String, Vec<SlotDetail>, usize)]) -> (r: DrillDownResult)
    requires
        skipped_total(results@.map_values(|x: (String, Vec<SlotDetail>, usize)| date_result_v(x)))
            <= usize::MAX,
    ensures
        slots_v(r.details@) == collapse(
            result_entries(results@.map_values(|x: (String, Vec<SlotDetail>, usize)| date_result_v(x))),
        ).map_values(|e: (Seq<Seq<char>>, SlotV)| e.1).filter(|s: SlotV| has_branches(s)),
        r.soft_skipped_slots == skipped_total(
            results@.map_values(|x: (String, Vec<SlotDetail>, usize)| date_result_v(x)),
        ),
{
    let ghost rv = results@.map_values(|x: (String, Vec<SlotDetail>, usize)| date_result_v(x));
    let mut es: Vec<(Vec<String>, SlotDetail)> = Vec::new();
    let mut skipped: usize = 0;
    let mut i: usize = 0;
    while i < results.len()
        invariant
            i <= results@.len(),
            rv == results@.map_values(|x: (String, Vec<SlotDetail>, usize)| date_result_v(x)),
            skipped_total(rv) <= usize::MAX,
            entries_v(es@) == result_entries(rv.take(i as int)),
            skipped == skipped_total(rv.take(i as int)),
        decreases results.len() - i,
    {
        let (date, slots, n) = (&results[i].0, &results[i].1, results[i].2);
        let ghost x = rv[i as int];
        let ghost part = x.1.map_values(|s: SlotV| (seq![x.0, s.time_slot_id], s));
        assert(rv.take(i + 1 as int).drop_last() =~= rv.take(i as int));
        assert(rv.take(i + 1 as int).last() == x);
        let ghost base = entries_v(es@);
        let mut j: usize = 0;
        while j < slots.len()
            invariant
                j <= slots@.len(),
                x == date_result_v(results@[i as int]),
                *slots == results@[i as int].1,
                *date == results@[i as int].0,
                part == x.1.map_values(|s: SlotV| (seq![x.0, s.time_slot_id], s)),
                entries_v(es@) == base + part.take(j as int),
            decreases slots.len() - j,
        {
            let mut k: Vec<String> = Vec::new();
            k.push(date.clone());
            k.push(slots[j].time_slot_id.clone());
            assert(key_view(k) =~= seq![x.0, x.1[j as int].time_slot_id]);
            let ghost before = entries_v(es@);
            es.push((k, slots[j].duplicate()));
            assert(entries_v(es@) =~= before.push(part[j as int]));
            assert(part.take(j + 1 as int) =~= part.take(j as int).push(part[j as int]));
            j += 1;
        }
        assert(part.take(slots@.len() as int) =~= part);
        proof {
            lemma_skipped_prefix(rv, i + 1);
        }
        skipped = skipped + n;
        i += 1;
    }
    assert(rv.take(results@.len() as int) =~= rv);
    let c = collapse_last(es.as_slice());
    let details = values_with_branches(c.as_slice());
    DrillDownResult { details, soft_skipped_slots: skipped }
}

proof fn lemma_skipped_prefix(rs: Seq<(Seq<char>, Seq<SlotV>, usize)>, n: int)
    requires
        0 <= n <= rs.len(),
    ensures
        skipped_total(rs.take(n)) <= skipped_total(rs),
    decreases rs.len(),
{
    if n < rs.len() {
        assert(rs.drop_last().take(n) =~= rs.take(n));
        lemma_skipped_prefix(rs.drop_last(), n);
    } else {
        assert(rs.take(n) =~= rs);
    }
}

/// Whether a failed round raises an alert: from the third consecutive failure on, once,
/// and again at every tenth.
pub fn should_notify_failure(fail_count: u32, fail_notified: bool) -> (r: bool)
    ensures
        r == (fail_count >= 3 && (!fail_notified || fail_count % 10 == 0)),
{
    fail_count >= 3 && (!fail_notified || fail_count % 10 == 0)
}

} // verus!
