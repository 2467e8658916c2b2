//! The drill-down of one available date as a state machine: from the date's time slots
//! to the districts and branches that offer them, with the branches' contact details.
//! The caller performs each requested action and hands back how it went.
use vstd::prelude::*;
use crate::json::{Json, JsonValue, get, json_wf, text_or_empty};
use crate::keys::texts_view;
use crate::models::{BranchInfo, BranchV, SlotDetail, SlotV, branches_v, slots_v};
use crate::monitor::{
    apply_branch_meta, collect_date_slots, date_slot, date_slots, is_soft_skip_error, meta_v,
    missing_branch_codes, missing_codes, refreshed, refreshed_branches, soft_skip_marker, with_meta,
};
use crate::parser::{date_splittable, spec_api_date, spec_format_date, to_api_date};
use crate::responses::{
    array_items, object_members, open_branches, open_districts, open_slots, pairs_v,
    parse_available_districts, parse_branch_detail, parse_branches, parse_time_slots,
    sorted_members, triples_v,
};
use crate::text::contains_text;

verus! {

/// The mode of every branch-list request of a drill-down: by date first.
pub const DATE_FIRST: &'static str = "D";

/// Pause before asking again for the districts of a time slot, in milliseconds.
pub const DISTRICT_RETRY_DELAY_MS: u64 = 250;

/// What the drill-down is waiting for.
#[derive(PartialEq, Eq, Structural, Clone, Copy, Debug)]
pub enum DrillPhase {
    Start,
    Session,
    Quota,
    TimeSlots,
    Districts,
    Branches,
    Contacts,
    Detail,
    Catalog,
    Finished,
}

/// How the last requested action went.
pub enum DrillEvent {
    /// The drill-down is started.
    Begin,
    /// The action succeeded without an answer to read.
    Done,
    /// The service answered.
    Answer(JsonValue),
    /// The stored contact details (code, (address, telephone)) of the branches.
    Contacts(Vec<(String, (String, String))>),
    /// The action failed with this error.
    Failure(String),
}

/// What the caller must do next.
pub enum DrillAction {
    /// Create a client and open a session.
    OpenSession,
    /// Ask for the date quota.
    FetchQuota,
    /// Ask for the time slots of the date.
    FetchTimeSlots { api_date: String },
    /// Wait `delay_ms`, then ask for the districts of a time slot.
    FetchDistricts { api_date: String, slot_id: String, delay_ms: u64 },
    /// Ask for the branches of a district.
    FetchBranches { api_date: String, slot_id: String, district: String },
    /// Read the stored contact details of these branch codes.
    LoadContacts { codes: Vec<String> },
    /// Ask for the details of a branch.
    FetchBranchDetail { code: String },
    /// Write these branches, with fresh contact details, to the catalog.
    SaveCatalog { branches: Vec<BranchInfo> },
    /// The drill-down is over: the date, its slots, and how many time slots were skipped.
    Finish { date: String, slots: Vec<SlotDetail>, soft_skipped: usize },
}

pub type MetaV = Seq<(Seq<char>, (Seq<char>, Seq<char>))>;

pub enum EventV {
    Begin,
    Done,
    Answer(Json),
    Contacts(MetaV),
    Failure(Seq<char>),
}

pub enum ActionV {
    OpenSession,
    FetchQuota,
    FetchTimeSlots { api_date: Seq<char> },
    FetchDistricts { api_date: Seq<char>, slot_id: Seq<char>, delay_ms: u64 },
    FetchBranches { api_date: Seq<char>, slot_id: Seq<char>, district: Seq<char> },
    LoadContacts { codes: Seq<Seq<char>> },
    FetchBranchDetail { code: Seq<char> },
    SaveCatalog { branches: Seq<BranchV> },
    Finish { date: Seq<char>, slots: Seq<SlotV>, soft_skipped: usize },
}

impl View for DrillEvent {
    type V = EventV;

    open spec fn view(&self) -> EventV {
        match self {
            DrillEvent::Begin => EventV::Begin,
            DrillEvent::Done => EventV::Done,
            DrillEvent::Answer(j) => EventV::Answer(j@),
            DrillEvent::Contacts(c) => EventV::Contacts(meta_v(c@)),
            DrillEvent::Failure(e) => EventV::Failure(e@),
        }
    }
}

impl View for DrillAction {
    type V = ActionV;

    open spec fn view(&self) -> ActionV {
        match self {
            DrillAction::OpenSession => ActionV::OpenSession,
            DrillAction::FetchQuota => ActionV::FetchQuota,
            DrillAction::FetchTimeSlots { api_date } => ActionV::FetchTimeSlots { api_date: api_date@ },
            DrillAction::FetchDistricts { api_date, slot_id, delay_ms } => ActionV::FetchDistricts {
                api_date: api_date@,
                slot_id: slot_id@,
                delay_ms: *delay_ms,
            },
            DrillAction::FetchBranches { api_date, slot_id, district } => ActionV::FetchBranches {
                api_date: api_date@,
                slot_id: slot_id@,
                district: district@,
            },
            DrillAction::LoadContacts { codes } => ActionV::LoadContacts { codes: texts_view(codes@) },
            DrillAction::FetchBranchDetail { code } => ActionV::FetchBranchDetail { code: code@ },
            DrillAction::SaveCatalog { branches } => ActionV::SaveCatalog {
                branches: branches_v(branches@),
            },
            DrillAction::Finish { date, slots, soft_skipped } => ActionV::Finish {
                date: date@,
                slots: slots_v(slots@),
                soft_skipped: *soft_skipped,
            },
        }
    }
}

/// The drill-down of one date.
pub struct DateDrill {
    pub date: String,
    pub api_date: String,
    pub phase: DrillPhase,
    /// The bookable time slots (slot id, time, status).
    pub slots: Vec<(String, String, String)>,
    pub slot_index: usize,
    /// The districts (key, name) of the current time slot.
    pub districts: Vec<(String, String)>,
    pub district_index: usize,
    /// Whether the districts of the current time slot were already asked for again.
    pub retried: bool,
    /// The branches found for the current time slot.
    pub branches: Vec<BranchInfo>,
    /// The stored contact details of the current branches.
    pub stored: Vec<(String, (String, String))>,
    /// The codes whose contact details are being fetched.
    pub missing: Vec<String>,
    pub missing_index: usize,
    /// The contact details fetched for the current time slot.
    pub fetched: Vec<(String, (String, String))>,
    /// The contact details fetched during this drill-down.
    pub cache: Vec<(String, (String, String))>,
    /// The slots found so far.
    pub found: Vec<SlotDetail>,
    pub soft_skipped: usize,
}

pub struct DrillV {
    pub date: Seq<char>,
    pub api_date: Seq<char>,
    pub phase: DrillPhase,
    pub slots: Seq<(Seq<char>, Seq<char>, Seq<char>)>,
    pub slot_index: usize,
    pub districts: Seq<(Seq<char>, Seq<char>)>,
    pub district_index: usize,
    pub retried: bool,
    pub branches: Seq<BranchV>,
    pub stored: MetaV,
    pub missing: Seq<Seq<char>>,
    pub missing_index: usize,
    pub fetched: MetaV,
    pub cache: MetaV,
    pub found: Seq<SlotV>,
    pub soft_skipped: usize,
}

impl View for DateDrill {
    type V = DrillV;

    open spec fn view(&self) -> DrillV {
        DrillV {
            date: self.date@,
            api_date: self.api_date@,
            phase: self.phase,
            slots: triples_v(self.slots@),
            slot_index: self.slot_index,
            districts: pairs_v(self.districts@),
            district_index: self.district_index,
            retried: self.retried,
            branches: branches_v(self.branches@),
            stored: meta_v(self.stored@),
            missing: texts_view(self.missing@),
            missing_index: self.missing_index,
            fetched: meta_v(self.fetched@),
            cache: meta_v(self.cache@),
            found: slots_v(self.found@),
            soft_skipped: self.soft_skipped,
        }
    }
}

/// A drill-down state that can take a step: its indices are in range and the skipped
/// count stays below the slots seen.
pub open spec fn drill_wf(m: DrillV) -> bool {
    &&& date_splittable(m.date)
    &&& m.api_date == spec_api_date(m.date)
    &&& m.soft_skipped <= m.slot_index
    &&& m.slot_index <= m.slots.len()
    &&& m.slots.len() <= usize::MAX
    &&& m.districts.len() <= usize::MAX
    &&& m.missing.len() <= usize::MAX
    &&& (m.phase == DrillPhase::Start || m.phase == DrillPhase::Session || m.phase
        == DrillPhase::Quota || m.phase == DrillPhase::TimeSlots) ==> m.soft_skipped == 0
    &&& (m.phase == DrillPhase::Districts || m.phase == DrillPhase::Branches || m.phase
        == DrillPhase::Contacts || m.phase == DrillPhase::Detail || m.phase == DrillPhase::Catalog)
        ==> m.slot_index < m.slots.len()
    &&& m.phase == DrillPhase::Branches ==> m.district_index < m.districts.len()
    &&& m.phase == DrillPhase::Detail ==> m.missing_index < m.missing.len()
}

/// The time slots of an answer.
pub open spec fn slots_of(r: Json) -> Seq<(Seq<char>, Seq<char>, Seq<char>)> {
    open_slots(sorted_members(object_members(r, "dateTimeQuota"@)))
}

/// The districts of an answer.
pub open spec fn districts_of(r: Json) -> Seq<(Seq<char>, Seq<char>)> {
    open_districts(array_items(r, "branchDistrictList"@))
}

/// The branches of an answer.
pub open spec fn branches_of(r: Json) -> Seq<BranchV> {
    open_branches(array_items(r, "availableBranchList"@))
}

/// The contact details of a branch detail answer.
pub open spec fn detail_of(r: Json) -> (Seq<char>, Seq<char>) {
    (text_or_empty(get(r, "addressCn"@)), text_or_empty(get(r, "telNo"@)))
}

/// The drill-down ends with nothing found.
pub open spec fn finish_empty(m: DrillV) -> (DrillV, ActionV) {
    (
        DrillV { phase: DrillPhase::Finished, ..m },
        ActionV::Finish { date: m.date, slots: seq![], soft_skipped: 0 },
    )
}

/// Moves to the time slot at `slot_index`, or ends when there is none left.
pub open spec fn begin_slot(m: DrillV) -> (DrillV, ActionV) {
    if m.slot_index >= m.slots.len() {
        (
            DrillV { phase: DrillPhase::Finished, ..m },
            ActionV::Finish { date: m.date, slots: date_slots(m.found), soft_skipped: m.soft_skipped },
        )
    } else {
        (
            DrillV { phase: DrillPhase::Districts, retried: false, ..m },
            ActionV::FetchDistricts {
                api_date: m.api_date,
                slot_id: m.slots[m.slot_index as int].0,
                delay_ms: 0,
            },
        )
    }
}

/// The next time slot.
pub open spec fn skip_slot(m: DrillV) -> (DrillV, ActionV) {
    begin_slot(DrillV { slot_index: (m.slot_index + 1) as usize, ..m })
}

/// Records the slot with its branches, their contact details filled in, and remembers
/// the fetched details; writes branches with fresh details to the catalog first.
pub open spec fn finish_slot(m: DrillV) -> (DrillV, ActionV) {
    let applied = m.branches.map_values(|b: BranchV| with_meta(b, m.cache, m.stored, m.fetched));
    let s = m.slots[m.slot_index as int];
    let slot = SlotV {
        date: spec_format_date(m.date),
        time: s.1,
        time_slot_id: s.0,
        branches: applied,
    };
    let m2 = DrillV { found: m.found.push(slot), cache: m.cache + m.fetched, ..m };
    let fresh = refreshed(m.branches, m.fetched);
    if m.fetched.len() > 0 && fresh.len() > 0 {
        (DrillV { phase: DrillPhase::Catalog, ..m2 }, ActionV::SaveCatalog { branches: fresh })
    } else {
        skip_slot(m2)
    }
}

/// Asks for the next missing contact details, or records the slot.
pub open spec fn next_detail(m: DrillV) -> (DrillV, ActionV) {
    if m.missing_index < m.missing.len() {
        (
            DrillV { phase: DrillPhase::Detail, ..m },
            ActionV::FetchBranchDetail { code: m.missing[m.missing_index as int] },
        )
    } else {
        finish_slot(m)
    }
}

/// Asks for the branches of the next district; after the last, for the stored contact
/// details of the branches found, or moves on when none was found.
pub open spec fn next_district(m: DrillV) -> (DrillV, ActionV) {
    if m.district_index < m.districts.len() {
        (
            DrillV { phase: DrillPhase::Branches, ..m },
            ActionV::FetchBranches {
                api_date: m.api_date,
                slot_id: m.slots[m.slot_index as int].0,
                district: m.districts[m.district_index as int].0,
            },
        )
    } else if m.branches.len() == 0 {
        skip_slot(m)
    } else {
        (
            DrillV { phase: DrillPhase::Contacts, ..m },
            ActionV::LoadContacts { codes: m.branches.map_values(|b: BranchV| b.code) },
        )
    }
}

/// One step of the drill-down.
pub open spec fn drill_next(m: DrillV, e: EventV) -> (DrillV, ActionV) {
    match m.phase {
        DrillPhase::Start => (DrillV { phase: DrillPhase::Session, ..m }, ActionV::OpenSession),
        DrillPhase::Session => match e {
            EventV::Failure(_) => finish_empty(m),
            _ => (DrillV { phase: DrillPhase::Quota, ..m }, ActionV::FetchQuota),
        },
        DrillPhase::Quota => match e {
            EventV::Failure(_) => finish_empty(m),
            _ => (
                DrillV { phase: DrillPhase::TimeSlots, ..m },
                ActionV::FetchTimeSlots { api_date: m.api_date },
            ),
        },
        DrillPhase::TimeSlots => match e {
            EventV::Answer(r) => begin_slot(DrillV { slots: slots_of(r), slot_index: 0, ..m }),
            _ => finish_empty(m),
        },
        DrillPhase::Districts => match e {
            EventV::Answer(r) => {
                let ds = districts_of(r);
                if ds.len() == 0 {
                    skip_slot(m)
                } else {
                    next_district(
                        DrillV { districts: ds, district_index: 0, branches: seq![], ..m },
                    )
                }
            },
            EventV::Failure(t) => if !m.retried && contains_text(t, soft_skip_marker()) {
                (
                    DrillV { retried: true, ..m },
                    ActionV::FetchDistricts {
                        api_date: m.api_date,
                        slot_id: m.slots[m.slot_index as int].0,
                        delay_ms: DISTRICT_RETRY_DELAY_MS,
                    },
                )
            } else if contains_text(t, soft_skip_marker()) {
                skip_slot(DrillV { soft_skipped: (m.soft_skipped + 1) as usize, ..m })
            } else {
                skip_slot(m)
            },
            _ => skip_slot(m),
        },
        DrillPhase::Branches => {
            let bs = match e {
                EventV::Answer(r) => m.branches + branches_of(r),
                _ => m.branches,
            };
            next_district(
                DrillV { branches: bs, district_index: (m.district_index + 1) as usize, ..m },
            )
        },
        DrillPhase::Contacts => {
            let stored = match e {
                EventV::Contacts(c) => c,
                _ => seq![],
            };
            next_detail(
                DrillV {
                    stored,
                    missing: missing_codes(m.branches, m.cache, stored),
                    missing_index: 0,
                    fetched: seq![],
                    ..m
                },
            )
        },
        DrillPhase::Detail => {
            let fetched = match e {
                EventV::Answer(r) => m.fetched.push((m.missing[m.missing_index as int], detail_of(r))),
                _ => m.fetched,
            };
            next_detail(
                DrillV { fetched, missing_index: (m.missing_index + 1) as usize, ..m },
            )
        },
        DrillPhase::Catalog => skip_slot(m),
        DrillPhase::Finished => (
            m,
            ActionV::Finish { date: m.date, slots: date_slots(m.found), soft_skipped: m.soft_skipped },
        ),
    }
}

/// Copies contact details.
fn copy_meta(m: &[(String, (String, String))]) -> (r: Vec<(String, (String, String))>)
    ensures
        meta_v(r@) == meta_v(m@),
{
    let mut r: Vec<(String, (String, String))> = Vec::new();
    let mut i: usize = 0;
    while i < m.len()
        invariant
            i <= m@.len(),
            r@.len() == i,
            forall|q: int| 0 <= q < i ==> #[trigger] meta_v(r@)[q] == meta_v(m@)[q],
        decreases m.len() - i,
    {
        let ghost before = r@;
        r.push((m[i].0.clone(), (m[i].1.0.clone(), m[i].1.1.clone())));
        assert forall|q: int| 0 <= q < i + 1 implies #[trigger] meta_v(r@)[q] == meta_v(m@)[q] by {
            if q < i {
                assert(r@[q] == before[q]);
                assert(meta_v(before)[q] == meta_v(m@)[q]);
            }
        }
        i += 1;
    }
    assert(meta_v(r@) =~= meta_v(m@));
    r
}

impl DateDrill {
    /// The drill-down of a date `YYYYMMDD`, not yet started.
    pub fn new(date: &str) -> (r: DateDrill)
        requires
            date_splittable(date@),
        ensures
            r@.date == date@,
            r@.api_date == spec_api_date(date@),
            r@.phase == DrillPhase::Start,
            r@.slots.len() == 0,
            r@.found.len() == 0,
            r@.cache.len() == 0,
            r@.soft_skipped == 0,
            drill_wf(r@),
    {
        let r = DateDrill {
            date: crate::text::owned(date),
            api_date: to_api_date(date),
            phase: DrillPhase::Start,
            slots: Vec::new(),
            slot_index: 0,
            districts: Vec::new(),
            district_index: 0,
            retried: false,
            branches: Vec::new(),
            stored: Vec::new(),
            missing: Vec::new(),
            missing_index: 0,
            fetched: Vec::new(),
            cache: Vec::new(),
            found: Vec::new(),
            soft_skipped: 0,
        };
        assert(triples_v(r.slots@) =~= seq![]);
        assert(slots_v(r.found@) =~= seq![]);
        assert(meta_v(r.cache@) =~= seq![]);
        r
    }

    fn begin_slot(&mut self) -> (a: DrillAction)
        requires
            drill_wf(old(self)@),
            old(self).phase != DrillPhase::Branches,
            old(self).phase != DrillPhase::Detail,
        ensures
            (final(self)@, a@) == begin_slot(old(self)@),
            drill_wf(final(self)@),
    {
        if self.slot_index >= self.slots.len() {
            self.phase = DrillPhase::Finished;
            let slots = collect_date_slots(self.found.as_slice());
            DrillAction::Finish {
                date: self.date.clone(),
                slots,
                soft_skipped: self.soft_skipped,
            }
        } else {
            self.phase = DrillPhase::Districts;
            self.retried = false;
            DrillAction::FetchDistricts {
                api_date: self.api_date.clone(),
                slot_id: self.slots[self.slot_index].0.clone(),
                delay_ms: 0,
            }
        }
    }

    fn skip_slot(&mut self) -> (a: DrillAction)
        requires
            drill_wf(old(self)@),
            old(self).slot_index < old(self).slots@.len(),
        ensures
            (final(self)@, a@) == skip_slot(old(self)@),
            drill_wf(final(self)@),
    {
        let n = self.slots.len();
        assert(self.slot_index < n);
        self.slot_index = self.slot_index + 1;
        self.phase = DrillPhase::Finished;
        self.begin_slot()
    }

    fn finish_slot(&mut self) -> (a: DrillAction)
        requires
            drill_wf(old(self)@),
            old(self).slot_index < old(self).slots@.len(),
        ensures
            (final(self)@, a@) == finish_slot(old(self)@),
            drill_wf(final(self)@),
    {
        let ghost m = self@;
        let applied = apply_branch_meta(
            self.branches.as_slice(),
            self.cache.as_slice(),
            self.stored.as_slice(),
            self.fetched.as_slice(),
        );
        let s = &self.slots[self.slot_index];
        let slot = date_slot(self.date.as_str(), s.1.clone(), s.0.clone(), applied);
        let fresh = refreshed_branches(self.branches.as_slice(), self.fetched.as_slice());
        self.found.push(slot);
        let mut fetched_copy = copy_meta(self.fetched.as_slice());
        let ghost cache_before = meta_v(self.cache@);
        self.cache.append(&mut fetched_copy);
        assert(meta_v(self.cache@) =~= cache_before + m.fetched);
        assert(slots_v(self.found@) =~= m.found.push(slot@));
        if self.fetched.len() > 0 && fresh.len() > 0 {
            self.phase = DrillPhase::Catalog;
            DrillAction::SaveCatalog { branches: fresh }
        } else {
            self.phase = DrillPhase::Catalog;
            self.skip_slot()
        }
    }

    fn next_detail(&mut self) -> (a: DrillAction)
        requires
            drill_wf(old(self)@),
            old(self).slot_index < old(self).slots@.len(),
            old(self).missing_index <= old(self).missing@.len(),
        ensures
            (final(self)@, a@) == next_detail(old(self)@),
            drill_wf(final(self)@),
    {
        if self.missing_index < self.missing.len() {
            self.phase = DrillPhase::Detail;
            DrillAction::FetchBranchDetail { code: self.missing[self.missing_index].clone() }
        } else {
            self.phase = DrillPhase::Contacts;
            self.finish_slot()
        }
    }

    fn next_district(&mut self) -> (a: DrillAction)
        requires
            drill_wf(old(self)@),
            old(self).slot_index < old(self).slots@.len(),
        ensures
            (final(self)@, a@) == next_district(old(self)@),
            drill_wf(final(self)@),
    {
        if self.district_index < self.districts.len() {
            self.phase = DrillPhase::Branches;
            DrillAction::FetchBranches {
                api_date: self.api_date.clone(),
                slot_id: self.slots[self.slot_index].0.clone(),
                district: self.districts[self.district_index].0.clone(),
            }
        } else if self.branches.len() == 0 {
            self.phase = DrillPhase::Catalog;
            self.skip_slot()
        } else {
            self.phase = DrillPhase::Contacts;
            let mut codes: Vec<String> = Vec::new();
            let mut i: usize = 0;
            while i < self.branches.len()
                invariant
                    i <= self.branches@.len(),
                    codes@.len() == i,
                    forall|q: int| 0 <= q < i ==> #[trigger] codes@[q]@ == self.branches@[q].code@,
                decreases self.branches.len() - i,
            {
                codes.push(self.branches[i].code.clone());
                i += 1;
            }
            assert(texts_view(codes@) =~= branches_v(self.branches@).map_values(|b: BranchV| b.code));
            DrillAction::LoadContacts { codes }
        }
    }

    /// Takes one step: hands in how the last action went and gets the next one.
    pub fn step(&mut self, event: DrillEvent) -> (a: DrillAction)
        requires
            drill_wf(old(self)@),
            event matches DrillEvent::Answer(j) ==> json_wf(j@),
        ensures
            (final(self)@, a@) == drill_next(old(self)@, event@),
            drill_wf(final(self)@),
    {
        match self.phase {
            DrillPhase::Start => {
                self.phase = DrillPhase::Session;
                DrillAction::OpenSession
            },
            DrillPhase::Session => match event {
                DrillEvent::Failure(_) => self.finish_empty(),
                _ => {
                    self.phase = DrillPhase::Quota;
                    DrillAction::FetchQuota
                },
            },
            DrillPhase::Quota => match event {
                DrillEvent::Failure(_) => self.finish_empty(),
                _ => {
                    self.phase = DrillPhase::TimeSlots;
                    DrillAction::FetchTimeSlots { api_date: self.api_date.clone() }
                },
            },
            DrillPhase::TimeSlots => match event {
                DrillEvent::Answer(r) => {
                    self.slots = parse_time_slots(&r);
                    let n = self.slots.len();
                    assert(triples_v(self.slots@).len() == n);
                    self.slot_index = 0;
                    self.begin_slot()
                },
                _ => self.finish_empty(),
            },
            DrillPhase::Districts => match event {
                DrillEvent::Answer(r) => {
                    let ds = parse_available_districts(&r);
                    if ds.len() == 0 {
                        self.skip_slot()
                    } else {
                        self.districts = ds;
                        let n = self.districts.len();
                        assert(pairs_v(self.districts@).len() == n);
                        self.district_index = 0;
                        self.branches = Vec::new();
                        assert(branches_v(self.branches@) =~= seq![]);
                        self.next_district()
                    }
                },
                DrillEvent::Failure(t) => {
                    let soft = is_soft_skip_error(t.as_str());
                    if !self.retried && soft {
                        self.retried = true;
                        DrillAction::FetchDistricts {
                            api_date: self.api_date.clone(),
                            slot_id: self.slots[self.slot_index].0.clone(),
                            delay_ms: DISTRICT_RETRY_DELAY_MS,
                        }
                    } else if soft {
                        let n = self.slots.len();
                        assert(self.slot_index < n);
                        self.slot_index = self.slot_index + 1;
                        self.soft_skipped = self.soft_skipped + 1;
                        self.phase = DrillPhase::Finished;
                        self.begin_slot()
                    } else {
                        self.skip_slot()
                    }
                },
                _ => self.skip_slot(),
            },
            DrillPhase::Branches => {
                match event {
                    DrillEvent::Answer(r) => {
                        let mut found = parse_branches(&r);
                        let ghost before = branches_v(self.branches@);
                        self.branches.append(&mut found);
                        assert(branches_v(self.branches@) =~= before + crate::drill::branches_of(r@));
                    },
                    _ => {},
                }
                let n = self.districts.len();
                assert(self.district_index < n);
                self.district_index = self.district_index + 1;
                self.phase = DrillPhase::Contacts;
                self.next_district()
            },
            DrillPhase::Contacts => {
                let stored = match event {
                    DrillEvent::Contacts(c) => c,
                    _ => Vec::new(),
                };
                assert(meta_v(stored@) == match event@ {
                    EventV::Contacts(c) => c,
                    _ => Seq::<(Seq<char>, (Seq<char>, Seq<char>))>::empty(),
                }) by {
                    if !(event@ is Contacts) {
                        assert(meta_v(stored@) =~= seq![]);
                    }
                }
                self.missing = missing_branch_codes(
                    self.branches.as_slice(),
                    self.cache.as_slice(),
                    stored.as_slice(),
                );
                self.stored = stored;
                let n = self.missing.len();
                assert(texts_view(self.missing@).len() == n);
                self.missing_index = 0;
                self.fetched = Vec::new();
                assert(meta_v(self.fetched@) =~= seq![]);
                self.next_detail()
            },
            DrillPhase::Detail => {
                match event {
                    DrillEvent::Answer(r) => {
                        let (address_cn, tel_no) = parse_branch_detail(&r);
                        let ghost before = meta_v(self.fetched@);
                        self.fetched.push((self.missing[self.missing_index].clone(), (address_cn, tel_no)));
                        assert(meta_v(self.fetched@) =~= before.push(
                            (texts_view(self.missing@)[self.missing_index as int], detail_of(r@)),
                        ));
                    },
                    _ => {},
                }
                let n = self.missing.len();
                assert(self.missing_index < n);
                self.missing_index = self.missing_index + 1;
                self.phase = DrillPhase::Contacts;
                self.next_detail()
            },
            DrillPhase::Catalog => self.skip_slot(),
            DrillPhase::Finished => {
                let slots = collect_date_slots(self.found.as_slice());
                DrillAction::Finish {
                    date: self.date.clone(),
                    slots,
                    soft_skipped: self.soft_skipped,
                }
            },
        }
    }

    fn finish_empty(&mut self) -> (a: DrillAction)
        requires
            drill_wf(old(self)@),
        ensures
            (final(self)@, a@) == finish_empty(old(self)@),
            drill_wf(final(self)@),
    {
        self.phase = DrillPhase::Finished;
        let slots: Vec<SlotDetail> = Vec::new();
        assert(slots_v(slots@) =~= seq![]);
        DrillAction::Finish { date: self.date.clone(), slots, soft_skipped: 0 }
    }
}


/// The service action and request body of an action that posts to the service: the
/// quota, the time slots of the date, and the districts (an empty district) or branches of
/// a time slot, both in date-first mode; nothing for the other actions.
pub open spec fn request_of(a: ActionV) -> Option<(Seq<char>, Seq<char>)> {
    match a {
        ActionV::FetchQuota => Some(("jsonAvailableDateAndTime.action"@, "bean.appDate="@)),
        ActionV::FetchTimeSlots { api_date } => Some(
            ("jsonAvailableDateAndTime.action"@, "bean.appDate="@ + api_date),
        ),
        ActionV::FetchDistricts { api_date, slot_id, .. } => Some(
            (
                "jsonAvailableBrsByDT.action"@,
                crate::client::branches_body_text(api_date, slot_id, seq![], "D"@),
            ),
        ),
        ActionV::FetchBranches { api_date, slot_id, district } => Some(
            (
                "jsonAvailableBrsByDT.action"@,
                crate::client::branches_body_text(api_date, slot_id, district, "D"@),
            ),
        ),
        _ => None,
    }
}

/// The service action and body of an action that posts to the service.
pub fn service_request(action: &DrillAction) -> (r: Option<(String, String)>)
    ensures
        match request_of(action@) {
            Some(q) => r matches Some(x) && x.0@ == q.0 && x.1@ == q.1,
            None => r is None,
        },
{
    match action {
        DrillAction::FetchQuota => Some(
            (crate::text::owned("jsonAvailableDateAndTime.action"), crate::client::date_quota_body()),
        ),
        DrillAction::FetchTimeSlots { api_date } => Some(
            (
                crate::text::owned("jsonAvailableDateAndTime.action"),
                crate::client::time_slots_body(api_date.as_str()),
            ),
        ),
        DrillAction::FetchDistricts { api_date, slot_id, .. } => {
            let r = crate::client::branches_body(api_date.as_str(), slot_id.as_str(), "", DATE_FIRST);
            proof {
                reveal_strlit("");
            }
            Some((crate::text::owned("jsonAvailableBrsByDT.action"), r))
        },
        DrillAction::FetchBranches { api_date, slot_id, district } => Some(
            (
                crate::text::owned("jsonAvailableBrsByDT.action"),
                crate::client::branches_body(
                    api_date.as_str(),
                    slot_id.as_str(),
                    district.as_str(),
                    DATE_FIRST,
                ),
            ),
        ),
        _ => None,
    }
}

/// How far a drill-down still has to go: stage before the time slots are known, time
/// slots left, step within the current time slot, and requests left in that step.
pub open spec fn drill_rank(m: DrillV) -> (int, int, int, int) {
    match m.phase {
        DrillPhase::Start => (4, 0, 0, 0),
        DrillPhase::Session => (3, 0, 0, 0),
        DrillPhase::Quota => (2, 0, 0, 0),
        DrillPhase::TimeSlots => (1, 0, 0, 0),
        DrillPhase::Districts => (0, m.slots.len() - m.slot_index, if m.retried { 5 } else { 6 }, 0),
        DrillPhase::Branches => (0, m.slots.len() - m.slot_index, 4, m.districts.len() - m.district_index),
        DrillPhase::Contacts => (0, m.slots.len() - m.slot_index, 3, 0),
        DrillPhase::Detail => (0, m.slots.len() - m.slot_index, 2, m.missing.len() - m.missing_index),
        DrillPhase::Catalog => (0, m.slots.len() - m.slot_index, 1, 0),
        DrillPhase::Finished => (0, 0, 0, 0),
    }
}

/// Lexicographic order on ranks.
pub open spec fn rank_lt(a: (int, int, int, int), b: (int, int, int, int)) -> bool {
    a.0 < b.0 || (a.0 == b.0 && (a.1 < b.1 || (a.1 == b.1 && (a.2 < b.2 || (a.2 == b.2 && a.3
        < b.3)))))
}

pub open spec fn rank_ok(r: (int, int, int, int)) -> bool {
    r.0 >= 0 && r.1 >= 0 && r.2 >= 0 && r.3 >= 0
}

/// The drill-down always finishes: whatever happens to each request, every step before
/// the end lowers the rank, which cannot fall below zero; once finished it stays finished
/// and keeps reporting the same result.
pub proof fn law_drill_down_finishes(m: DrillV, e: EventV)
    requires
        drill_wf(m),
    ensures
        rank_ok(drill_rank(m)),
        rank_ok(drill_rank(drill_next(m, e).0)),
        m.phase != DrillPhase::Finished ==> rank_lt(drill_rank(drill_next(m, e).0), drill_rank(m)),
        m.phase == DrillPhase::Finished ==> drill_next(m, e).0 == m && drill_next(m, e).1
            == (ActionV::Finish { date: m.date, slots: date_slots(m.found), soft_skipped: m.soft_skipped }),
        drill_next(m, e).0.phase == DrillPhase::Finished ==> (drill_next(m, e).1 is Finish),
{
    let r = drill_rank(m);
    match m.phase {
        DrillPhase::Districts => {
            match e {
                EventV::Answer(a) => {
                    let ds = districts_of(a);
                    if ds.len() > 0 {
                        let m1 = DrillV { districts: ds, district_index: 0, branches: seq![], ..m };
                        assert(next_district(m1).0.phase == DrillPhase::Branches);
                    }
                },
                _ => {},
            }
        },
        DrillPhase::Branches => {
            let bs = match e {
                EventV::Answer(a) => m.branches + branches_of(a),
                _ => m.branches,
            };
            let m1 = DrillV { branches: bs, district_index: (m.district_index + 1) as usize, ..m };
            assert(drill_next(m, e) == next_district(m1));
        },
        DrillPhase::Contacts => {
            let stored = match e {
                EventV::Contacts(c) => c,
                _ => seq![],
            };
            let m1 = DrillV {
                stored,
                missing: missing_codes(m.branches, m.cache, stored),
                missing_index: 0,
                fetched: seq![],
                ..m
            };
            assert(drill_next(m, e) == next_detail(m1));
        },
        DrillPhase::Detail => {
            let fetched = match e {
                EventV::Answer(a) => m.fetched.push((m.missing[m.missing_index as int], detail_of(a))),
                _ => m.fetched,
            };
            let m1 = DrillV { fetched, missing_index: (m.missing_index + 1) as usize, ..m };
            assert(drill_next(m, e) == next_detail(m1));
        },
        _ => {},
    }
}

/// A district's answer keeps the branches found in the slot's earlier districts and adds
/// the open branches it lists after them: while any branch has been found, the branches
/// held after the step are exactly those found before followed by the answer's own.
pub proof fn law_district_branches_accumulate(m: DrillV, r: Json)
    requires
        m.phase == DrillPhase::Branches,
    ensures
        m.branches.len() + branches_of(r).len() > 0 ==> {
            let n = drill_next(m, EventV::Answer(r)).0;
            &&& n.branches == m.branches + branches_of(r)
            &&& n.phase == DrillPhase::Branches || n.phase == DrillPhase::Contacts
        },
{
}

} // verus!
