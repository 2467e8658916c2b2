//! Records shared by the parser, the snapshot store and the web view.
use vstd::prelude::*;
use crate::keyed::Copyable;

verus! {

/// One branch offering a slot, with its contact details.
#[derive(Clone, Debug, PartialEq, Eq)]
pub struct BranchInfo {
    pub name: String,
    pub code: String,
    pub status: String,
    pub address_cn: String,
    pub tel_no: String,
}

/// A bookable time slot on a date, with the branches that offer it.
#[derive(Clone, Debug, PartialEq, Eq)]
pub struct SlotDetail {
    pub date: String,
    pub time: String,
    pub time_slot_id: String,
    pub branches: Vec<BranchInfo>,
}

pub struct BranchV {
    pub name: Seq<char>,
    pub code: Seq<char>,
    pub status: Seq<char>,
    pub address_cn: Seq<char>,
    pub tel_no: Seq<char>,
}

pub struct SlotV {
    pub date: Seq<char>,
    pub time: Seq<char>,
    pub time_slot_id: Seq<char>,
    pub branches: Seq<BranchV>,
}

impl View for BranchInfo {
    type V = BranchV;

    open spec fn view(&self) -> BranchV {
        BranchV {
            name: self.name@,
            code: self.code@,
            status: self.status@,
            address_cn: self.address_cn@,
            tel_no: self.tel_no@,
        }
    }
}

pub open spec fn branches_v(bs: Seq<BranchInfo>) -> Seq<BranchV> {
    bs.map_values(|b: BranchInfo| b@)
}

impl View for SlotDetail {
    type V = SlotV;

    open spec fn view(&self) -> SlotV {
        SlotV {
            date: self.date@,
            time: self.time@,
            time_slot_id: self.time_slot_id@,
            branches: branches_v(self.branches@),
        }
    }
}

pub open spec fn slots_v(ss: Seq<SlotDetail>) -> Seq<SlotV> {
    ss.map_values(|s: SlotDetail| s@)
}

impl BranchInfo {
    /// A field-by-field copy.
    pub fn duplicate(&self) -> (r: BranchInfo)
        ensures
            r@ == self@,
    {
        BranchInfo {
            name: self.name.clone(),
            code: self.code.clone(),
            status: self.status.clone(),
            address_cn: self.address_cn.clone(),
            tel_no: self.tel_no.clone(),
        }
    }
}

impl Copyable for BranchInfo {
    fn copy_of(&self) -> (r: BranchInfo) {
        self.duplicate()
    }
}

/// Copies a list of branches.
pub fn copy_branches(bs: &[BranchInfo]) -> (r: Vec<BranchInfo>)
    ensures
        branches_v(r@) == branches_v(bs@),
{
    let mut r: Vec<BranchInfo> = Vec::new();
    let mut i: usize = 0;
    while i < bs.len()
        invariant
            i <= bs@.len(),
            r@.len() == i,
            forall|j: int| 0 <= j < i ==> #[trigger] r@[j]@ == bs@[j]@,
        decreases bs.len() - i,
    {
        r.push(bs[i].duplicate());
        i += 1;
    }
    assert(branches_v(r@) =~= branches_v(bs@));
    r
}

impl SlotDetail {
    /// A field-by-field copy.
    pub fn duplicate(&self) -> (r: SlotDetail)
        ensures
            r@ == self@,
    {
        SlotDetail {
            date: self.date.clone(),
            time: self.time.clone(),
            time_slot_id: self.time_slot_id.clone(),
            branches: copy_branches(self.branches.as_slice()),
        }
    }
}

/// Copies a list of slots.
pub fn copy_slots(ss: &[SlotDetail]) -> (r: Vec<SlotDetail>)
    ensures
        slots_v(r@) == slots_v(ss@),
{
    let mut r: Vec<SlotDetail> = Vec::new();
    let mut i: usize = 0;
    while i < ss.len()
        invariant
            i <= ss@.len(),
            r@.len() == i,
            forall|j: int| 0 <= j < i ==> #[trigger] r@[j]@ == ss@[j]@,
        decreases ss.len() - i,
    {
        r.push(ss[i].duplicate());
        i += 1;
    }
    assert(slots_v(r@) =~= slots_v(ss@));
    r
}

} // verus!
