//! Reading the service's JSON responses: available dates, time slots,
//! districts, branches and branch contact details.
use vstd::prelude::*;
use crate::json::{
    Json, JsonValue, as_text, get, get_field, json_v, lemma_members_v, lemma_array_v, members_v,
    array_v, json_wf, text_or_empty,
};
use crate::keys::{positions, stable_lt, stable_text_order, texts_view, tlt};
use crate::models::{BranchInfo, BranchV, branches_v};
use crate::order::ascending;
use crate::text::{chars_of, rfind, rfind_char, slice_chars, string_of};

verus! {

/// The members of `response[k]` when it is an object; none otherwise.
pub open spec fn object_members(response: Json, k: Seq<char>) -> Seq<(Seq<char>, Json)> {
    match get(response, k) {
        Some(Json::Object(m)) => m,
        _ => seq![],
    }
}

/// The items of `response[k]` when it is an array; none otherwise.
pub open spec fn array_items(response: Json, k: Seq<char>) -> Seq<Json> {
    match get(response, k) {
        Some(Json::Array(a)) => a,
        _ => seq![],
    }
}

/// The texts reordered by text, equal texts keeping their order (a stable sort).
pub open spec fn sorted_texts(ts: Seq<Seq<char>>) -> Seq<Seq<char>> {
    ascending(positions(ts.len() as int), stable_lt(ts)).map_values(|i: int| ts[i])
}

/// Keys of the members whose value is the string `A`, in member order.
pub open spec fn open_keys(m: Seq<(Seq<char>, Json)>) -> Seq<Seq<char>>
    decreases m.len(),
{
    if m.len() == 0 {
        seq![]
    } else if m.last().1 == Json::Str(seq!['A']) {
        open_keys(m.drop_last()).push(m.last().0)
    } else {
        open_keys(m.drop_last())
    }
}

/// A value `prefix_status` split at its last underscore.
pub open spec fn status_split(v: Seq<char>) -> Option<(Seq<char>, Seq<char>)> {
    match rfind(v, '_') {
        Some(p) => Some((v.subrange(0, p), v.subrange(p + 1, v.len() as int))),
        None => None,
    }
}

/// Whether a text is exactly `A`.
fn is_open(s: &[char]) -> (r: bool)
    ensures
        r == (s@ == seq!['A']),
{
    if s.len() == 1 && s[0] == 'A' {
        assert(s@ =~= seq!['A']);
        true
    } else {
        false
    }
}

/// Splits a value at its last underscore.
fn split_status(v: &str) -> (r: Option<(Vec<char>, Vec<char>)>)
    ensures
        r matches Some(p) ==> status_split(v@) == Some((p.0@, p.1@)),
        r is None ==> status_split(v@) is None,
{
    let cs = chars_of(v);
    match rfind_char(cs.as_slice(), '_') {
        Some(p) => {
            proof {
                crate::text::lemma_rfind(cs@, '_');
            }
            let head = slice_chars(cs.as_slice(), 0, p);
            let tail = slice_chars(cs.as_slice(), p + 1, cs.len());
            Some((head, tail))
        },
        None => None,
    }
}

/// Copies the texts in the order given by `order`.
fn pick_texts(ts: &[String], order: &[usize]) -> (r: Vec<String>)
    requires
        forall|i: int| 0 <= i < order@.len() ==> #[trigger] order@[i] < ts@.len(),
    ensures
        texts_view(r@) == order@.map_values(|i: usize| texts_view(ts@)[i as int]),
{
    let mut r: Vec<String> = Vec::new();
    let mut j: usize = 0;
    while j < order.len()
        invariant
            j <= order@.len(),
            forall|i: int| 0 <= i < order@.len() ==> #[trigger] order@[i] < ts@.len(),
            r@.len() == j,
            forall|q: int| 0 <= q < j ==> #[trigger] r@[q]@ == ts@[order@[q] as int]@,
        decreases order.len() - j,
    {
        r.push(ts[order[j]].clone());
        j += 1;
    }
    assert(texts_view(r@) =~= order@.map_values(|i: usize| texts_view(ts@)[i as int]));
    r
}

/// The texts sorted, equal texts keeping their order.
pub fn sort_texts(ts: &[String]) -> (r: Vec<String>)
    ensures
        texts_view(r@) == sorted_texts(texts_view(ts@)),
{
    let order = stable_text_order(ts);
    let r = pick_texts(ts, order.as_slice());
    let ghost tv = texts_view(ts@);
    let ghost asc = ascending(positions(tv.len() as int), stable_lt(tv));
    assert(texts_view(r@) =~= sorted_texts(tv)) by {
        assert(order@.map_values(|i: usize| i as int) == asc);
        assert forall|q: int| 0 <= q < order@.len() implies #[trigger] asc[q] == order@[q] as int by {
            assert(order@.map_values(|i: usize| i as int)[q] == order@[q] as int);
        }
    }
    r
}

/// The dates whose quota status is `A`, in ascending order.
pub fn extract_available_dates(response: &JsonValue) -> (r: Vec<String>)
    requires
        json_wf(response@),
    ensures
        texts_view(r@) == sorted_texts(open_keys(object_members(response@, "dateQuota"@))),
{
    let mut dates: Vec<String> = Vec::new();
    let ghost mut mv: Seq<(Seq<char>, Json)> = seq![];
    match get_field(response, "dateQuota") {
        Some(JsonValue::Object(quota)) => {
            proof {
                lemma_members_v(quota@);
                mv = members_v(quota@);
            }
            let mut i: usize = 0;
            while i < quota.len()
                invariant
                    i <= quota@.len(),
                    mv == members_v(quota@),
                    mv.len() == quota@.len(),
                    forall|q: int|
                        0 <= q < quota@.len() ==> #[trigger] mv[q] == (quota@[q].0@, json_v(
                            quota@[q].1,
                        )),
                    texts_view(dates@) == open_keys(mv.take(i as int)),
                decreases quota.len() - i,
            {
                assert(mv.take(i + 1 as int).drop_last() =~= mv.take(i as int));
                let is_a = match &quota[i].1 {
                    JsonValue::Str(s) => is_open(chars_of(s.as_str()).as_slice()),
                    _ => false,
                };
                assert(is_a == (mv[i as int].1 == Json::Str(seq!['A'])));
                if is_a {
                    dates.push(quota[i].0.clone());
                }
                assert(texts_view(dates@) =~= open_keys(mv.take(i + 1 as int)));
                i += 1;
            }
            assert(mv.take(quota@.len() as int) =~= mv);
        },
        _ => {
            assert(texts_view(dates@) =~= open_keys(mv));
        },
    }
    assert(open_keys(object_members(response@, "dateQuota"@)) == open_keys(mv));
    assert(texts_view(dates@) == open_keys(mv));
    sort_texts(dates.as_slice())
}

/// `value[k]` when it is a string.
fn text_field(v: &JsonValue, k: &str) -> (r: Option<String>)
    ensures
        r matches Some(t) ==> as_text(get(v@, k@)) == Some(t@),
        r is None ==> as_text(get(v@, k@)) is None,
{
    match get_field(v, k) {
        Some(JsonValue::Str(t)) => Some(t.clone()),
        _ => None,
    }
}

/// `value[k]` when it is a string, else the empty text.
fn text_field_or_empty(v: &JsonValue, k: &str) -> (r: String)
    ensures
        r@ == text_or_empty(get(v@, k@)),
{
    match text_field(v, k) {
        Some(t) => t,
        None => String::new(),
    }
}

pub open spec fn triples_v(ts: Seq<(String, String, String)>) -> Seq<(Seq<char>, Seq<char>, Seq<char>)> {
    ts.map_values(|t: (String, String, String)| (t.0@, t.1@, t.2@))
}

pub open spec fn pairs_v(ts: Seq<(String, String)>) -> Seq<(Seq<char>, Seq<char>)> {
    ts.map_values(|t: (String, String)| (t.0@, t.1@))
}

/// The members reordered by key, equal keys keeping their order.
pub open spec fn sorted_members(m: Seq<(Seq<char>, Json)>) -> Seq<(Seq<char>, Json)> {
    ascending(
        positions(m.len() as int),
        stable_lt(m.map_values(|e: (Seq<char>, Json)| e.0)),
    ).map_values(|i: int| m[i])
}

/// A quota entry `slotid_status -> time` read as (slot id, time, status) when its status is `A`.
pub open spec fn open_slot(e: (Seq<char>, Json)) -> Option<(Seq<char>, Seq<char>, Seq<char>)> {
    match status_split(e.0) {
        Some(p) => if p.1 == seq!['A'] {
            Some((p.0, text_or_empty(Some(e.1)), seq!['A']))
        } else {
            None
        },
        None => None,
    }
}

pub open spec fn open_slots(es: Seq<(Seq<char>, Json)>) -> Seq<(Seq<char>, Seq<char>, Seq<char>)>
    decreases es.len(),
{
    if es.len() == 0 {
        seq![]
    } else {
        match open_slot(es.last()) {
            Some(t) => open_slots(es.drop_last()).push(t),
            None => open_slots(es.drop_last()),
        }
    }
}

/// The bookable time slots of a date, as (slot id, time text, status), ordered by quota key.
pub fn parse_time_slots(response: &JsonValue) -> (r: Vec<(String, String, String)>)
    requires
        json_wf(response@),
    ensures
        triples_v(r@) == open_slots(sorted_members(object_members(response@, "dateTimeQuota"@))),
{
    let mut slots: Vec<(String, String, String)> = Vec::new();
    let ghost mut es: Seq<(Seq<char>, Json)> = seq![];
    match get_field(response, "dateTimeQuota") {
        Some(JsonValue::Object(dtq)) => {
            let ghost mv = members_v(dtq@);
            proof {
                lemma_members_v(dtq@);
            }
            let mut keys: Vec<String> = Vec::new();
            let mut k: usize = 0;
            while k < dtq.len()
                invariant
                    k <= dtq@.len(),
                    keys@.len() == k,
                    forall|q: int| 0 <= q < k ==> #[trigger] keys@[q]@ == dtq@[q].0@,
                decreases dtq.len() - k,
            {
                keys.push(dtq[k].0.clone());
                k += 1;
            }
            let ghost kv = mv.map_values(|e: (Seq<char>, Json)| e.0);
            assert(texts_view(keys@) =~= kv);
            let order = stable_text_order(keys.as_slice());
            let ghost asc = ascending(positions(kv.len() as int), stable_lt(kv));
            proof {
                es = sorted_members(mv);
                assert forall|q: int| 0 <= q < order@.len() implies #[trigger] asc[q] == order@[q] as int by {
                    assert(order@.map_values(|i: usize| i as int)[q] == order@[q] as int);
                }
                assert(es.len() == order@.len());
            }
            let mut j: usize = 0;
            while j < order.len()
                invariant
                    j <= order@.len(),
                    es.len() == order@.len(),
                    mv == members_v(dtq@),
                    mv.len() == dtq@.len(),
                    forall|q: int|
                        0 <= q < dtq@.len() ==> #[trigger] mv[q] == (dtq@[q].0@, json_v(dtq@[q].1)),
                    forall|q: int| 0 <= q < order@.len() ==> #[trigger] order@[q] < dtq@.len(),
                    forall|q: int| 0 <= q < order@.len() ==> #[trigger] es[q] == mv[order@[q] as int],
                    triples_v(slots@) == open_slots(es.take(j as int)),
                decreases order.len() - j,
            {
                let e = &dtq[order[j]];
                assert(es.take(j + 1 as int).drop_last() =~= es.take(j as int));
                assert(es[j as int] == mv[order@[j as int] as int]);
                match split_status(e.0.as_str()) {
                    Some((id, status)) => {
                        if is_open(status.as_slice()) {
                            let time = match &e.1 {
                                JsonValue::Str(t) => t.clone(),
                                _ => String::new(),
                            };
                            let st = string_of(status.as_slice());
                            slots.push((string_of(id.as_slice()), time, st));
                        }
                    },
                    None => {},
                }
                assert(triples_v(slots@) =~= open_slots(es.take(j + 1 as int)));
                j += 1;
            }
            assert(es.take(order@.len() as int) =~= es);
        },
        _ => {
            assert(triples_v(slots@) =~= open_slots(es));
        },
    }
    assert(sorted_members(object_members(response@, "dateTimeQuota"@)) == es) by {
        if object_members(response@, "dateTimeQuota"@).len() == 0 {
            let m0: Seq<(Seq<char>, Json)> = seq![];
            let kv0 = m0.map_values(|e: (Seq<char>, Json)| e.0);
            crate::keys::lemma_stable_order(kv0);
            assert(positions(0) =~= Set::<int>::empty());
            crate::order::lemma_ascending_props(positions(0), stable_lt(kv0));
            assert(sorted_members(m0) =~= seq![]);
        }
    }
    slots
}

/// A district item read as (district key, Chinese name) when both are present and its status is `A`.
pub open spec fn open_district(item: Json) -> Option<(Seq<char>, Seq<char>)> {
    let value = text_or_empty(get(item, "value"@));
    let name = text_or_empty(get(item, "messageCn"@));
    if value.len() == 0 || name.len() == 0 {
        None
    } else {
        match status_split(value) {
            Some(p) => if p.1 == seq!['A'] {
                Some((p.0, name))
            } else {
                None
            },
            None => None,
        }
    }
}

pub open spec fn open_districts(items: Seq<Json>) -> Seq<(Seq<char>, Seq<char>)>
    decreases items.len(),
{
    if items.len() == 0 {
        seq![]
    } else {
        match open_district(items.last()) {
            Some(d) => open_districts(items.drop_last()).push(d),
            None => open_districts(items.drop_last()),
        }
    }
}

/// The districts that still have slots, as (district key, Chinese name), in list order.
pub fn parse_available_districts(response: &JsonValue) -> (r: Vec<(String, String)>)
    requires
        json_wf(response@),
    ensures
        pairs_v(r@) == open_districts(array_items(response@, "branchDistrictList"@)),
{
    let mut districts: Vec<(String, String)> = Vec::new();
    let ghost mut av: Seq<Json> = seq![];
    match get_field(response, "branchDistrictList") {
        Some(JsonValue::Array(list)) => {
            proof {
                lemma_array_v(list@);
                av = array_v(list@);
            }
            let mut i: usize = 0;
            while i < list.len()
                invariant
                    i <= list@.len(),
                    av == array_v(list@),
                    av.len() == list@.len(),
                    forall|q: int| 0 <= q < list@.len() ==> #[trigger] av[q] == json_v(list@[q]),
                    pairs_v(districts@) == open_districts(av.take(i as int)),
                decreases list.len() - i,
            {
                assert(av.take(i + 1 as int).drop_last() =~= av.take(i as int));
                let item = &list[i];
                let value = text_field_or_empty(item, "value");
                let name = text_field_or_empty(item, "messageCn");
                if !value.as_str().is_empty() && !name.as_str().is_empty() {
                    match split_status(value.as_str()) {
                        Some((key, status)) => {
                            if is_open(status.as_slice()) {
                                districts.push((string_of(key.as_slice()), name));
                            }
                        },
                        None => {},
                    }
                }
                assert(pairs_v(districts@) =~= open_districts(av.take(i + 1 as int)));
                i += 1;
            }
            assert(av.take(list@.len() as int) =~= av);
        },
        _ => {
            assert(pairs_v(districts@) =~= open_districts(av));
        },
    }
    districts
}

/// The display name of a branch item: its Chinese name when it has one as text, else its
/// Hong Kong name, else nothing.
pub open spec fn branch_name(item: Json) -> Seq<char> {
    match as_text(get(item, "messageCn"@)) {
        Some(n) => n,
        None => text_or_empty(get(item, "messageHk"@)),
    }
}

/// A branch item read as a branch when it has a value and a name and its status is `A`.
pub open spec fn open_branch(item: Json) -> Option<BranchV> {
    let value = text_or_empty(get(item, "value"@));
    let name = branch_name(item);
    if value.len() == 0 || name.len() == 0 {
        None
    } else {
        match status_split(value) {
            Some(p) => if p.1 == seq!['A'] {
                Some(BranchV { name, code: p.0, status: p.1, address_cn: seq![], tel_no: seq![] })
            } else {
                None
            },
            None => None,
        }
    }
}

pub open spec fn open_branches(items: Seq<Json>) -> Seq<BranchV>
    decreases items.len(),
{
    if items.len() == 0 {
        seq![]
    } else {
        match open_branch(items.last()) {
            Some(b) => open_branches(items.drop_last()).push(b),
            None => open_branches(items.drop_last()),
        }
    }
}

/// The branches that still have slots, in list order, without contact details.
pub fn parse_branches(response: &JsonValue) -> (r: Vec<BranchInfo>)
    requires
        json_wf(response@),
    ensures
        branches_v(r@) == open_branches(array_items(response@, "availableBranchList"@)),
{
    let mut branches: Vec<BranchInfo> = Vec::new();
    let ghost mut av: Seq<Json> = seq![];
    match get_field(response, "availableBranchList") {
        Some(JsonValue::Array(list)) => {
            proof {
                lemma_array_v(list@);
                av = array_v(list@);
            }
            let mut i: usize = 0;
            while i < list.len()
                invariant
                    i <= list@.len(),
                    av == array_v(list@),
                    av.len() == list@.len(),
                    forall|q: int| 0 <= q < list@.len() ==> #[trigger] av[q] == json_v(list@[q]),
                    branches_v(branches@) == open_branches(av.take(i as int)),
                decreases list.len() - i,
            {
                assert(av.take(i + 1 as int).drop_last() =~= av.take(i as int));
                let item = &list[i];
                let value = text_field_or_empty(item, "value");
                let name = match text_field(item, "messageCn") {
                    Some(n) => n,
                    None => text_field_or_empty(item, "messageHk"),
                };
                if !value.as_str().is_empty() && !name.as_str().is_empty() {
                    match split_status(value.as_str()) {
                        Some((code, status)) => {
                            if is_open(status.as_slice()) {
                                branches.push(
                                    BranchInfo {
                                        name,
                                        code: string_of(code.as_slice()),
                                        status: string_of(status.as_slice()),
                                        address_cn: String::new(),
                                        tel_no: String::new(),
                                    },
                                );
                            }
                        },
                        None => {},
                    }
                }
                assert(branches_v(branches@) =~= open_branches(av.take(i + 1 as int)));
                i += 1;
            }
            assert(av.take(list@.len() as int) =~= av);
        },
        _ => {
            assert(branches_v(branches@) =~= open_branches(av));
        },
    }
    branches
}

/// The Chinese address and the telephone number of a branch detail response.
pub fn parse_branch_detail(response: &JsonValue) -> (r: (String, String))
    requires
        json_wf(response@),
    ensures
        r.0@ == text_or_empty(get(response@, "addressCn"@)),
        r.1@ == text_or_empty(get(response@, "telNo"@)),
{
    (text_field_or_empty(response, "addressCn"), text_field_or_empty(response, "telNo"))
}

/// The status shown for a quota entry: its text, or `F` when it is no text.
pub open spec fn quota_status(v: Json) -> Seq<char> {
    match v {
        Json::Str(t) => t,
        _ => seq!['F'],
    }
}

/// The date quota as (date, status) in ascending date order, one entry per date (the
/// last one kept), a status that is no text read as `F`.
pub open spec fn date_quota_statuses(response: Json) -> Seq<(Seq<char>, Seq<char>)> {
    crate::keyed::collapse(
        object_members(response, "dateQuota"@).map_values(
            |e: (Seq<char>, Json)| (seq![e.0], quota_status(e.1)),
        ),
    ).map_values(|x: (Seq<Seq<char>>, Seq<char>)| (x.0[0], x.1))
}

/// The date quota of an answer as (date, status) pairs.
pub fn date_quota_pairs(response: &JsonValue) -> (r: Vec<(String, String)>)
    requires
        json_wf(response@),
    ensures
        pairs_v(r@) == date_quota_statuses(response@),
        crate::web::quota_keys_ascending(pairs_v(r@)),
{
    let mut es: Vec<(Vec<String>, String)> = Vec::new();
    let ghost mut mv: Seq<(Seq<char>, Json)> = seq![];
    match get_field(response, "dateQuota") {
        Some(JsonValue::Object(quota)) => {
            proof {
                lemma_members_v(quota@);
                mv = members_v(quota@);
            }
            let mut i: usize = 0;
            while i < quota.len()
                invariant
                    i <= quota@.len(),
                    mv == members_v(quota@),
                    mv.len() == quota@.len(),
                    forall|q: int|
                        0 <= q < quota@.len() ==> #[trigger] mv[q] == (quota@[q].0@, json_v(
                            quota@[q].1,
                        )),
                    es@.len() == i,
                    forall|q: int|
                        0 <= q < i ==> #[trigger] crate::keyed::entries_v(es@)[q] == (
                            seq![mv[q].0],
                            quota_status(mv[q].1),
                        ),
                decreases quota.len() - i,
            {
                let mut k: Vec<String> = Vec::new();
                k.push(quota[i].0.clone());
                assert(crate::keys::key_view(k) =~= seq![mv[i as int].0]);
                let status = match &quota[i].1 {
                    JsonValue::Str(t) => t.clone(),
                    _ => string_of(&['F']),
                };
                proof {
                    if !(json_v(quota@[i as int].1) is Str) {
                        assert(status@ =~= seq!['F']);
                    }
                }
                let ghost before = es@;
                es.push((k, status));
                assert forall|q: int| 0 <= q < i + 1 implies #[trigger] crate::keyed::entries_v(es@)[q]
                    == (seq![mv[q].0], quota_status(mv[q].1)) by {
                    if q < i {
                        assert(es@[q] == before[q]);
                        assert(crate::keyed::entries_v(before)[q] == (seq![mv[q].0], quota_status(mv[q].1)));
                    }
                }
                i += 1;
            }
        },
        _ => {},
    }
    let ghost ev = mv.map_values(|e: (Seq<char>, Json)| (seq![e.0], quota_status(e.1)));
    assert(crate::keyed::entries_v(es@) =~= ev);
    assert(object_members(response@, "dateQuota"@) == mv);
    let c = crate::keyed::collapse_last(es.as_slice());
    proof {
        crate::keyed::lemma_collapse(ev);
        let cv = crate::keyed::collapse(ev);
        assert forall|q: int| 0 <= q < c@.len() implies (#[trigger] c@[q]).0@.len() == 1 by {
            assert(crate::keyed::entries_v(c@)[q].0 == crate::keys::key_view(c@[q].0));
            let k = cv[q].0;
            assert(crate::keyed::entry_keys(cv)[q] == k);
            assert(crate::keyed::key_set(cv).contains(k));
            assert(crate::keyed::key_set(ev).contains(k));
            let w = choose|w: int| 0 <= w < crate::keyed::entry_keys(ev).len() && crate::keyed::entry_keys(ev)[w] == k;
            assert(ev[w].0.len() == 1);
        }
    }
    let mut out: Vec<(String, String)> = Vec::new();
    let mut j: usize = 0;
    while j < c.len()
        invariant
            j <= c@.len(),
            crate::keyed::entries_v(c@) == crate::keyed::collapse(ev),
            forall|q: int| 0 <= q < c@.len() ==> (#[trigger] c@[q]).0@.len() == 1,
            out@.len() == j,
            forall|q: int| 0 <= q < j ==> #[trigger] out@[q].0@ == c@[q].0@[0]@ && out@[q].1@ == c@[q].1@,
        decreases c.len() - j,
    {
        out.push((c[j].0[0].clone(), c[j].1.clone()));
        j += 1;
    }
    assert(pairs_v(out@) =~= date_quota_statuses(response@));
    proof {
        let pv = pairs_v(out@);
        let cv = crate::keyed::collapse(ev);
        let ds = pv.map_values(|e: (Seq<char>, Seq<char>)| e.0);
        assert forall|a: int, b: int| 0 <= a < b < ds.len() implies #[trigger] tlt()(ds[a], ds[b]) by {
            assert(crate::keys::klt()(crate::keyed::entry_keys(cv)[a], crate::keyed::entry_keys(cv)[b]));
            assert(crate::keyed::entries_v(c@)[a].0 == crate::keys::key_view(c@[a].0));
            assert(crate::keyed::entries_v(c@)[b].0 == crate::keys::key_view(c@[b].0));
            assert(crate::keys::key_view(c@[a].0) =~= seq![pv[a].0]);
            assert(crate::keys::key_view(c@[b].0) =~= seq![pv[b].0]);
            lemma_single_key_order(pv[a].0, pv[b].0);
        }
    }
    out
}

/// One-part keys are ordered as their parts.
proof fn lemma_single_key_order(x: Seq<char>, y: Seq<char>)
    requires
        crate::text::key_lt(seq![x], seq![y]),
    ensures
        crate::text::text_lt(x, y),
{
    reveal_with_fuel(crate::order::lex, 2);
    assert(seq![x].drop_first() =~= Seq::<Seq<char>>::empty());
    assert(seq![y].drop_first() =~= Seq::<Seq<char>>::empty());
}

} // verus!
