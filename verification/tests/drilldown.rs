use bochk_check::drill::{DateDrill, DrillAction, DrillEvent, DrillPhase};
use bochk_check::json::{is_well_formed, JsonValue};
use bochk_check::models::{BranchInfo, SlotDetail};
use bochk_check::monitor::{
    apply_branch_meta, collect_date_slots, is_soft_skip_error, merge_drill_down,
    missing_branch_codes, refreshed_branches, should_notify_failure, DrillDownResult,
};

fn s(t: &str) -> JsonValue {
    JsonValue::Str(t.to_string())
}

/// An object as a JSON reader gives it: members in ascending key order.
fn obj(members: Vec<(&str, JsonValue)>) -> JsonValue {
    let mut members = members;
    members.sort_by(|a, b| a.0.cmp(b.0));
    let doc = JsonValue::Object(members.into_iter().map(|(k, v)| (k.to_string(), v)).collect());
    assert!(is_well_formed(&doc));
    doc
}

fn branch(name: &str, code: &str) -> BranchInfo {
    BranchInfo {
        name: name.to_string(),
        code: code.to_string(),
        status: "A".to_string(),
        address_cn: String::new(),
        tel_no: String::new(),
    }
}

fn meta(code: &str, addr: &str, tel: &str) -> (String, (String, String)) {
    (code.to_string(), (addr.to_string(), tel.to_string()))
}

#[test]
fn completeness_follows_skipped_slots() {
    assert!(DrillDownResult { details: vec![], soft_skipped_slots: 0 }.is_complete());
    assert!(!DrillDownResult { details: vec![], soft_skipped_slots: 2 }.is_complete());
}

#[test]
fn soft_skip_errors_are_recognised() {
    assert!(is_soft_skip_error("业务错误 WHKEQR888: jsonAvailableBrsByDT.action | body: x | eaiMsg: y"));
    assert!(!is_soft_skip_error("业务错误 WHKEQR999: x"));
    assert!(!is_soft_skip_error("HTTP 500"));
}

#[test]
fn contact_details_come_from_cache_catalog_or_fetch() {
    let bs = vec![branch("A", "1"), branch("B", "2"), branch("C", "3"), branch("C", "3")];
    let cache = vec![meta("1", "cache addr", "c1")];
    let stored = vec![meta("2", "db addr", "d2"), meta("1", "older", "x")];
    assert_eq!(missing_branch_codes(&bs, &cache, &stored), vec!["3".to_string()]);
    let fetched = vec![meta("3", "new addr", "n3")];
    let applied = apply_branch_meta(&bs, &cache, &stored, &fetched);
    assert_eq!(applied[0].address_cn, "cache addr");
    assert_eq!(applied[1].tel_no, "d2");
    assert_eq!(applied[2].address_cn, "new addr");
    let fresh = refreshed_branches(&bs, &fetched);
    assert_eq!(fresh.len(), 2);
    assert_eq!(fresh[0].tel_no, "n3");
}

fn slot(date: &str, id: &str, branches: Vec<BranchInfo>) -> SlotDetail {
    SlotDetail { date: date.to_string(), time: "t".to_string(), time_slot_id: id.to_string(), branches }
}

#[test]
fn date_slots_are_keyed_by_slot_id() {
    let slots = vec![slot("d", "P2", vec![branch("A", "1")]), slot("d", "P1", vec![]), slot("d", "P2", vec![branch("B", "2")])];
    let got = collect_date_slots(&slots);
    assert_eq!(got.len(), 1);
    assert_eq!(got[0].branches[0].code, "2");
}

#[test]
fn per_date_results_are_merged() {
    let results = vec![
        ("20240106".to_string(), vec![slot("2024-01-06", "P1", vec![branch("A", "1")])], 1usize),
        ("20240105".to_string(), vec![slot("2024-01-05", "P1", vec![branch("B", "2")]), slot("2024-01-05", "P2", vec![])], 2usize),
    ];
    let merged = merge_drill_down(&results);
    assert_eq!(merged.soft_skipped_slots, 3);
    assert_eq!(merged.details.len(), 2);
    assert_eq!(merged.details[0].date, "2024-01-05");
    assert!(!merged.is_complete());
}

#[test]
fn failure_alerts_start_at_the_third_and_repeat_every_tenth() {
    assert!(!should_notify_failure(2, false));
    assert!(should_notify_failure(3, false));
    assert!(!should_notify_failure(4, true));
    assert!(should_notify_failure(10, true));
}

#[test]
fn drill_walks_from_time_slots_to_branches() {
    let mut d = DateDrill::new("20240105");
    assert!(matches!(d.step(DrillEvent::Begin), DrillAction::OpenSession));
    assert!(matches!(d.step(DrillEvent::Done), DrillAction::FetchQuota));
    match d.step(DrillEvent::Done) {
        DrillAction::FetchTimeSlots { api_date } => assert_eq!(api_date, "05/01/2024"),
        _ => panic!("expected time slots"),
    }
    let slots = obj(vec![("dateTimeQuota", obj(vec![("P1_A", s("09:00")), ("P2_A", s("10:00"))]))]);
    match d.step(DrillEvent::Answer(slots)) {
        DrillAction::FetchDistricts { slot_id, delay_ms, .. } => {
            assert_eq!(slot_id, "P1");
            assert_eq!(delay_ms, 0);
        },
        _ => panic!("expected districts"),
    }
    // first slot: soft failure, retried, soft failure again -> skipped
    let soft = "业务错误 WHKEQR888: x".to_string();
    match d.step(DrillEvent::Failure(soft.clone())) {
        DrillAction::FetchDistricts { slot_id, delay_ms, .. } => {
            assert_eq!(slot_id, "P1");
            assert_eq!(delay_ms, 250);
        },
        _ => panic!("expected a retry"),
    }
    match d.step(DrillEvent::Failure(soft)) {
        DrillAction::FetchDistricts { slot_id, .. } => assert_eq!(slot_id, "P2"),
        _ => panic!("expected the next slot"),
    }
    let districts = obj(vec![(
        "branchDistrictList",
        JsonValue::Array(vec![obj(vec![("value", s("HK_A")), ("messageCn", s("港岛"))])]),
    )]);
    match d.step(DrillEvent::Answer(districts)) {
        DrillAction::FetchBranches { district, slot_id, .. } => {
            assert_eq!(district, "HK");
            assert_eq!(slot_id, "P2");
        },
        _ => panic!("expected branches"),
    }
    let branches = obj(vec![(
        "availableBranchList",
        JsonValue::Array(vec![obj(vec![("value", s("012_A")), ("messageCn", s("中环"))])]),
    )]);
    match d.step(DrillEvent::Answer(branches)) {
        DrillAction::LoadContacts { codes } => assert_eq!(codes, vec!["012".to_string()]),
        _ => panic!("expected contacts"),
    }
    match d.step(DrillEvent::Contacts(vec![])) {
        DrillAction::FetchBranchDetail { code } => assert_eq!(code, "012"),
        _ => panic!("expected a branch detail"),
    }
    let detail = obj(vec![("addressCn", s("德辅道中")), ("telNo", s("123"))]);
    match d.step(DrillEvent::Answer(detail)) {
        DrillAction::SaveCatalog { branches } => assert_eq!(branches[0].address_cn, "德辅道中"),
        _ => panic!("expected a catalog update"),
    }
    match d.step(DrillEvent::Done) {
        DrillAction::Finish { date, slots, soft_skipped } => {
            assert_eq!(date, "20240105");
            assert_eq!(soft_skipped, 1);
            assert_eq!(slots.len(), 1);
            assert_eq!(slots[0].date, "2024-01-05");
            assert_eq!(slots[0].time, "10:00");
            assert_eq!(slots[0].branches[0].tel_no, "123");
        },
        _ => panic!("expected the end"),
    }
    assert!(d.phase == DrillPhase::Finished);
}

#[test]
fn drill_ends_empty_when_the_session_fails() {
    let mut d = DateDrill::new("20240105");
    d.step(DrillEvent::Begin);
    match d.step(DrillEvent::Failure("refused".to_string())) {
        DrillAction::Finish { slots, soft_skipped, .. } => {
            assert!(slots.is_empty());
            assert_eq!(soft_skipped, 0);
        },
        _ => panic!("expected the end"),
    }
}
