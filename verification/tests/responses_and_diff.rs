use bochk_check::changes::{diff_json, FieldDiff};
use bochk_check::json::{is_well_formed, JsonValue};
use bochk_check::responses::{
    date_quota_pairs, extract_available_dates, parse_available_districts, parse_branch_detail, parse_branches,
    parse_time_slots,
};

fn s(t: &str) -> JsonValue {
    JsonValue::Str(t.to_string())
}

/// An object as a JSON reader gives it: members in ascending key order.
fn obj(members: Vec<(&str, JsonValue)>) -> JsonValue {
    let mut members = members;
    members.sort_by(|a, b| a.0.cmp(b.0));
    let doc = JsonValue::Object(members.into_iter().map(|(k, v)| (k.to_string(), v)).collect());
    assert!(is_well_formed(&doc));
    doc
}

#[test]
fn available_dates_are_open_and_sorted() {
    let resp = obj(vec![(
        "dateQuota",
        obj(vec![("20240110", s("A")), ("20240102", s("F")), ("20240105", s("A")), ("20240107", JsonValue::Null)]),
    )]);
    assert_eq!(extract_available_dates(&resp), vec!["20240105".to_string(), "20240110".to_string()]);
}

#[test]
fn available_dates_without_quota() {
    assert!(extract_available_dates(&obj(vec![])).is_empty());
    assert!(extract_available_dates(&obj(vec![("dateQuota", s("A"))])).is_empty());
}

#[test]
fn time_slots_keep_open_ones_in_key_order() {
    let resp = obj(vec![(
        "dateTimeQuota",
        obj(vec![
            ("P02_A", s("10:00-11:00")),
            ("P01_A", s("09:00-10:00")),
            ("P03_F", s("11:00-12:00")),
            ("P04_D", s("12:00-13:00")),
            ("NOUNDERSCORE", s("x")),
            ("P05_A", JsonValue::Number("1".to_string())),
        ]),
    )]);
    let slots = parse_time_slots(&resp);
    assert_eq!(
        slots,
        vec![
            ("P01".to_string(), "09:00-10:00".to_string(), "A".to_string()),
            ("P02".to_string(), "10:00-11:00".to_string(), "A".to_string()),
            ("P05".to_string(), "".to_string(), "A".to_string()),
        ]
    );
}

#[test]
fn districts_need_value_name_and_open_status() {
    let resp = obj(vec![(
        "branchDistrictList",
        JsonValue::Array(vec![
            obj(vec![("value", s("HK_ISLAND_A")), ("messageCn", s("香港岛"))]),
            obj(vec![("value", s("KLN_F")), ("messageCn", s("九龙"))]),
            obj(vec![("value", s("NT_A")), ("messageCn", s(""))]),
            obj(vec![("value", s("")), ("messageCn", s("空"))]),
            obj(vec![("value", s("X_A"))]),
        ]),
    )]);
    assert_eq!(
        parse_available_districts(&resp),
        vec![("HK_ISLAND".to_string(), "香港岛".to_string())]
    );
}

#[test]
fn branches_fall_back_to_hong_kong_name() {
    let resp = obj(vec![(
        "availableBranchList",
        JsonValue::Array(vec![
            obj(vec![("value", s("012_A")), ("messageCn", s("中环分行"))]),
            obj(vec![("value", s("013_A")), ("messageHk", s("旺角分行"))]),
            obj(vec![("value", s("014_F")), ("messageCn", s("满"))]),
            obj(vec![("value", s("015_A")), ("messageCn", s("")), ("messageHk", s("不用"))]),
        ]),
    )]);
    let bs = parse_branches(&resp);
    assert_eq!(bs.len(), 2);
    assert_eq!(bs[0].name, "中环分行");
    assert_eq!(bs[0].code, "012");
    assert_eq!(bs[0].status, "A");
    assert_eq!(bs[0].address_cn, "");
    assert_eq!(bs[1].name, "旺角分行");
    assert_eq!(bs[1].code, "013");
}

#[test]
fn branch_detail_fields() {
    let resp = obj(vec![("addressCn", s("德辅道中")), ("telNo", s("2846 2700"))]);
    assert_eq!(parse_branch_detail(&resp), ("德辅道中".to_string(), "2846 2700".to_string()));
    assert_eq!(parse_branch_detail(&obj(vec![])), (String::new(), String::new()));
}

fn paths(d: &[FieldDiff]) -> Vec<String> {
    d.iter().map(|x| x.path.clone()).collect()
}

#[test]
fn diff_of_equal_documents_is_empty() {
    let a = obj(vec![("dateQuota", obj(vec![("20240101", s("A"))]))]);
    let b = obj(vec![("dateQuota", obj(vec![("20240101", s("A"))]))]);
    assert!(diff_json("", &a, &b).is_empty());
}

#[test]
fn diff_reports_changed_removed_and_added_fields() {
    let a = obj(vec![("dateQuota", obj(vec![("20240101", s("A")), ("20240102", s("F"))])), ("x", s("1"))]);
    let b = obj(vec![("dateQuota", obj(vec![("20240101", s("F")), ("20240103", s("A"))])), ("x", s("1"))]);
    let d = diff_json("", &a, &b);
    assert_eq!(paths(&d), vec!["dateQuota.20240101", "dateQuota.20240102", "dateQuota.20240103"]);
    assert!(matches!(d[1].new_value, JsonValue::Null));
    assert!(matches!(d[2].old_value, JsonValue::Null));
    match &d[0].new_value {
        JsonValue::Str(t) => assert_eq!(t, "F"),
        _ => panic!("expected a string"),
    }
}

#[test]
fn diff_of_differing_non_objects_is_one_field() {
    let d = diff_json("root", &s("a"), &JsonValue::Array(vec![]));
    assert_eq!(paths(&d), vec!["root"]);
}

#[test]
fn quota_statuses_default_to_full() {
    let resp = obj(vec![("dateQuota", obj(vec![("20240110", s("A")), ("20240102", JsonValue::Null)]))]);
    assert_eq!(
        date_quota_pairs(&resp),
        vec![("20240102".to_string(), "F".to_string()), ("20240110".to_string(), "A".to_string())]
    );
    assert!(date_quota_pairs(&obj(vec![])).is_empty());
}

#[test]
fn well_formed_documents_have_ascending_unique_keys() {
    let raw = |ms: Vec<(&str, JsonValue)>| JsonValue::Object(ms.into_iter().map(|(k, v)| (k.to_string(), v)).collect());
    assert!(is_well_formed(&raw(vec![("a", s("1")), ("b", s("2"))])));
    assert!(!is_well_formed(&raw(vec![("b", s("1")), ("a", s("2"))])));
    assert!(!is_well_formed(&raw(vec![("a", s("1")), ("a", s("2"))])));
    assert!(!is_well_formed(&JsonValue::Array(vec![raw(vec![("z", s("1")), ("y", s("2"))])])));
    assert!(!is_well_formed(&raw(vec![("k", raw(vec![("z", s("1")), ("y", s("2"))]))])));
    assert!(is_well_formed(&s("x")));
}
