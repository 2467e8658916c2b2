use bochk_check::models::{BranchInfo, SlotDetail};
use bochk_check::state::{
    filter_enabled_details, flatten, load_branch_catalog, load_current_slot_first_seen_map,
    load_current_slots, load_runtime_state, plan_snapshot_diff, upsert_branch_catalog, SlotRow,
    WebBranchCatalogEntry,
};

fn branch(name: &str, code: &str) -> BranchInfo {
    BranchInfo {
        name: name.to_string(),
        code: code.to_string(),
        status: "A".to_string(),
        address_cn: String::new(),
        tel_no: String::new(),
    }
}

fn slot(date: &str, time: &str, branches: Vec<BranchInfo>) -> SlotDetail {
    SlotDetail { date: date.to_string(), time: time.to_string(), time_slot_id: String::new(), branches }
}

fn key(parts: &[&str]) -> Vec<String> {
    parts.iter().map(|p| p.to_string()).collect()
}

#[test]
fn runtime_state_defaults_to_empty() {
    assert_eq!(load_runtime_state(None).last_release_at, "");
    assert_eq!(load_runtime_state(Some("2024-01-05 10:00:00".to_string())).last_release_at, "2024-01-05 10:00:00");
}

#[test]
fn flatten_keys_points_and_keeps_last_branch() {
    let details = vec![
        slot("2024-01-06", "09:00", vec![branch("B", "2")]),
        slot("2024-01-05", "09:00", vec![branch("A", "1"), branch("A2", "1")]),
    ];
    let flat = flatten(&details);
    assert_eq!(flat.len(), 2);
    assert_eq!(flat[0].0, key(&["1", "2024-01-05", "09:00"]));
    assert_eq!(flat[0].1.name, "A2");
    assert_eq!(flat[1].0, key(&["2", "2024-01-06", "09:00"]));
}

#[test]
fn snapshot_plan_records_events() {
    let old = vec![slot("2024-01-05", "09:00", vec![branch("A", "1"), branch("B", "2")])];
    let new = vec![slot("2024-01-05", "09:00", vec![branch("A", "1"), branch("C", "3")])];
    let plan = plan_snapshot_diff(&old, &new);
    assert_eq!(plan.appeared, vec![key(&["3", "2024-01-05", "09:00"])]);
    assert_eq!(plan.disappeared, vec![key(&["2", "2024-01-05", "09:00"])]);
    assert_eq!(plan.current, vec![key(&["1", "2024-01-05", "09:00"]), key(&["3", "2024-01-05", "09:00"])]);
    assert_eq!(plan.branches.len(), 2);
    assert_eq!(plan.branches[1].name, "C");
    let same = plan_snapshot_diff(&new, &new);
    assert!(same.appeared.is_empty() && same.disappeared.is_empty());
}

fn row(date: &str, time: &str, code: &str, name: &str) -> SlotRow {
    SlotRow {
        date: date.to_string(),
        time: time.to_string(),
        code: code.to_string(),
        name: name.to_string(),
        address_cn: "addr".to_string(),
        tel_no: "tel".to_string(),
    }
}

#[test]
fn current_slots_are_grouped_by_date_and_time() {
    let rows = vec![
        row("2024-01-05", "10:00", "2", "B"),
        row("2024-01-05", "09:00", "1", "A"),
        row("2024-01-05", "10:00", "3", "C"),
    ];
    let slots = load_current_slots(&rows);
    assert_eq!(slots.len(), 2);
    assert_eq!(slots[0].time, "09:00");
    assert_eq!(slots[0].time_slot_id, "");
    assert_eq!(slots[1].branches.len(), 2);
    assert_eq!(slots[1].branches[0].code, "2");
    assert_eq!(slots[1].branches[1].code, "3");
    assert_eq!(slots[1].branches[1].status, "A");
    assert_eq!(slots[1].branches[1].address_cn, "addr");
}

#[test]
fn first_seen_map_keeps_last_row_per_point() {
    let rows = vec![
        ("2".to_string(), "d".to_string(), "t".to_string(), "early".to_string()),
        ("1".to_string(), "d".to_string(), "t".to_string(), "x".to_string()),
        ("2".to_string(), "d".to_string(), "t".to_string(), "late".to_string()),
    ];
    let m = load_current_slot_first_seen_map(&rows);
    assert_eq!(m, vec![(key(&["1", "d", "t"]), "x".to_string()), (key(&["2", "d", "t"]), "late".to_string())]);
}

#[test]
fn catalog_update_writes_each_code_once() {
    let bs = vec![branch("A", "1"), branch("A again", "1"), branch("B", "2")];
    let up = upsert_branch_catalog(&bs);
    assert_eq!(up.len(), 2);
    assert_eq!(up[0].name, "A");
    assert_eq!(up[1].code, "2");
    assert!(upsert_branch_catalog(&[]).is_empty());
}

#[test]
fn disabled_branches_are_filtered_out() {
    let details = vec![
        slot("d", "09:00", vec![branch("A", "1"), branch("B", "2")]),
        slot("d", "10:00", vec![branch("B", "2")]),
        slot("d", "11:00", vec![]),
    ];
    let kept = filter_enabled_details(&details, &["2".to_string()]);
    assert_eq!(kept.len(), 1);
    assert_eq!(kept[0].branches.len(), 1);
    assert_eq!(kept[0].branches[0].code, "1");
    let all = filter_enabled_details(&details, &[]);
    assert_eq!(all.len(), 3);
    assert!(filter_enabled_details(&[], &["2".to_string()]).is_empty());
}

fn entry(code: &str, name: &str, enabled: bool) -> WebBranchCatalogEntry {
    WebBranchCatalogEntry {
        code: code.to_string(),
        name: name.to_string(),
        address_cn: String::new(),
        tel_no: String::new(),
        is_enabled: enabled,
        updated_at: String::new(),
    }
}

#[test]
fn catalog_lists_enabled_first_then_by_name_and_code() {
    let es = vec![entry("9", "Zeta", true), entry("1", "Alpha", false), entry("3", "Beta", true), entry("2", "Beta", true)];
    let listed = load_branch_catalog(&es);
    let codes: Vec<&str> = listed.iter().map(|e| e.code.as_str()).collect();
    assert_eq!(codes, vec!["2", "3", "9", "1"]);
}

#[test]
fn stored_snapshot_reads_back_its_points() {
    let old = vec![slot("2024-01-05", "09:00", vec![branch("A", "1"), branch("B", "2")])];
    let new = vec![
        slot("2024-01-06", "10:00", vec![branch("C", "3")]),
        slot("2024-01-05", "09:00", vec![branch("A", "1"), branch("C", "3")]),
    ];
    let plan = plan_snapshot_diff(&old, &new);
    // The current rows that the store holds after the plan is written, as the read returns them.
    let rows: Vec<SlotRow> = plan
        .current
        .iter()
        .zip(plan.branches.iter())
        .map(|(k, b)| row(&k[1], &k[2], &k[0], &b.name))
        .collect();
    let slots = load_current_slots(&rows);
    let mut points: Vec<Vec<String>> = slots
        .iter()
        .flat_map(|s| s.branches.iter().map(move |b| vec![b.code.clone(), s.date.clone(), s.time.clone()]))
        .collect();
    points.sort();
    assert_eq!(points, flatten(&new).into_iter().map(|(k, _)| k).collect::<Vec<_>>());
    // First-seen rows: the new point was first seen at the time of the store.
    let t = "2024-01-05 12:00:00";
    let first_rows: Vec<(String, String, String, String)> = plan
        .current
        .iter()
        .map(|k| {
            let seen = if plan.appeared.contains(k) { t } else { "2024-01-01 08:00:00" };
            (k[0].clone(), k[1].clone(), k[2].clone(), seen.to_string())
        })
        .collect();
    let m = load_current_slot_first_seen_map(&first_rows);
    assert_eq!(m.len(), 3);
    let fresh = m.iter().find(|(k, _)| *k == key(&["3", "2024-01-06", "10:00"])).unwrap();
    assert_eq!(fresh.1, t);
}

#[test]
fn updated_catalog_reads_back_one_entry_per_code() {
    let bs = vec![branch("Zed", "9"), branch("Alpha", "1"), branch("Alpha later", "1")];
    let written = upsert_branch_catalog(&bs);
    let t = "2024-01-05 12:00:00";
    let rows: Vec<WebBranchCatalogEntry> = written
        .iter()
        .map(|b| WebBranchCatalogEntry {
            code: b.code.clone(),
            name: b.name.clone(),
            address_cn: b.address_cn.clone(),
            tel_no: b.tel_no.clone(),
            is_enabled: true,
            updated_at: t.to_string(),
        })
        .collect();
    let listed = load_branch_catalog(&rows);
    let shown: Vec<(&str, &str, &str)> =
        listed.iter().map(|e| (e.code.as_str(), e.name.as_str(), e.updated_at.as_str())).collect();
    assert_eq!(shown, vec![("1", "Alpha", t), ("9", "Zed", t)]);
}

#[test]
fn saved_runtime_state_reads_back() {
    let saved = "2024-01-05 12:00:00".to_string();
    assert_eq!(load_runtime_state(Some(saved.clone())).last_release_at, saved);
    assert_eq!(load_runtime_state(Some(String::new())).last_release_at, "");
}
