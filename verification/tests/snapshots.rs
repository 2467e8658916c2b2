use bochk_check::models::{BranchInfo, SlotDetail};
use bochk_check::parser::{count_detail_points, details_cover_dates, diff_detail_snapshots, format_detail_change_message};
use bochk_check::message::{format_branch_contacts_section, format_compact_details, format_removed_details};

fn branch(name: &str, code: &str, addr: &str, tel: &str) -> BranchInfo {
    BranchInfo {
        name: name.to_string(),
        code: code.to_string(),
        status: "A".to_string(),
        address_cn: addr.to_string(),
        tel_no: tel.to_string(),
    }
}

fn slot(date: &str, time: &str, id: &str, branches: Vec<BranchInfo>) -> SlotDetail {
    SlotDetail { date: date.to_string(), time: time.to_string(), time_slot_id: id.to_string(), branches }
}

#[test]
fn cover_dates_checks_every_expected_date() {
    let details = vec![slot("2024-01-05", "09:00", "P1", vec![])];
    assert!(details_cover_dates(&["20240105".to_string()], &details));
    assert!(!details_cover_dates(&["20240105".to_string(), "20240106".to_string()], &details));
    assert!(details_cover_dates(&[], &[]));
}

#[test]
fn points_are_counted_per_branch() {
    let details = vec![
        slot("2024-01-05", "09:00", "P1", vec![branch("A", "1", "", ""), branch("B", "2", "", "")]),
        slot("2024-01-05", "10:00", "P2", vec![branch("A", "1", "", "")]),
    ];
    assert_eq!(count_detail_points(&details), 3);
}

#[test]
fn snapshot_diff_finds_new_and_vanished_points() {
    let old = vec![slot("2024-01-05", "09:00", "P1", vec![branch("A", "1", "", ""), branch("B", "2", "", "")])];
    let new = vec![
        slot("2024-01-05", "09:00", "P1", vec![branch("A", "1", "", "")]),
        slot("2024-01-06", "10:00", "P2", vec![branch("C", "3", "", "")]),
    ];
    let (added, removed) = diff_detail_snapshots(&old, &new);
    assert_eq!(added.len(), 1);
    assert_eq!(added[0].date, "2024-01-06");
    assert_eq!(added[0].branches.len(), 1);
    assert_eq!(added[0].branches[0].code, "3");
    assert_eq!(removed.len(), 1);
    assert_eq!(removed[0].branches[0].code, "2");
    let (a2, r2) = diff_detail_snapshots(&new, &new);
    assert!(a2.is_empty() && r2.is_empty());
}

#[test]
fn compact_details_group_by_date_time_and_branch() {
    let details = vec![
        slot("2024-01-06", "10:00", "P2", vec![branch("中环", "1", "", "")]),
        slot("2024-01-05", "09:00", "P1", vec![branch("旺角", "2", "", ""), branch("旺角", "2", "", "")]),
    ];
    assert_eq!(
        format_compact_details(&details),
        "### 2024-01-05\n- `09:00` 旺角 x2\n\n### 2024-01-06\n- `10:00` 中环"
    );
}

#[test]
fn removed_details_show_how_long_points_lasted() {
    let details = vec![slot("2024-01-05", "09:00", "P1", vec![branch("中环", "1", "", ""), branch("旺角", "2", "", "")])];
    let durations = vec![(
        ("1".to_string(), "2024-01-05".to_string(), "09:00".to_string(), "P1".to_string()),
        125u64,
    )];
    assert_eq!(
        format_removed_details(&details, &durations),
        "### 2024-01-05\n- `09:00` 中环 (alive 2m)\n- `09:00` 旺角"
    );
}

#[test]
fn contact_section_fills_first_known_details() {
    let details = vec![
        slot("2024-01-05", "09:00", "P1", vec![branch("中环", "1", "", "")]),
        slot("2024-01-05", "10:00", "P2", vec![branch("中环", "1", "德辅道中", "")]),
    ];
    let text = format_branch_contacts_section(&details);
    assert!(text.starts_with("### 📍 分行联系信息\n\n#### 中环\n- 地址：德辅道中\n- 电话：(暂无)\n- [Google 地图](https://www.google.com/maps/search/?api=1&query="));
    assert_eq!(format_branch_contacts_section(&[]), "");
}

#[test]
fn change_message_has_headings_and_sections() {
    let added = vec![slot("2024-01-05", "09:00", "P1", vec![branch("中环", "1", "地址", "123")])];
    let removed: Vec<SlotDetail> = vec![];
    let msg = format_detail_change_message(&added, &removed, &[]);
    assert!(msg.starts_with("## 🟢 新增可预约（1）\n\n### 2024-01-05\n- `09:00` 中环\n\n### 📍 分行联系信息"));
    assert!(!msg.contains("已不可预约"));
    assert_eq!(format_detail_change_message(&[], &[], &[]), "");
    let msg2 = format_detail_change_message(&[], &added, &[]);
    assert_eq!(msg2, "## 🔴 已不可预约（1）\n\n### 2024-01-05\n- `09:00` 中环");
}
