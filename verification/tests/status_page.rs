use bochk_check::models::{BranchInfo, SlotDetail};
use bochk_check::web::{build_web_data, web_data_at};

fn branch(name: &str, code: &str, addr: &str) -> BranchInfo {
    BranchInfo {
        name: name.to_string(),
        code: code.to_string(),
        status: "A".to_string(),
        address_cn: addr.to_string(),
        tel_no: String::new(),
    }
}

fn slot(date: &str, time: &str, branches: Vec<BranchInfo>) -> SlotDetail {
    SlotDetail { date: date.to_string(), time: time.to_string(), time_slot_id: String::new(), branches }
}

#[test]
fn status_page_lists_branches_with_availability() {
    let details = vec![
        slot("2024-01-05", "10:00", vec![branch("中环", "1", ""), branch("旺角", "2", "x")]),
        slot("2024-01-05", "09:00", vec![branch("中环", "1", "德辅道中")]),
        slot("2024-01-06", "09:00", vec![]),
    ];
    let quota = vec![("20240105".to_string(), "A".to_string()), ("20240106".to_string(), "F".to_string())];
    let seen = vec![(vec!["1".to_string(), "2024-01-05".to_string(), "09:00".to_string()], "2024-01-05 08:00:00".to_string())];
    let wd = web_data_at(&details, &quota, 7, "2024-01-05 08:00:00", &seen, "now".to_string());
    assert_eq!(wd.updated_at, "now");
    assert!(wd.monitoring);
    assert_eq!(wd.total_checks, 7);
    assert_eq!(wd.dates, vec!["2024-01-05".to_string(), "2024-01-06".to_string()]);
    assert_eq!(wd.time_slots, vec!["09:00".to_string(), "10:00".to_string()]);
    assert_eq!(wd.branches.len(), 2);
    let b = &wd.branches[0];
    assert_eq!((b.code.as_str(), b.name.as_str(), b.address_cn.as_str()), ("1", "中环", "德辅道中"));
    assert_eq!(b.availability.len(), 2);
    assert_eq!(b.availability[0].0, vec!["2024-01-05".to_string(), "09:00".to_string()]);
    assert_eq!(b.availability[0].1.first_seen_at, "2024-01-05 08:00:00");
    assert_eq!(b.availability[1].1.first_seen_at, "");
    assert_eq!(b.availability[1].1.status, "A");
    let now = build_web_data(&details, &quota, 7, "", &seen);
    assert_eq!(now.updated_at.len(), 19);
}

#[test]
fn update_time_has_the_clock_shape() {
    let wd = build_web_data(&[], &[], 0, "", &[]);
    let cs: Vec<char> = wd.updated_at.chars().collect();
    let n = cs.len();
    assert!(n >= 19);
    assert_eq!((cs[n - 15], cs[n - 12], cs[n - 9], cs[n - 6], cs[n - 3]), ('-', '-', ' ', ':', ':'));
    assert!(cs[n - 14..n - 12].iter().all(|c| c.is_ascii_digit()));
}
