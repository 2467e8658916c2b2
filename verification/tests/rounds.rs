use bochk_check::models::{BranchInfo, SlotDetail};
use bochk_check::message::format_compact_details;
use bochk_check::round::{failure_alert, startup_notice, RoundState};

fn slot(date: &str, time: &str, code: &str) -> SlotDetail {
    SlotDetail {
        date: date.to_string(),
        time: time.to_string(),
        time_slot_id: String::new(),
        branches: vec![BranchInfo {
            name: "中环".to_string(),
            code: code.to_string(),
            status: "A".to_string(),
            address_cn: String::new(),
            tel_no: String::new(),
        }],
    }
}

#[test]
fn first_success_writes_the_change_log_and_counts_the_round() {
    let mut r = RoundState::new();
    assert_eq!((r.fail_count, r.fail_notified, r.total_checks, r.first_round), (0, false, 0, true));
    let plan = r.after_success(false, 0);
    assert!(plan.write_change_log);
    assert!(!plan.recovered);
    assert!(!plan.record_release);
    assert_eq!(r.total_checks, 1);
    assert!(!r.first_round);
    let plan = r.after_success(false, 2);
    assert!(!plan.write_change_log);
    assert!(plan.record_release);
    let plan = r.after_success(true, 0);
    assert!(plan.write_change_log);
    assert_eq!(r.total_checks, 3);
}

#[test]
fn failures_alert_at_the_third_then_every_tenth() {
    let mut r = RoundState::new();
    let alerts: Vec<bool> = (0..21).map(|_| r.after_failure()).collect();
    let alerted: Vec<usize> = alerts.iter().enumerate().filter(|(_, a)| **a).map(|(i, _)| i + 1).collect();
    assert_eq!(alerted, vec![3, 10, 20]);
    assert_eq!(r.fail_count, 21);
    assert!(r.fail_notified);
    let plan = r.after_success(false, 0);
    assert!(plan.recovered);
    assert_eq!((r.fail_count, r.fail_notified), (0, false));
    assert!(!r.after_failure());
}

#[test]
fn startup_notice_lists_dates_and_details() {
    let dates = vec!["20240105".to_string(), "20240106".to_string()];
    assert_eq!(startup_notice(&[], None), None);
    assert_eq!(startup_notice(&dates, None).unwrap(), "启动即发现可预约日期: 2024-01-05, 2024-01-06");
    assert_eq!(
        startup_notice(&dates, Some(&[])).unwrap(),
        "启动即发现可预约日期: 2024-01-05, 2024-01-06\n\n(已确认存在可预约日期，但暂未获取到分行明细)"
    );
    let details = vec![slot("2024-01-05", "09:00", "1")];
    let expected = format!(
        "启动即发现可预约日期: 2024-01-05, 2024-01-06\n\n{}",
        format_compact_details(&details)
    );
    assert_eq!(startup_notice(&dates, Some(&details)).unwrap(), expected);
}

#[test]
fn failure_alert_text() {
    assert_eq!(
        failure_alert(3, "timeout", 1500, "http://p:1", 12, 40),
        "⚠️ 监控连续失败 3 次\n最后错误: timeout\n耗时: 1500ms\n代理: http://p:1\n已运行: 12分钟\n已检查: 40次"
    );
}
