use bochk_check::history::{
    duration_seconds_between, history_event, load_release_points, paginate, web_history_data,
    EventRow, WebHistoryDaySummary,
};
use bochk_check::release::{build_release_buckets, build_release_windows, rank_release_windows};

#[test]
fn pagination_clamps_the_page() {
    let (p, offset) = paginate(25, 5, 10);
    assert_eq!((p.page, p.page_size, p.total_items, p.total_pages, offset), (3, 10, 25, 3, 20));
    let (p, offset) = paginate(0, 4, 10);
    assert_eq!((p.page, p.total_pages, offset), (1, 0, 0));
    let (p, offset) = paginate(7, 0, 0);
    assert_eq!((p.page, p.page_size, p.total_pages, offset), (1, 1, 7, 0));
    let (p, _) = paginate(30, 2, 10);
    assert_eq!(p.page, 2);
}

#[test]
fn durations_between_timestamps() {
    assert_eq!(duration_seconds_between("2024-01-05 10:00:00", "2024-01-05 10:02:05"), Some(125));
    assert_eq!(duration_seconds_between("2024-01-05 10:00:00", "2024-01-04 10:00:00"), Some(0));
    assert_eq!(duration_seconds_between("2024-01-05 23:59:00", "2024-01-06 00:01:00"), Some(120));
    assert_eq!(duration_seconds_between("bad", "2024-01-05 10:00:00"), None);
}

#[test]
fn release_points_skip_unreadable_timestamps() {
    let ts = vec!["2024-01-05 01:02:03".to_string(), "oops".to_string(), "2024-01-06 00:00:10".to_string()];
    assert_eq!(load_release_points(&ts), vec![3723, 10]);
}

#[test]
fn windows_group_releases_twenty_minutes_apart() {
    let points = vec![36000, 36600, 37200, 40000, 30000];
    let ws = build_release_windows(&points);
    assert_eq!(ws.len(), 2);
    assert_eq!(ws[0].center_time, "09:43");
    assert_eq!(ws[0].range_start, "11:06");
    assert_eq!(ws[0].range_end, "08:20");
    assert_eq!((ws[0].minus_minutes, ws[0].plus_minutes, ws[0].sample_count), (0, 0, 2));
    assert_eq!(ws[1].center_time, "10:10");
    assert_eq!(ws[1].range_start, "10:00");
    assert_eq!(ws[1].range_end, "10:20");
    assert_eq!((ws[1].minus_minutes, ws[1].plus_minutes, ws[1].sample_count), (10, 10, 3));
    assert!(build_release_windows(&[]).is_empty());
    let counted: u32 = ws.iter().map(|w| w.sample_count).sum();
    assert_eq!(counted as usize, points.len());
}

#[test]
fn buckets_count_releases_per_half_hour() {
    let points = vec![3600, 5000, 1799, 86399];
    let bs = build_release_buckets(&points);
    let labels: Vec<&str> = bs.iter().map(|b| b.bucket_label.as_str()).collect();
    assert_eq!(labels, vec!["00:00-00:30", "01:00-01:30", "23:30-24:00"]);
    assert_eq!(bs[1].sample_count, 2);
    assert_eq!(bs[1].observed_start, "01:00");
    assert_eq!(bs[1].observed_end, "01:23");
    assert!(build_release_buckets(&[]).is_empty());
    let counted: u32 = bs.iter().map(|b| b.sample_count).sum();
    assert_eq!(counted as usize, points.len());
}

#[test]
fn ranking_prefers_more_releases_then_earlier_centre() {
    let points = vec![3600, 3601, 36000, 72000, 72001];
    let ws = build_release_windows(&points);
    let top = rank_release_windows(&ws, 2);
    assert_eq!(top.len(), 2);
    assert_eq!(top[0].center_time, "01:00");
    assert_eq!(top[1].center_time, "20:00");
    assert_eq!(rank_release_windows(&ws, 10).len(), 3);
}

#[test]
fn history_event_formats_date_and_duration() {
    let row = EventRow {
        event_at: "2024-01-05 10:02:05".to_string(),
        event_type: "disappeared".to_string(),
        appointment_date: "20240110".to_string(),
        appointment_time: "09:00".to_string(),
        branch_name: "中环".to_string(),
        address_cn: String::new(),
        tel_no: String::new(),
        google_maps_url: String::new(),
    };
    let e = history_event(row, Some("2024-01-05 10:00:00".to_string()));
    assert_eq!(e.appointment_date, "2024-01-10");
    assert_eq!(e.duration_secs, 125);
}

#[test]
fn history_page_shows_days_oldest_first() {
    let day = |d: &str| WebHistoryDaySummary { date: d.to_string(), appeared_count: 1, disappeared_count: 0 };
    let (p, _) = paginate(0, 1, 10);
    let h = web_history_data(day("t"), vec![day("2024-01-03"), day("2024-01-02")], vec![], p, vec![], vec![], &[3600], 5);
    assert_eq!(h.recent_days[0].date, "2024-01-02");
    assert_eq!(h.all_release_windows.len(), 1);
    assert_eq!(h.top_release_windows.len(), 1);
}

#[test]
fn a_lone_late_point_makes_a_window() {
    let ws = build_release_windows(&[4_294_967_000]);
    assert_eq!(ws.len(), 1);
    assert_eq!(ws[0].center_time, "06:23");
    assert_eq!((ws[0].minus_minutes, ws[0].plus_minutes, ws[0].sample_count), (0, 0, 1));
}
