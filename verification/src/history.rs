//! Statistics over the event history: clock texts, pagination of the event list,
//! durations between events, and the windows of the day in which slots get released.
use vstd::prelude::*;
use crate::text::{pad2, push_char, push_pad2};

verus! {

/// Seconds past midnight as `HH:MM` (hours taken modulo a day).
pub open spec fn hhmm(t: nat) -> Seq<char> {
    pad2((t / 3600) % 24) + seq![':'] + pad2((t % 3600) / 60)
}

/// Formats seconds past midnight as `HH:MM`.
pub fn format_hhmm(total_seconds: u32) -> (r: String)
    ensures
        r@ == hhmm(total_seconds as nat),
{
    let hours = (total_seconds / 3600) % 24;
    let minutes = (total_seconds % 3600) / 60;
    let mut r = String::new();
    push_pad2(&mut r, hours as u64);
    push_char(&mut r, ':');
    push_pad2(&mut r, minutes as u64);
    assert(r@ =~= hhmm(total_seconds as nat));
    r
}

/// `HH:MM` for an end of range: the end of the day is `24:00`.
pub open spec fn hhmm_edge(t: nat) -> Seq<char> {
    if t >= 86400 {
        seq!['2', '4', ':', '0', '0']
    } else {
        hhmm(t)
    }
}

/// Formats the end of a range as `HH:MM`, the end of the day as `24:00`.
pub fn format_hhmm_edge(total_seconds: u32) -> (r: String)
    ensures
        r@ == hhmm_edge(total_seconds as nat),
{
    if total_seconds >= 24 * 3600 {
        let mut r = String::new();
        push_char(&mut r, '2');
        push_char(&mut r, '4');
        push_char(&mut r, ':');
        push_char(&mut r, '0');
        push_char(&mut r, '0');
        assert(r@ =~= seq!['2', '4', ':', '0', '0']);
        r
    } else {
        format_hhmm(total_seconds)
    }
}

/// Where a page of the event list starts and how many pages there are.
#[derive(Clone, Copy, Debug, PartialEq, Eq)]
pub struct WebPagination {
    pub page: usize,
    pub page_size: usize,
    pub total_items: usize,
    pub total_pages: usize,
}

/// Number of pages of `size` items (a size of 0 counts as 1) holding `total` items.
pub open spec fn page_count(total: nat, size: nat) -> nat {
    if total == 0 {
        0
    } else if size == 0 {
        total
    } else {
        ((total + size - 1) as nat / size) as nat
    }
}

/// The page actually shown: the requested one clamped to `1..=pages` (1 when there are none).
pub open spec fn shown_page(requested: nat, pages: nat) -> nat {
    if pages == 0 {
        1
    } else if requested < 1 {
        1
    } else if requested > pages {
        pages
    } else {
        requested
    }
}

/// Pagination of `total_items` events for a requested page and page size, with the
/// offset of the first event shown.
pub fn paginate(total_items: usize, event_page: usize, event_page_size: usize) -> (r: (
    WebPagination,
    usize,
))
    requires
        total_items == 0 || event_page_size == 0 || total_items + event_page_size - 1 <= usize::MAX,
    ensures
        r.0.total_items == total_items,
        r.0.total_pages == page_count(total_items as nat, event_page_size as nat),
        r.0.page == shown_page(event_page as nat, r.0.total_pages as nat),
        r.0.page_size == if event_page_size == 0 {
            1
        } else {
            event_page_size
        },
        r.1 == (r.0.page - 1) * r.0.page_size,
{
    let total_pages: usize = if total_items == 0 {
        0
    } else {
        let size: usize = if event_page_size == 0 {
            1
        } else {
            event_page_size
        };
        let spare: usize = if event_page_size == 0 {
            0
        } else {
            event_page_size - 1
        };
        (total_items + spare) / size
    };
    let page: usize = if total_pages == 0 {
        1
    } else {
        let lower: usize = if event_page < 1 {
            1
        } else {
            event_page
        };
        if lower > total_pages {
            total_pages
        } else {
            lower
        }
    };
    let page_size: usize = if event_page_size == 0 {
        1
    } else {
        event_page_size
    };
    proof {
        if total_pages > 0 {
            if event_page_size > 0 {
                let s = event_page_size as int;
                let t = total_items as int;
                let tp = total_pages as int;
                assert(tp == (t + s - 1) / s);
                assert((tp - 1) * s <= t) by (nonlinear_arith)
                    requires
                        tp == (t + s - 1) / s,
                        s >= 1,
                        t >= 1,
                ;
                assert((page as int - 1) * s <= (tp - 1) * s) by (nonlinear_arith)
                    requires
                        1 <= page <= tp,
                        s >= 1,
                ;
                assert(page_size == event_page_size);
                assert((page - 1) * page_size <= total_items);
            } else {
                assert((page - 1) * 1 <= total_items);
            }
        } else {
            assert(page == 1);
            assert((page - 1) * page_size == 0) by (nonlinear_arith)
                requires
                    page == 1,
            ;
        }
        assert((page - 1) * page_size <= total_items);
    }
    let offset: usize = (page - 1) * page_size;
    (WebPagination { page, page_size, total_items, total_pages }, offset)
}

/// Seconds past midnight of a `YYYY-MM-DD HH:MM:SS` timestamp, as chrono reads it.
pub uninterp spec fn clock_seconds(value: Seq<char>) -> Option<u32>;

/// Seconds past midnight of a timestamp `YYYY-MM-DD HH:MM:SS`: chrono's
/// `NaiveDateTime::parse_from_str` with that pattern, then `num_seconds_from_midnight`.
/// Claimed: the result is a function of the text alone and lies below a day's seconds;
/// which texts parse, and to what, is chrono's and is not stated.
#[verifier::external_body]
fn hhmm_seconds_from_timestamp(value: &str) -> (r: Option<u32>)
    ensures
        r == clock_seconds(value@),
        r matches Some(s) ==> s < 86400,
{
    match chrono::NaiveDateTime::parse_from_str(value, "%Y-%m-%d %H:%M:%S") {
        Ok(dt) => Some(chrono::Timelike::num_seconds_from_midnight(&dt.time())),
        Err(_) => None,
    }
}

/// Signed seconds from `start` to `end`, both `YYYY-MM-DD HH:MM:SS`, as chrono computes them.
pub uninterp spec fn timestamp_gap(start: Seq<char>, end: Seq<char>) -> Option<i64>;

/// Seconds from `start` to `end`: chrono's `NaiveDateTime::parse_from_str` on both with
/// the pattern `%Y-%m-%d %H:%M:%S`, then `(end - start).num_seconds()`; `None` when either
/// text does not parse. Claimed: the result is a function of the two texts alone; its
/// value is chrono's and is not stated.
#[verifier::external_body]
fn seconds_between(start: &str, end: &str) -> (r: Option<i64>)
    ensures
        r == timestamp_gap(start@, end@),
{
    let fmt = "%Y-%m-%d %H:%M:%S";
    match (
        chrono::NaiveDateTime::parse_from_str(start, fmt),
        chrono::NaiveDateTime::parse_from_str(end, fmt),
    ) {
        (Ok(s), Ok(e)) => Some((e - s).num_seconds()),
        _ => None,
    }
}

/// Seconds from `start` to `end`, never negative; nothing when a timestamp does not parse.
pub fn duration_seconds_between(start: &str, end: &str) -> (r: Option<u64>)
    ensures
        r == match timestamp_gap(start@, end@) {
            Some(g) => Some(if g < 0 {
                0u64
            } else {
                g as u64
            }),
            None => None,
        },
{
    match seconds_between(start, end) {
        Some(g) => {
            if g < 0 {
                Some(0)
            } else {
                Some(g as u64)
            }
        },
        None => None,
    }
}

/// Seconds past midnight of each timestamp that parses, in order.
pub open spec fn release_points(ts: Seq<Seq<char>>) -> Seq<u32>
    decreases ts.len(),
{
    if ts.len() == 0 {
        seq![]
    } else {
        match clock_seconds(ts.last()) {
            Some(s) => release_points(ts.drop_last()).push(s),
            None => release_points(ts.drop_last()),
        }
    }
}

/// Seconds past midnight of the release timestamps, skipping those that do not parse.
pub fn load_release_points(event_ats: &[String]) -> (r: Vec<u32>)
    ensures
        r@ == release_points(event_ats@.map_values(|s: String| s@)),
        forall|i: int| 0 <= i < r@.len() ==> #[trigger] r@[i] < 86400,
{
    let ghost tv = event_ats@.map_values(|s: String| s@);
    let mut points: Vec<u32> = Vec::new();
    let mut i: usize = 0;
    while i < event_ats.len()
        invariant
            i <= event_ats@.len(),
            tv == event_ats@.map_values(|s: String| s@),
            points@ == release_points(tv.take(i as int)),
            forall|q: int| 0 <= q < points@.len() ==> #[trigger] points@[q] < 86400,
        decreases event_ats.len() - i,
    {
        assert(tv.take(i + 1 as int).drop_last() =~= tv.take(i as int));
        assert(tv.take(i + 1 as int).last() == event_ats@[i as int]@);
        match hhmm_seconds_from_timestamp(event_ats[i].as_str()) {
            Some(s) => points.push(s),
            None => {},
        }
        i += 1;
    }
    assert(tv.take(event_ats@.len() as int) =~= tv);
    points
}

/// An event of the history as the status page lists it.
pub struct WebHistoryEvent {
    pub event_at: String,
    pub event_type: String,
    pub appointment_date: String,
    pub appointment_time: String,
    pub branch_name: String,
    pub duration_secs: u64,
    pub address_cn: String,
    pub tel_no: String,
    pub google_maps_url: String,
}

/// An event as read from the store, with its branch's catalog details.
pub struct EventRow {
    pub event_at: String,
    pub event_type: String,
    pub appointment_date: String,
    pub appointment_time: String,
    pub branch_name: String,
    pub address_cn: String,
    pub tel_no: String,
    pub google_maps_url: String,
}

/// Seconds from `appeared_at` to `event_at`, never negative; 0 when unknown or unreadable.
pub open spec fn event_duration(appeared_at: Option<Seq<char>>, event_at: Seq<char>) -> u64 {
    match appeared_at {
        Some(a) => match timestamp_gap(a, event_at) {
            Some(g) => if g < 0 {
                0u64
            } else {
                g as u64
            },
            None => 0u64,
        },
        None => 0u64,
    }
}

/// The listed event: the row with its date formatted and, as its duration, the seconds
/// since the point's latest earlier appearance (`appeared_at`).
pub fn history_event(row: EventRow, appeared_at: Option<String>) -> (r: WebHistoryEvent)
    requires
        crate::parser::date_splittable(row.appointment_date@),
    ensures
        r.event_at@ == row.event_at@,
        r.event_type@ == row.event_type@,
        r.appointment_date@ == crate::parser::spec_format_date(row.appointment_date@),
        r.appointment_time@ == row.appointment_time@,
        r.branch_name@ == row.branch_name@,
        r.duration_secs == event_duration(
            match appeared_at {
                Some(a) => Some(a@),
                None => None,
            },
            row.event_at@,
        ),
        r.address_cn@ == row.address_cn@,
        r.tel_no@ == row.tel_no@,
        r.google_maps_url@ == row.google_maps_url@,
{
    let duration_secs = match &appeared_at {
        Some(start) => match duration_seconds_between(start.as_str(), row.event_at.as_str()) {
            Some(d) => d,
            None => 0,
        },
        None => 0,
    };
    let appointment_date = crate::parser::format_date(row.appointment_date.as_str());
    WebHistoryEvent {
        event_at: row.event_at,
        event_type: row.event_type,
        appointment_date,
        appointment_time: row.appointment_time,
        branch_name: row.branch_name,
        duration_secs,
        address_cn: row.address_cn,
        tel_no: row.tel_no,
        google_maps_url: row.google_maps_url,
    }
}

/// Events of one day.
pub struct WebHistoryDaySummary {
    pub date: String,
    pub appeared_count: u32,
    pub disappeared_count: u32,
}

/// How many releases a branch had.
pub struct WebBranchReleaseStat {
    pub branch_name: String,
    pub release_count: u32,
}

/// How many releases an appointment time had.
pub struct WebAppointmentTimeStat {
    pub appointment_time: String,
    pub release_count: u32,
}

/// Everything the history page shows.
pub struct WebHistoryData {
    pub today: WebHistoryDaySummary,
    pub recent_days: Vec<WebHistoryDaySummary>,
    pub recent_events: Vec<WebHistoryEvent>,
    pub recent_events_pagination: WebPagination,
    pub top_release_branches: Vec<WebBranchReleaseStat>,
    pub top_appointment_times: Vec<WebAppointmentTimeStat>,
    pub top_release_windows: Vec<crate::release::WebReleaseWindowStat>,
    pub all_release_windows: Vec<crate::release::WebReleaseBucketStat>,
}

pub open spec fn day_v(d: WebHistoryDaySummary) -> (Seq<char>, u32, u32) {
    (d.date@, d.appeared_count, d.disappeared_count)
}

/// The history page from what the store gave: the recent days (newest first, shown oldest
/// first), the page of events, the release statistics, and the release times of the last
/// week, which give the half-hour buckets and the `top_time_limit` best windows.
pub fn web_history_data(
    today: WebHistoryDaySummary,
    recent_days_newest_first: Vec<WebHistoryDaySummary>,
    recent_events: Vec<WebHistoryEvent>,
    pagination: WebPagination,
    top_release_branches: Vec<WebBranchReleaseStat>,
    top_appointment_times: Vec<WebAppointmentTimeStat>,
    release_points: &[u32],
    top_time_limit: usize,
) -> (r: WebHistoryData)
    requires
        release_points@.len() <= u32::MAX,
        forall|i: int| 0 <= i < release_points@.len() ==> #[trigger] release_points@[i] < 86400,
    ensures
        day_v(r.today) == day_v(today),
        r.recent_days@.map_values(|d: WebHistoryDaySummary| day_v(d))
            == recent_days_newest_first@.map_values(|d: WebHistoryDaySummary| day_v(d)).reverse(),
        r.recent_events@ == recent_events@,
        r.recent_events_pagination == pagination,
        r.top_release_branches@ == top_release_branches@,
        r.top_appointment_times@ == top_appointment_times@,
        crate::release::buckets_v(r.all_release_windows@) == crate::release::release_buckets(
            release_points@,
        ),
        crate::release::windows_v(r.top_release_windows@) == crate::release::ranked_windows(
            crate::release::release_windows(release_points@),
            top_time_limit as nat,
        ),
{
    let mut days = recent_days_newest_first;
    let ghost dv = days@.map_values(|d: WebHistoryDaySummary| day_v(d));
    let mut shown: Vec<WebHistoryDaySummary> = Vec::new();
    while days.len() > 0
        invariant
            dv.len() == days@.len() + shown@.len(),
            forall|q: int| 0 <= q < days@.len() ==> #[trigger] day_v(days@[q]) == dv[q],
            forall|q: int| 0 <= q < shown@.len() ==> #[trigger] day_v(shown@[q]) == dv[dv.len() - 1 - q],
        decreases days.len(),
    {
        let d = days.pop().unwrap();
        shown.push(d);
    }
    assert(shown@.map_values(|d: WebHistoryDaySummary| day_v(d)) =~= dv.reverse());
    let all_release_windows = crate::release::build_release_buckets(release_points);
    proof {
        let ps = release_points@;
        let cv = crate::release::clusters(ps);
        crate::release::lemma_clusters(ps);
        assert forall|i: int| 0 <= i < cv.len() implies crate::release::window_computable(
            #[trigger] cv[i],
        ) by {
            assert forall|q: int| 0 <= q < cv[i].len() implies #[trigger] cv[i][q] < 86400 by {
                let k = choose|k: int| 0 <= k < ps.len() && #[trigger] cv[i][q] == ps[k];
            }
            crate::release::lemma_day_clusters_computable(cv[i], ps.len());
        }
    }
    let windows = crate::release::build_release_windows(release_points);
    let top_release_windows = crate::release::rank_release_windows(windows.as_slice(), top_time_limit);
    WebHistoryData {
        today,
        recent_days: shown,
        recent_events,
        recent_events_pagination: pagination,
        top_release_branches,
        top_appointment_times,
        top_release_windows,
        all_release_windows,
    }
}

} // verus!
