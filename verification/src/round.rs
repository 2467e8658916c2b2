//! The decisions of one polling round: recovery and failure counting, when to alert,
//! when to record a release and write the change log, and the texts of the notices.
use vstd::prelude::*;
use crate::keys::texts_view;
use crate::message::{format_compact_details, join, join_texts, pairs, spec_compact_details};
use crate::models::{SlotDetail, slots_v};
use crate::parser::{date_splittable, format_date, spec_format_date};
use crate::text::{decimal, owned, push_decimal};

verus! {

/// What the polling loop remembers between rounds.
pub struct RoundState {
    pub fail_count: u32,
    pub fail_notified: bool,
    pub total_checks: u64,
    pub first_round: bool,
}

/// What a successful round does besides updating the status page.
pub struct SuccessPlan {
    /// The service answers again after failures.
    pub recovered: bool,
    /// Record this round's time as the last release.
    pub record_release: bool,
    /// Append this round to the change log.
    pub write_change_log: bool,
}

impl RoundState {
    /// The state before the first round.
    pub fn new() -> (r: RoundState)
        ensures
            r.fail_count == 0,
            !r.fail_notified,
            r.total_checks == 0,
            r.first_round,
    {
        RoundState { fail_count: 0, fail_notified: false, total_checks: 0, first_round: true }
    }

    /// A round got the quota: failures are forgotten, the round is counted, a release is
    /// recorded when points were added, and the change log is written for the first round
    /// and whenever the quota changed.
    pub fn after_success(&mut self, quota_changed: bool, added_points: usize) -> (r: SuccessPlan)
        requires
            old(self).total_checks < u64::MAX,
        ensures
            r.recovered == (old(self).fail_count > 0),
            r.record_release == (added_points > 0),
            r.write_change_log == (old(self).first_round || quota_changed),
            final(self).fail_count == 0,
            !final(self).fail_notified,
            final(self).total_checks == old(self).total_checks + 1,
            !final(self).first_round,
    {
        let recovered = self.fail_count > 0;
        let write_change_log = self.first_round || quota_changed;
        self.fail_count = 0;
        self.fail_notified = false;
        self.total_checks = self.total_checks + 1;
        self.first_round = false;
        SuccessPlan { recovered, record_release: added_points > 0, write_change_log }
    }

    /// A round failed: the failure is counted; the result says whether to alert, which
    /// happens from the third consecutive failure on, once, and again at every tenth.
    pub fn after_failure(&mut self) -> (alert: bool)
        requires
            old(self).fail_count < u32::MAX,
        ensures
            final(self).fail_count == old(self).fail_count + 1,
            alert == (final(self).fail_count >= 3 && (!old(self).fail_notified
                || final(self).fail_count % 10 == 0)),
            final(self).fail_notified == (old(self).fail_notified || alert),
            final(self).total_checks == old(self).total_checks,
            final(self).first_round == old(self).first_round,
    {
        self.fail_count = self.fail_count + 1;
        let alert = crate::monitor::should_notify_failure(self.fail_count, self.fail_notified);
        if alert {
            self.fail_notified = true;
        }
        alert
    }
}

/// The notice of dates found in the first round: the dates formatted and joined with
/// commas, then the details, or a note that no branch details came back yet.
pub open spec fn startup_notice_text(dates: Seq<Seq<char>>, details: Option<Seq<crate::models::SlotV>>) -> Seq<
    char,
> {
    let head = "启动即发现可预约日期: "@ + join(dates.map_values(|d: Seq<char>| spec_format_date(d)), ", "@);
    match details {
        Some(ds) => if ds.len() > 0 {
            head + "\n\n"@ + spec_compact_details(ds)
        } else {
            head + "\n\n(已确认存在可预约日期，但暂未获取到分行明细)"@
        },
        None => head,
    }
}

/// The notice of the first round; none when no date is available.
pub fn startup_notice(available: &[String], details: Option<&[SlotDetail]>) -> (r: Option<String>)
    requires
        forall|i: int| 0 <= i < available@.len() ==> date_splittable(#[trigger] available@[i]@),
        details matches Some(d) ==> pairs(slots_v(d@)).len() <= usize::MAX,
    ensures
        available@.len() == 0 ==> r is None,
        available@.len() > 0 ==> (r matches Some(t) && t@ == startup_notice_text(
            texts_view(available@),
            match details {
                Some(d) => Some(slots_v(d@)),
                None => None,
            },
        )),
{
    if available.len() == 0 {
        return None;
    }
    let mut dates: Vec<String> = Vec::new();
    let mut i: usize = 0;
    while i < available.len()
        invariant
            i <= available@.len(),
            forall|q: int| 0 <= q < available@.len() ==> date_splittable(#[trigger] available@[q]@),
            dates@.len() == i,
            forall|q: int| 0 <= q < i ==> #[trigger] dates@[q]@ == spec_format_date(available@[q]@),
        decreases available.len() - i,
    {
        dates.push(format_date(available[i].as_str()));
        i += 1;
    }
    assert(texts_view(dates@) =~= texts_view(available@).map_values(
        |d: Seq<char>| spec_format_date(d),
    ));
    let mut t = owned("启动即发现可预约日期: ");
    let joined = join_texts(dates.as_slice(), ", ");
    t.append(joined.as_str());
    match details {
        Some(d) => {
            if d.len() > 0 {
                t.append("\n\n");
                let c = format_compact_details(d);
                t.append(c.as_str());
            } else {
                t.append("\n\n(已确认存在可预约日期，但暂未获取到分行明细)");
            }
        },
        None => {},
    }
    Some(t)
}

/// The alert text of consecutive failures.
pub open spec fn failure_text(
    fail_count: nat,
    error: Seq<char>,
    elapsed_ms: nat,
    proxy_url: Seq<char>,
    uptime_mins: nat,
    total_checks: nat,
) -> Seq<char> {
    "⚠️ 监控连续失败 "@ + decimal(fail_count) + " 次\n最后错误: "@ + error + "\n耗时: "@ + decimal(
        elapsed_ms,
    ) + "ms\n代理: "@ + proxy_url + "\n已运行: "@ + decimal(uptime_mins) + "分钟\n已检查: "@
        + decimal(total_checks) + "次"@
}

/// The alert text of consecutive failures.
pub fn failure_alert(
    fail_count: u32,
    error: &str,
    elapsed_ms: u64,
    proxy_url: &str,
    uptime_mins: u64,
    total_checks: u64,
) -> (r: String)
    ensures
        r@ == failure_text(
            fail_count as nat,
            error@,
            elapsed_ms as nat,
            proxy_url@,
            uptime_mins as nat,
            total_checks as nat,
        ),
{
    let mut t = owned("⚠️ 监控连续失败 ");
    push_decimal(&mut t, fail_count as u64);
    t.append(" 次\n最后错误: ");
    t.append(error);
    t.append("\n耗时: ");
    push_decimal(&mut t, elapsed_ms);
    t.append("ms\n代理: ");
    t.append(proxy_url);
    t.append("\n已运行: ");
    push_decimal(&mut t, uptime_mins);
    t.append("分钟\n已检查: ");
    push_decimal(&mut t, total_checks);
    t.append("次");
    t
}

} // verus!
