//! The requests made to the booking service and the rules applied to its answers:
//! request texts, business errors, and the retry policy.
use vstd::prelude::*;
use crate::json::{JsonValue, as_text, get, get_field, json_wf, same_text};
use crate::text::owned;

verus! {

pub const BASE_URL: &'static str = "https://transaction.bochk.com/whk/form/openAccount/";

pub const USER_AGENT: &'static str = "Mozilla/5.0 (iPhone; CPU iPhone OS 18_7 like Mac OS X) AppleWebKit/605.1.15 (KHTML, like Gecko) Mobile/15E148 MicroMessenger/8.0.69(0x1800452d) NetType/4G Language/zh_CN";

pub const REFERER: &'static str = "https://transaction.bochk.com/whk/form/openAccount/continueInput.action";

pub const ORIGIN: &'static str = "https://transaction.bochk.com";

pub const ACCEPT_LANGUAGE: &'static str = "zh-SG,zh-CN;q=0.9,zh-Hans;q=0.8";

/// Seconds a request may take.
pub const REQUEST_TIMEOUT_SECS: u64 = 10;

/// Attempts made for one request.
pub const MAX_RETRIES: u32 = 3;

/// Pause between attempts, in milliseconds.
pub const RETRY_DELAY_MS: u64 = 300;

/// The URL of an action of the service.
pub fn action_url(action: &str) -> (r: String)
    ensures
        r@ == BASE_URL@ + action@,
{
    let mut r = owned(BASE_URL);
    r.append(action);
    r
}

/// The body asking for the date quota.
pub fn date_quota_body() -> (r: String)
    ensures
        r@ == "bean.appDate="@,
{
    owned("bean.appDate=")
}

/// The body asking for the time slots of a date (`DD/MM/YYYY`).
pub fn time_slots_body(date: &str) -> (r: String)
    ensures
        r@ == "bean.appDate="@ + date@,
{
    let mut r = owned("bean.appDate=");
    r.append(date);
    r
}

/// The text of a branch-list request body.
pub open spec fn branches_body_text(
    date: Seq<char>,
    time_slot: Seq<char>,
    district: Seq<char>,
    precondition: Seq<char>,
) -> Seq<char> {
    "bean.appDate="@ + date + "&bean.appTime="@ + time_slot + "&bean.district="@ + district
        + "&bean.precondition="@ + precondition
}

/// The body asking for the districts (empty district) or branches of a time slot.
pub fn branches_body(date: &str, time_slot: &str, district: &str, precondition: &str) -> (r: String)
    ensures
        r@ == branches_body_text(date@, time_slot@, district@, precondition@),
{
    let mut r = owned("bean.appDate=");
    r.append(date);
    r.append("&bean.appTime=");
    r.append(time_slot);
    r.append("&bean.district=");
    r.append(district);
    r.append("&bean.precondition=");
    r.append(precondition);
    r
}

/// The query asking for the details of a branch.
pub fn branch_detail_query(branch_code: &str) -> (r: String)
    ensures
        r@ == "bean.branchCode="@ + branch_code@,
{
    let mut r = owned("bean.branchCode=");
    r.append(branch_code);
    r
}

/// The target of a branch-detail request: the action's URL with the query appended.
pub fn branch_detail_url(branch_code: &str) -> (r: String)
    ensures
        r@ == BASE_URL@ + "jsonBranchDetail.action"@ + "?"@ + "bean.branchCode="@ + branch_code@,
{
    let mut r = action_url("jsonBranchDetail.action");
    r.append("?");
    let q = branch_detail_query(branch_code);
    r.append(q.as_str());
    r
}

/// The error of an answer with an unsuccessful HTTP status.
pub fn http_error_text(status: &str, action: &str) -> (r: String)
    ensures
        r@ == "HTTP "@ + status@ + ": "@ + action@,
{
    let mut r = owned("HTTP ");
    r.append(status);
    r.append(": ");
    r.append(action);
    r
}

/// The error of a session that could not be opened.
pub fn session_error_text(status: &str) -> (r: String)
    ensures
        r@ == "会话初始化失败: HTTP "@ + status@,
{
    let mut r = owned("会话初始化失败: HTTP ");
    r.append(status);
    r
}

/// The text of a business error.
pub open spec fn business_error(code: Seq<char>, action: Seq<char>, body: Seq<char>, msg: Seq<char>) -> Seq<
    char,
> {
    "业务错误 "@ + code + ": "@ + action + " | body: "@ + body + " | eaiMsg: "@ + msg
}

/// The service's message of an answer, or a placeholder when it has none.
pub open spec fn business_message(json: crate::json::Json) -> Seq<char> {
    match as_text(get(json, "eaiMsg"@)) {
        Some(m) => m,
        None => "无详细信息"@,
    }
}

/// An answer is a business success unless its `eaiCode` is a text other than `SUCCESS`;
/// then the error names the code, the action, the request body and the service's message.
pub fn ensure_business_success(action: &str, body: &str, json: &JsonValue) -> (r: Result<(), String>)
    requires
        json_wf(json@),
    ensures
        match as_text(get(json@, "eaiCode"@)) {
            Some(code) => if code == "SUCCESS"@ {
                r is Ok
            } else {
                r matches Err(e) && e@ == business_error(code, action@, body@, business_message(json@))
            },
            None => r is Ok,
        },
{
    match get_field(json, "eaiCode") {
        Some(JsonValue::Str(code)) => {
            if same_text(code.as_str(), "SUCCESS") {
                Ok(())
            } else {
                let msg = match get_field(json, "eaiMsg") {
                    Some(JsonValue::Str(m)) => m.clone(),
                    _ => owned("无详细信息"),
                };
                let mut e = owned("业务错误 ");
                e.append(code.as_str());
                e.append(": ");
                e.append(action);
                e.append(" | body: ");
                e.append(body);
                e.append(" | eaiMsg: ");
                e.append(msg.as_str());
                Err(e)
            }
        },
        _ => Ok(()),
    }
}

/// How one attempt at a request ended.
pub enum AttemptOutcome {
    /// The request failed in transit, with an unsuccessful status, or with an unreadable body.
    Failed(String),
    /// The service answered with a business error.
    Rejected(String),
    /// The service answered successfully.
    Succeeded,
}

/// What to do after an attempt.
#[derive(Debug)]
pub enum AttemptStep {
    /// Wait, then make the next attempt.
    Retry { next_attempt: u32, delay_ms: u64 },
    /// Stop with the last failure.
    GiveUp(String),
    /// Stop with the business error.
    Reject(String),
    /// Stop with the answer.
    Done,
}

/// The retry policy: a business error or a success ends the request; any other failure
/// is retried after a pause until `MAX_RETRIES` attempts have been made, and the last
/// failure is reported.
pub fn after_attempt(attempt: u32, outcome: AttemptOutcome) -> (r: AttemptStep)
    requires
        1 <= attempt <= MAX_RETRIES,
    ensures
        match outcome {
            AttemptOutcome::Succeeded => r is Done,
            AttemptOutcome::Rejected(e) => r matches AttemptStep::Reject(x) && x@ == e@,
            AttemptOutcome::Failed(e) => if attempt < MAX_RETRIES {
                r == AttemptStep::Retry { next_attempt: (attempt + 1) as u32, delay_ms: RETRY_DELAY_MS }
            } else {
                r matches AttemptStep::GiveUp(x) && x@ == e@
            },
        },
{
    match outcome {
        AttemptOutcome::Succeeded => AttemptStep::Done,
        AttemptOutcome::Rejected(e) => AttemptStep::Reject(e),
        AttemptOutcome::Failed(e) => {
            if attempt < MAX_RETRIES {
                AttemptStep::Retry { next_attempt: attempt + 1, delay_ms: RETRY_DELAY_MS }
            } else {
                AttemptStep::GiveUp(e)
            }
        },
    }
}

/// What came back from one attempt at a request.
pub enum Answer {
    /// The request could not be made or completed; the error's text.
    Unsent(String),
    /// The service answered with an unsuccessful HTTP status; the status's text.
    BadStatus(String),
    /// The body is no JSON; the error's text.
    Unreadable(String),
    /// The body as JSON.
    Parsed(JsonValue),
}

/// How an attempt at `action` with `body` ended: a transport failure, an unsuccessful
/// status or an unreadable body is a failure to retry; a business error is a rejection.
pub fn classify_answer(action: &str, body: &str, answer: &Answer) -> (r: AttemptOutcome)
    requires
        answer matches Answer::Parsed(j) ==> json_wf(j@),
    ensures
        match answer {
            Answer::Unsent(e) => r matches AttemptOutcome::Failed(x) && x@ == e@,
            Answer::BadStatus(status) => r matches AttemptOutcome::Failed(x) && x@ == "HTTP "@
                + status@ + ": "@ + action@,
            Answer::Unreadable(e) => r matches AttemptOutcome::Failed(x) && x@ == e@,
            Answer::Parsed(json) => match as_text(get(json@, "eaiCode"@)) {
                Some(code) => if code == "SUCCESS"@ {
                    r is Succeeded
                } else {
                    r matches AttemptOutcome::Rejected(x) && x@ == business_error(
                        code,
                        action@,
                        body@,
                        business_message(json@),
                    )
                },
                None => r is Succeeded,
            },
        },
{
    match answer {
        Answer::Unsent(e) => AttemptOutcome::Failed(e.clone()),
        Answer::BadStatus(status) => AttemptOutcome::Failed(http_error_text(status.as_str(), action)),
        Answer::Unreadable(e) => AttemptOutcome::Failed(e.clone()),
        Answer::Parsed(json) => match ensure_business_success(action, body, json) {
            Ok(()) => AttemptOutcome::Succeeded,
            Err(e) => AttemptOutcome::Rejected(e),
        },
    }
}

} // verus!
