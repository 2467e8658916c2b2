use bochk_check::client::{
    action_url, after_attempt, branch_detail_query, branch_detail_url, branches_body, classify_answer,
    ensure_business_success, time_slots_body, Answer, AttemptOutcome, AttemptStep,
};
use bochk_check::config::{
    apply_env_overrides, env_bark_urls_override, parse_bark_urls, parse_bool_env,
    parse_env_number, AppConfig, EnvOverrides,
};
use bochk_check::drill::{service_request, DrillAction};
use bochk_check::json::{is_well_formed, JsonValue};
use bochk_check::web::{requested_page, HistoryQuery};

/// An object as a JSON reader gives it: members in ascending key order.
fn obj(members: Vec<(&str, JsonValue)>) -> JsonValue {
    let mut members = members;
    members.sort_by(|a, b| a.0.cmp(b.0));
    let doc = JsonValue::Object(members.into_iter().map(|(k, v)| (k.to_string(), v)).collect());
    assert!(is_well_formed(&doc));
    doc
}

#[test]
fn request_texts() {
    assert_eq!(action_url("a.action"), "https://transaction.bochk.com/whk/form/openAccount/a.action");
    assert_eq!(time_slots_body("05/01/2024"), "bean.appDate=05/01/2024");
    assert_eq!(
        branches_body("05/01/2024", "P1", "", "D"),
        "bean.appDate=05/01/2024&bean.appTime=P1&bean.district=&bean.precondition=D"
    );
    assert_eq!(branch_detail_query("012"), "bean.branchCode=012");
}

#[test]
fn business_errors() {
    let ok = obj(vec![("eaiCode", JsonValue::Str("SUCCESS".to_string()))]);
    assert_eq!(ensure_business_success("a", "b", &ok), Ok(()));
    assert_eq!(ensure_business_success("a", "b", &obj(vec![])), Ok(()));
    let bad = obj(vec![("eaiCode", JsonValue::Str("WHKEQR888".to_string()))]);
    assert_eq!(
        ensure_business_success("act", "body=1", &bad),
        Err("业务错误 WHKEQR888: act | body: body=1 | eaiMsg: 无详细信息".to_string())
    );
    let bad2 = obj(vec![
        ("eaiCode", JsonValue::Str("E1".to_string())),
        ("eaiMsg", JsonValue::Str("busy".to_string())),
    ]);
    assert_eq!(ensure_business_success("a", "", &bad2), Err("业务错误 E1: a | body:  | eaiMsg: busy".to_string()));
}

#[test]
fn retry_policy() {
    match after_attempt(1, AttemptOutcome::Failed("x".to_string())) {
        AttemptStep::Retry { next_attempt, delay_ms } => assert_eq!((next_attempt, delay_ms), (2, 300)),
        _ => panic!("expected a retry"),
    }
    match after_attempt(3, AttemptOutcome::Failed("last".to_string())) {
        AttemptStep::GiveUp(e) => assert_eq!(e, "last"),
        _ => panic!("expected to give up"),
    }
    assert!(matches!(after_attempt(1, AttemptOutcome::Rejected("r".to_string())), AttemptStep::Reject(_)));
    assert!(matches!(after_attempt(2, AttemptOutcome::Succeeded), AttemptStep::Done));
}

#[test]
fn answers_are_classified() {
    match classify_answer("a.action", "b", &Answer::BadStatus("500 Internal Server Error".to_string())) {
        AttemptOutcome::Failed(e) => assert_eq!(e, "HTTP 500 Internal Server Error: a.action"),
        _ => panic!("expected a failure"),
    }
    let bad = obj(vec![("eaiCode", JsonValue::Str("E1".to_string()))]);
    assert!(matches!(classify_answer("a", "b", &Answer::Parsed(bad)), AttemptOutcome::Rejected(_)));
    assert!(matches!(classify_answer("a", "b", &Answer::Parsed(obj(vec![]))), AttemptOutcome::Succeeded));
}

#[test]
fn config_defaults() {
    let c = AppConfig::default();
    assert_eq!(c.proxy.url, "");
    assert_eq!(c.monitor.interval_secs, 30);
    assert_eq!(c.monitor.max_fail_count, 5);
    assert!(c.bark.urls.is_empty());
    assert!(!c.logging.persist_jsonl);
    assert!(c.web.enabled);
    assert_eq!(c.web.port, 32141);
}

#[test]
fn booleans_from_environment() {
    assert_eq!(parse_bool_env("X", " TRUE "), Ok(true));
    assert_eq!(parse_bool_env("X", "On"), Ok(true));
    assert_eq!(parse_bool_env("X", "0"), Ok(false));
    assert_eq!(parse_bool_env("X", "off"), Ok(false));
    assert_eq!(parse_bool_env("X", "maybe"), Err("invalid boolean for X: maybe".to_string()));
}

#[test]
fn numbers_from_environment() {
    assert_eq!(parse_env_number("N", " 42 ", u64::MAX), Ok(42));
    assert_eq!(parse_env_number("N", "+7", 100), Ok(7));
    assert_eq!(
        parse_env_number("N", "", 100),
        Err("invalid number for N:  (cannot parse integer from empty string)".to_string())
    );
    assert_eq!(
        parse_env_number("N", "12a", 100),
        Err("invalid number for N: 12a (invalid digit found in string)".to_string())
    );
    assert_eq!(
        parse_env_number("N", "70000", u16::MAX as u64),
        Err("invalid number for N: 70000 (number too large to fit in target type)".to_string())
    );
    assert_eq!(
        parse_env_number("N", "-1", 100),
        Err("invalid number for N: -1 (invalid digit found in string)".to_string())
    );
    assert_eq!(
        parse_env_number("N", "+", 100),
        Err("invalid number for N: + (invalid digit found in string)".to_string())
    );
}

#[test]
fn bark_urls_from_environment() {
    assert_eq!(
        parse_bark_urls(" https://a/1 ,, https://b/2,"),
        vec!["https://a/1".to_string(), "https://b/2".to_string()]
    );
    assert!(parse_bark_urls("").is_empty());
    assert_eq!(env_bark_urls_override(None), None);
    assert_eq!(env_bark_urls_override(Some("x".to_string())), Some(vec!["x".to_string()]));
}

fn no_env() -> EnvOverrides {
    EnvOverrides {
        proxy_url: None,
        interval_secs: None,
        max_fail_count: None,
        bark_urls: None,
        persist_jsonl: None,
        web_enabled: None,
        web_port: None,
    }
}

#[test]
fn environment_overrides_settings_in_order() {
    let mut c = AppConfig::default();
    let mut env = no_env();
    env.proxy_url = Some("http://proxy:8080".to_string());
    env.interval_secs = Some("60".to_string());
    env.web_port = Some("8080".to_string());
    env.persist_jsonl = Some("yes".to_string());
    assert_eq!(apply_env_overrides(&mut c, &env), Ok(()));
    assert_eq!(c.proxy.url, "http://proxy:8080");
    assert_eq!(c.monitor.interval_secs, 60);
    assert_eq!(c.web.port, 8080);
    assert!(c.logging.persist_jsonl);

    let mut c2 = AppConfig::default();
    let mut env2 = no_env();
    env2.proxy_url = Some("p".to_string());
    env2.max_fail_count = Some("lots".to_string());
    env2.web_port = Some("1".to_string());
    assert_eq!(
        apply_env_overrides(&mut c2, &env2),
        Err("invalid number for BOCHK_MONITOR_MAX_FAIL_COUNT: lots (invalid digit found in string)".to_string())
    );
    assert_eq!(c2.proxy.url, "p");
    assert_eq!(c2.web.port, 32141);
}

#[test]
fn history_page_is_at_least_one() {
    assert_eq!(requested_page(&HistoryQuery { page: None }), 1);
    assert_eq!(requested_page(&HistoryQuery { page: Some(0) }), 1);
    assert_eq!(requested_page(&HistoryQuery { page: Some(4) }), 4);
}

#[test]
fn drill_requests_use_date_first_mode() {
    let districts = DrillAction::FetchDistricts {
        api_date: "05/01/2024".to_string(),
        slot_id: "P1".to_string(),
        delay_ms: 300,
    };
    assert_eq!(
        service_request(&districts),
        Some((
            "jsonAvailableBrsByDT.action".to_string(),
            "bean.appDate=05/01/2024&bean.appTime=P1&bean.district=&bean.precondition=D".to_string()
        ))
    );
    let branches = DrillAction::FetchBranches {
        api_date: "05/01/2024".to_string(),
        slot_id: "P1".to_string(),
        district: "HK".to_string(),
    };
    let (action, body) = service_request(&branches).unwrap();
    assert_eq!(action, "jsonAvailableBrsByDT.action");
    assert_eq!(body, "bean.appDate=05/01/2024&bean.appTime=P1&bean.district=HK&bean.precondition=D");
    assert!(body.ends_with("&bean.precondition=D"));
    let slots = DrillAction::FetchTimeSlots { api_date: "05/01/2024".to_string() };
    assert_eq!(
        service_request(&slots),
        Some(("jsonAvailableDateAndTime.action".to_string(), "bean.appDate=05/01/2024".to_string()))
    );
    let (quota_action, _) = service_request(&DrillAction::FetchQuota).unwrap();
    assert_eq!(quota_action, "jsonAvailableDateAndTime.action");
    assert_eq!(service_request(&DrillAction::OpenSession), None);
    assert_eq!(service_request(&DrillAction::FetchBranchDetail { code: "012".to_string() }), None);
}

#[test]
fn branch_detail_target() {
    assert_eq!(
        branch_detail_url("012"),
        "https://transaction.bochk.com/whk/form/openAccount/jsonBranchDetail.action?bean.branchCode=012"
    );
}
