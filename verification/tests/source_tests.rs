use subscription_governor::double::Double;
use subscription_governor::json::{json_from_bytes, json_from_text, Json, JsonNumber};
use subscription_governor::model::{QuotaSnapshot, QuotaWindow};
use subscription_governor::source::{
    answer_codex, authorization, continue_codex, initialize_line, initialized_line,
    parse_anthropic_limit, parse_anthropic_usage, parse_anthropic_window, parse_codex_bucket,
    open_codex, parse_codex_rate_limits, parse_timestamp, plan_token, rate_limits_line, read_credentials,
    read_refresh, read_tokens, read_usage, read_usage_entry, receive_codex_line, refresh_body,
    user_agent, validate_snapshot, write_refreshed, CodexPhase, CodexStep, TokenStep, Tokens,
};
use subscription_governor::timestamp::Timestamp;

fn share(value: f64) -> Double {
    Double { bits: value.to_bits() }
}

fn observed() -> Timestamp {
    Timestamp::parse("2026-09-12T12:00:00Z").unwrap()
}

fn json(text: &str) -> Json {
    json_from_text(text).unwrap()
}

fn object(members: Vec<(&str, Json)>) -> Json {
    Json::Object(members.into_iter().map(|(name, value)| (name.to_string(), value)).collect())
}

fn number(value: u64) -> Json {
    Json::Number(JsonNumber::Unsigned(value))
}

fn text(value: &str) -> Json {
    Json::Text(value.to_string())
}

fn rate(used: u64, minutes: u64, resets_at: u64) -> Json {
    object(vec![
        ("usedPercent", number(used)),
        ("windowDurationMins", number(minutes)),
        ("resetsAt", number(resets_at)),
    ])
}

fn ids(snapshot: &QuotaSnapshot) -> Vec<&str> {
    snapshot.windows.iter().map(|window| window.id.as_str()).collect()
}

#[test]
fn parses_all_codex_limit_ids() {
    let result = object(vec![(
        "rateLimitsByLimitId",
        object(vec![
            (
                "codex",
                object(vec![
                    ("primary", rate(30, 300, 1800000000)),
                    ("secondary", rate(40, 10080, 1800100000)),
                ]),
            ),
            ("codex_other", object(vec![("primary", rate(10, 300, 1800000000))])),
        ]),
    )]);
    let snapshot = parse_codex_rate_limits(&result, observed()).unwrap();
    assert_eq!(snapshot.windows.len(), 3);
    assert!(snapshot
        .windows
        .iter()
        .any(|window| window.id == "codex.secondary"));
}

#[test]
fn parses_legacy_and_generic_anthropic_windows() {
    let payload = object(vec![
        (
            "five_hour",
            object(vec![("utilization", number(20)), ("resets_at", text("2026-09-12T14:00:00Z"))]),
        ),
        ("seven_day", Json::Null),
        (
            "limits",
            Json::List(vec![object(vec![
                ("kind", text("weekly_scoped")),
                ("percent", number(50)),
                ("resets_at", text("2026-09-15T00:00:00Z")),
            ])]),
        ),
    ]);
    let snapshot = parse_anthropic_usage(&payload, observed()).unwrap();
    assert_eq!(snapshot.windows.len(), 2);
    assert_eq!(snapshot.windows[0].used_fraction, share(0.2));
}

#[test]
fn a_rate_limit_window_carries_all_its_fields() {
    let result = json(
        "{\"rateLimitsByLimitId\": {\"codex\": {\"secondary\": {\"usedPercent\": 100, \
         \"windowDurationMins\": 10080, \"resetsAt\": 1800100000}}}}",
    );
    let snapshot = parse_codex_rate_limits(&result, observed()).unwrap();
    assert_eq!(snapshot.observed_at, observed());
    assert!(snapshot.fresh);
    let window = &snapshot.windows[0];
    assert_eq!(window.id, "codex.secondary");
    assert_eq!(window.used_fraction, share(1.0));
    assert_eq!(window.resets_at, Timestamp::new(1800100000, 0).unwrap());
    assert_eq!(window.duration_minutes, Some(10080));
    assert!(window.reached);
}

#[test]
fn the_single_bucket_is_a_fallback() {
    let bucket = "{\"primary\": {\"usedPercent\": 12.5, \"resetsAt\": 1800000000}}";
    let named = json(&format!(
        "{{\"rateLimits\": {{\"limitId\": \"x\", \"primary\": {{\"usedPercent\": 12.5, \
         \"resetsAt\": 1800000000}}}}}}"
    ));
    let snapshot = parse_codex_rate_limits(&named, observed()).unwrap();
    assert_eq!(ids(&snapshot), vec!["x.primary"]);
    assert_eq!(snapshot.windows[0].used_fraction, share(0.125));
    assert_eq!(snapshot.windows[0].duration_minutes, None);
    let unnamed = json(&format!("{{\"rateLimits\": {bucket}}}"));
    assert_eq!(
        ids(&parse_codex_rate_limits(&unnamed, observed()).unwrap()),
        vec!["default.primary"]
    );
    let both = json(&format!("{{\"rateLimits\": {bucket}, \"rateLimitsByLimitId\": {{}}}}"));
    assert_eq!(
        parse_codex_rate_limits(&both, observed()).unwrap_err().message(),
        "Codex rate-limit response contained no usable quota windows"
    );
}

#[test]
fn a_bucket_skips_what_is_no_window() {
    let mut output = Vec::new();
    let bucket = json(
        "{\"primary\": null, \"secondary\": {\"usedPercent\": \"7\", \"resetsAt\": 1800000000}}",
    );
    parse_codex_bucket("codex", &bucket, &mut output);
    assert!(output.is_empty());
    let late = json("{\"primary\": {\"usedPercent\": 7, \"resetsAt\": 9000000000000000}}");
    parse_codex_bucket("codex", &late, &mut output);
    assert!(output.is_empty());
    let negative = json("{\"primary\": {\"usedPercent\": -1, \"resetsAt\": -1}}");
    parse_codex_bucket("codex", &negative, &mut output);
    assert_eq!(output[0].used_fraction, share(-0.01));
    assert_eq!(output[0].resets_at, Timestamp::new(-1, 0).unwrap());
}

#[test]
fn a_generic_limit_supersedes_the_member_of_its_name() {
    let payload = json(
        "{\"weekly_scoped\": {\"utilization\": 10, \"resets_at\": \"2026-09-15T00:00:00Z\"}, \
          \"five_hour\": {\"utilization\": 5.5, \"resets_at\": \"2026-09-12T14:00:00Z\"}, \
          \"limits\": [\
            {\"kind\": \"weekly_scoped\", \"percent\": 50, \"resets_at\": \"2026-09-15T00:00:00Z\"}, \
            {\"kind\": \"weekly_scoped\", \"percent\": 60, \"resets_at\": \"2026-09-15T00:00:00Z\"}, \
            {\"kind\": \"weekly_scoped\", \"percent\": 70, \"is_active\": false, \
             \"resets_at\": \"2026-09-15T00:00:00Z\"}, \
            {\"kind\": \"a_new_one\", \"percent\": 100, \"resets_at\": \"2026-09-15T00:00:00Z\"}]}",
    );
    let snapshot = parse_anthropic_usage(&payload, observed()).unwrap();
    assert_eq!(ids(&snapshot), vec!["a_new_one", "five_hour", "weekly_scoped"]);
    assert_eq!(snapshot.windows[1].used_fraction, share(0.055));
    assert_eq!(snapshot.windows[2].used_fraction, share(0.6));
    assert!(snapshot.windows[0].reached);
    assert!(!snapshot.windows[2].reached);
}

#[test]
fn only_explicitly_inactive_entries_are_inactive() {
    let entry = |active: &str| {
        json(&format!(
            "{{\"utilization\": 20, \"percent\": 30, {active} \"resets_at\": \"2026-09-12T14:00:00Z\"}}"
        ))
    };
    assert!(parse_anthropic_window("w", &entry("")).is_some());
    assert!(parse_anthropic_window("w", &entry("\"is_active\": null,")).is_some());
    assert!(parse_anthropic_window("w", &entry("\"is_active\": true,")).is_some());
    assert!(parse_anthropic_window("w", &entry("\"is_active\": false,")).is_none());
    assert_eq!(parse_anthropic_limit("w", &entry("")).unwrap().used_fraction, share(0.3));
    assert!(parse_anthropic_limit("w", &entry("\"is_active\": false,")).is_none());
    assert!(parse_anthropic_window("w", &Json::Null).is_none());
    let at = Timestamp::new(5, 0);
    assert_eq!(read_usage_entry("w", &entry(""), "percent", at).unwrap().resets_at, at.unwrap());
    assert!(read_usage_entry("w", &entry(""), "percent", None).is_none());
}

#[test]
fn a_usage_response_without_windows_is_an_error() {
    let error = parse_anthropic_usage(&json("{\"five_hour\": null}"), observed()).unwrap_err();
    assert_eq!(error.message(), "Anthropic usage response contained no usable quota windows");
    let error = read_usage(&b"nothing".to_vec(), observed()).unwrap_err();
    assert_eq!(error.message(), "Anthropic usage endpoint returned invalid JSON");
    let bytes = b"{\"seven_day\": {\"utilization\": 1, \"resets_at\": \"2026-09-12T14:00:00Z\"}}";
    assert_eq!(ids(&read_usage(&bytes.to_vec(), observed()).unwrap()), vec!["seven_day"]);
}

#[test]
fn a_timestamp_is_read_in_any_zone() {
    let expected = Timestamp::new(1_789_214_400, 500_000_000).unwrap();
    assert_eq!(parse_timestamp("2026-09-12T12:00:00.5Z"), Some(expected));
    assert_eq!(parse_timestamp("2026-09-12T14:00:00.5+02:00"), Some(expected));
    assert_eq!(parse_timestamp("2026-09-12"), None);
}

fn snapshot_with(id: &str, used: Double) -> QuotaSnapshot {
    QuotaSnapshot {
        observed_at: observed(),
        fresh: true,
        windows: vec![QuotaWindow {
            id: id.into(),
            used_fraction: used,
            resets_at: observed(),
            duration_minutes: None,
            reached: false,
        }],
    }
}

#[test]
fn a_snapshot_is_checked() {
    let none = QuotaSnapshot { observed_at: observed(), fresh: true, windows: vec![] };
    assert_eq!(validate_snapshot(none).unwrap_err().message(), "quota snapshot has no windows");
    assert_eq!(
        validate_snapshot(snapshot_with("", share(0.5))).unwrap_err().message(),
        "quota snapshot has an empty window id"
    );
    for used in [-5e-324, 1.0000000000000002, f64::NAN, f64::INFINITY, f64::NEG_INFINITY] {
        assert_eq!(
            validate_snapshot(snapshot_with("w", share(used))).unwrap_err().message(),
            "quota window w used_fraction must be in [0, 1]"
        );
    }
    for used in [0.0, -0.0, 1e-300, 0.5, 1.0] {
        let snapshot = snapshot_with("w", share(used));
        assert_eq!(validate_snapshot(snapshot.clone()).unwrap(), snapshot);
    }
}

fn at_milliseconds(milliseconds: i64) -> Timestamp {
    Timestamp::new(milliseconds / 1000, (milliseconds % 1000 * 1_000_000) as u32).unwrap()
}

const CREDENTIALS: &str = "{\"claudeAiOauth\": {\"accessToken\": \"old\", \"refreshToken\": \"again\", \
     \"expiresAt\": 1000000000, \"scopes\": [\"a\"]}, \"other\": 1}";

#[test]
fn a_token_is_refreshed_within_five_minutes_of_its_expiry() {
    let credentials = json(CREDENTIALS);
    match plan_token(&credentials, at_milliseconds(999_699_999)).unwrap() {
        TokenStep::Use(token) => assert_eq!(token, "old"),
        other => panic!("{other:?}"),
    }
    match plan_token(&credentials, at_milliseconds(999_700_000)).unwrap() {
        TokenStep::Refresh(token) => assert_eq!(token, "again"),
        other => panic!("{other:?}"),
    }
}

#[test]
fn credentials_that_lack_a_member_are_an_error() {
    let refused = |text: &str, now: i64| {
        plan_token(&json(text), at_milliseconds(now)).unwrap_err().message()
    };
    assert_eq!(refused("{}", 0), "OAuth credentials are missing claudeAiOauth");
    assert_eq!(
        refused("{\"claudeAiOauth\": 3}", 0),
        "OAuth credentials are missing claudeAiOauth"
    );
    assert_eq!(refused("{\"claudeAiOauth\": {}}", 0), "OAuth credentials are missing expiresAt");
    let expiring = "{\"claudeAiOauth\": {\"expiresAt\": 1000000000, \"refreshToken\": \"\"}}";
    assert_eq!(refused(expiring, 0), "OAuth credentials are missing accessToken");
    assert_eq!(refused(expiring, 1_000_000_000), "OAuth credentials are missing refreshToken");
    assert_eq!(
        read_credentials(&b"{".to_vec()).unwrap_err().message(),
        "failed to parse OAuth credentials"
    );
    assert_eq!(read_credentials(&CREDENTIALS.as_bytes().to_vec()).unwrap(), json(CREDENTIALS));
}

#[test]
fn a_refresh_replaces_the_tokens_and_nothing_else() {
    let reply = b"{\"accessToken\": \"new\", \"refreshToken\": \"next\", \"expiresAt\": 2000000000, \
                  \"ignored\": true}";
    let done = read_refresh(&CREDENTIALS.as_bytes().to_vec(), &reply.to_vec()).unwrap();
    assert_eq!(done.access_token, "new");
    assert_eq!(
        done.text,
        "{\n  \"claudeAiOauth\": {\n    \"accessToken\": \"new\",\n    \"expiresAt\": 2000000000,\n    \
         \"refreshToken\": \"next\",\n    \"scopes\": [\n      \"a\"\n    ]\n  },\n  \"other\": 1\n}\n"
    );
}

#[test]
fn a_refresh_adds_what_was_not_there() {
    let tokens = Tokens { access: "a".into(), refresh: "b".into(), expires_at: -5 };
    let text = write_refreshed(&b"{\"claudeAiOauth\": {\"x\": 0.1}}".to_vec(), &tokens).unwrap();
    assert_eq!(
        json(&text),
        json(
            "{\"claudeAiOauth\": {\"x\": 0.1, \"accessToken\": \"a\", \"refreshToken\": \"b\", \
             \"expiresAt\": -5}}"
        )
    );
    let refused = |credentials: &str| {
        write_refreshed(&credentials.as_bytes().to_vec(), &tokens).unwrap_err().message()
    };
    assert_eq!(refused("?"), "failed to parse OAuth credentials");
    assert_eq!(refused("[]"), "OAuth credentials are missing claudeAiOauth");
    assert_eq!(refused("{}"), "OAuth credentials are missing claudeAiOauth");
    assert_eq!(refused("{\"claudeAiOauth\": []}"), "OAuth credentials are missing claudeAiOauth");
}

#[test]
fn a_refresh_that_omits_a_member_is_an_error() {
    let refused = |reply: &str| read_tokens(&json(reply)).unwrap_err().message();
    assert_eq!(refused("{}"), "Anthropic token refresh omitted accessToken");
    assert_eq!(
        refused("{\"accessToken\": \"a\"}"),
        "Anthropic token refresh omitted refreshToken"
    );
    assert_eq!(
        refused("{\"accessToken\": \"a\", \"refreshToken\": \"b\", \"expiresAt\": 1.5}"),
        "Anthropic token refresh omitted expiresAt"
    );
    let credentials = CREDENTIALS.as_bytes().to_vec();
    assert_eq!(
        read_refresh(&credentials, &b"".to_vec()).unwrap_err().message(),
        "Anthropic token refresh returned invalid JSON"
    );
    assert_eq!(
        read_refresh(&credentials, &b"{}".to_vec()).unwrap_err().message(),
        "Anthropic token refresh omitted accessToken"
    );
}

#[test]
fn requests_are_written_as_agreed() {
    assert_eq!(
        refresh_body("a\"b"),
        "{\"grantType\":\"refresh_token\",\"refreshToken\":\"a\\\"b\"}"
    );
    assert_eq!(authorization("t"), "Bearer t");
    assert_eq!(user_agent("product"), "product-code/2.1.114");
    let line = json(initialize_line());
    assert_eq!(line.get("id"), Some(&number(1)));
    assert_eq!(line.get("method"), Some(&text("initialize")));
    let client = line.get("params").unwrap().get("clientInfo").unwrap();
    assert_eq!(client.get("name"), Some(&text("subscription-governor")));
    assert_eq!(client.get("version"), Some(&text("0.1.0")));
    assert_eq!(json(initialized_line()), json("{\"method\": \"initialized\", \"params\": {}}"));
    assert_eq!(json(rate_limits_line()), json("{\"id\": 2, \"method\": \"account/rateLimits/read\"}"));
}

#[test]
fn the_conversation_waits_for_its_answers() {
    let step = |phase, line: &str| receive_codex_line(phase, line, observed());
    assert!(matches!(step(CodexPhase::Initializing, "hello"), CodexStep::Ignore));
    assert!(matches!(step(CodexPhase::Initializing, "{\"id\": 2}"), CodexStep::Ignore));
    assert!(matches!(step(CodexPhase::Initializing, "{\"method\": \"x\"}"), CodexStep::Ignore));
    assert!(matches!(step(CodexPhase::Initializing, "{\"id\": 1}"), CodexStep::Request));
    assert!(matches!(step(CodexPhase::Reading, "{\"id\": 1, \"result\": {}}"), CodexStep::Ignore));
    match step(
        CodexPhase::Reading,
        "{\"id\": 2, \"result\": {\"rateLimits\": {\"primary\": {\"usedPercent\": 3, \"resetsAt\": 9}}}}",
    ) {
        CodexStep::Finish(snapshot) => assert_eq!(ids(&snapshot), vec!["default.primary"]),
        other => panic!("{other:?}"),
    }
}

#[test]
fn the_conversation_fails_with_the_server_s_words() {
    let failure = |phase, line: &str| match receive_codex_line(phase, line, observed()) {
        CodexStep::Fail(error) => error.message(),
        other => panic!("{other:?}"),
    };
    assert_eq!(
        failure(CodexPhase::Initializing, "{\"id\": 1, \"error\": {\"code\": -1,  \"a\": [1.5]}}"),
        "Codex app-server rejected initialization: {\"a\":[1.5],\"code\":-1}"
    );
    assert_eq!(
        failure(CodexPhase::Initializing, "{\"id\": 1, \"error\": null}"),
        "Codex app-server rejected initialization: null"
    );
    assert_eq!(
        failure(CodexPhase::Reading, "{\"id\": 2, \"error\": \"no\"}"),
        "Codex app-server rejected the rate-limit request: \"no\""
    );
    assert_eq!(
        failure(CodexPhase::Reading, "{\"id\": 2}"),
        "Codex rate-limit response omitted result"
    );
    assert_eq!(
        failure(CodexPhase::Reading, "{\"id\": 2, \"result\": {}}"),
        "Codex rate-limit response contained no usable quota windows"
    );
    match answer_codex(CodexPhase::Reading, &json("{\"id\": 2, \"error\": 1}"), "1", observed()) {
        CodexStep::Fail(error) => {
            assert_eq!(error.message(), "Codex app-server rejected the rate-limit request: 1")
        }
        other => panic!("{other:?}"),
    }
}

#[test]
fn json_is_read_in_full() {
    let value = json_from_bytes(
        &b"[null, true, 18446744073709551615, -9223372036854775808, 0.5, \"t\", {\"b\": 1, \"a\": 2}]"
            .to_vec(),
    )
    .unwrap();
    assert_eq!(
        value,
        Json::List(vec![
            Json::Null,
            Json::Bool(true),
            number(u64::MAX),
            Json::Number(JsonNumber::Negative(i64::MIN)),
            Json::Number(JsonNumber::Float(0.5f64.to_bits())),
            text("t"),
            object(vec![("a", number(2)), ("b", number(1))]),
        ])
    );
    assert!(json_from_bytes(&b"[1,]".to_vec()).is_none());
    assert!(json_from_text("").is_none());
}

#[test]
fn json_numbers_fit_or_not() {
    assert_eq!(number(u64::MAX).as_i64(), None);
    assert_eq!(number(i64::MAX as u64).as_i64(), Some(i64::MAX));
    assert_eq!(Json::Number(JsonNumber::Negative(-3)).as_i64(), Some(-3));
    assert_eq!(Json::Number(JsonNumber::Negative(-3)).as_u64(), None);
    assert_eq!(json("2.0").as_i64(), None);
    assert_eq!(text("3").as_u64(), None);
}

#[test]
fn the_conversation_has_its_order() {
    let opened = open_codex();
    assert_eq!(opened.lines, vec![initialize_line()]);
    assert_eq!(opened.phase, Some(CodexPhase::Initializing));
    let asked = continue_codex(CodexPhase::Initializing, &CodexStep::Request);
    assert_eq!(asked.lines, vec![initialized_line(), rate_limits_line()]);
    assert_eq!(asked.phase, Some(CodexPhase::Reading));
    for phase in [CodexPhase::Initializing, CodexPhase::Reading] {
        let waiting = continue_codex(phase, &CodexStep::Ignore);
        assert_eq!((waiting.lines.len(), waiting.phase), (0, Some(phase)));
        let step = receive_codex_line(
            phase,
            "{\"id\": 1, \"error\": 1, \"method\": 2}",
            observed(),
        );
        let next = continue_codex(phase, &step);
        assert_eq!(next.lines.len(), 0);
        assert_eq!(next.phase, if phase == CodexPhase::Reading { Some(phase) } else { None });
    }
}

#[test]
fn the_same_usage_shows_the_same_windows() {
    let one = json(
        "{\"five_hour\": {\"utilization\": 5, \"resets_at\": \"2026-09-12T14:00:00Z\"}, \
          \"seven_day\": {\"utilization\": 6, \"resets_at\": \"2026-09-15T00:00:00Z\"}}",
    );
    let bytes = b"{\"seven_day\": {\"resets_at\": \"2026-09-15T00:00:00Z\", \"utilization\": 6}, \
                   \"five_hour\": {\"resets_at\": \"2026-09-12T14:00:00Z\", \"utilization\": 5}}";
    assert_eq!(
        parse_anthropic_usage(&one, observed()).unwrap(),
        read_usage(&bytes.to_vec(), observed()).unwrap()
    );
}
