use jirapush::engine::{
    log_level_from_config, normalize_candidate, pending_logs, required_config_present,
    skip_existing_of, timezone_of, upload_tag_of, CandidateError, LogLevel,
};
use jirapush::instant::{parse_compact, parse_remote_started};
use jirapush::issue::{extract_issue, match_tag};
use jirapush::jira::{find_duplicate, upload_payload, worklogs_from_fetch, JiraWorklog};
use jirapush::timewarrior::{parse_tw_input, ParseError, TimeWarriorLog};

fn make_log(id: usize, start: &str, end: Option<&str>, tags: &[&str]) -> TimeWarriorLog {
    TimeWarriorLog {
        id,
        start: start.to_string(),
        end: end.map(|e| e.to_string()),
        tags: tags.iter().map(|t| t.to_string()).collect(),
    }
}

#[test]
fn scenario_single_upload() {
    let input = "twjp.skip_existing: false\ntwjp.token: secret\ntwjp.url: https://x\ntwjp.user: u\n\n[{\"start\":\"20210101T000000Z\",\"end\":\"20210102T000000Z\",\"tags\":[\"https://x/browse/ISSUE-2\"]}]\n";
    let (conf, logs) = parse_tw_input(input).unwrap();
    assert!(required_config_present(&conf));
    assert!(!skip_existing_of(&conf));
    let tz = timezone_of(&conf);
    assert_eq!(tz.as_str(), "+0000");
    let tag = upload_tag_of(&conf);
    assert_eq!(tag.as_str(), "jira-uploaded");
    let pending = pending_logs(&logs, tag.as_str());
    assert_eq!(pending.len(), 1);
    assert_eq!(pending[0].0.as_str(), "ISSUE-2");
    let cand = normalize_candidate(&pending[0].1, tz.as_str()).unwrap();
    assert_eq!(cand.start_repr.as_str(), "2021-01-01T00:00:00.000+0000");
    assert_eq!(cand.duration, 86400);
    let body = upload_payload(&JiraWorklog {
        started: cand.start_repr.clone(),
        time_spent_seconds: cand.duration,
    })
    .unwrap();
    assert_eq!(
        body.as_str(),
        "{\"started\":\"2021-01-01T00:00:00.000+0000\",\"timeSpentSeconds\":86400}"
    );
}

#[test]
fn scenario_duplicate_detected() {
    let log = make_log(
        1,
        "20210101T000000Z",
        Some("20210102T000000Z"),
        &["https://x/browse/ISSUE-2"],
    );
    let cand = normalize_candidate(&log, "+0000").unwrap();
    let body =
        "{\"worklogs\":[{\"started\":\"2021-01-01T00:00:00.123+0000\",\"timeSpentSeconds\":99}]}";
    let records = worklogs_from_fetch(&Some(body.to_string()));
    assert_eq!(records.len(), 1);
    assert_eq!(records[0].time_spent_seconds, 99);
    // The record differs only in milliseconds, so it counts as the same
    // instant and the candidate is a duplicate: no upload, mark as done.
    assert_eq!(find_duplicate(&records, cand.start_instant), Some(true));
}

#[test]
fn scenario_plain_tag_excluded() {
    let log = make_log(1, "20210101T000000Z", Some("20210102T000000Z"), &["ISSUE"]);
    assert_eq!(extract_issue(&log.tags), None);
    let pending = pending_logs(&vec![log], "jira-uploaded");
    assert!(pending.is_empty());
}

#[test]
fn scenario_missing_required_config() {
    let input = "twjp.token: secret\ntwjp.user: u\n\n[]\n";
    let (conf, _) = parse_tw_input(input).unwrap();
    assert!(!required_config_present(&conf));
}

#[test]
fn completeness_filter_skips_open_intervals() {
    let open_interval = make_log(1, "20210101T000000Z", None, &["https://x/browse/ISSUE-9"]);
    let pending = pending_logs(&vec![open_interval], "jira-uploaded");
    assert!(pending.is_empty());
}

#[test]
fn marker_exclusion_skips_marked_intervals() {
    let marked = make_log(
        1,
        "20210101T000000Z",
        Some("20210101T010000Z"),
        &["https://x/browse/ISSUE-9", "jira-uploaded"],
    );
    let pending = pending_logs(&vec![marked], "jira-uploaded");
    assert!(pending.is_empty());
    let custom = pending_logs(&vec![make_log(
        1,
        "20210101T000000Z",
        Some("20210101T010000Z"),
        &["https://x/browse/ISSUE-9", "done-tag"],
    )], "done-tag");
    assert!(custom.is_empty());
}

#[test]
fn duration_clamp_boundaries() {
    for (secs, expect) in [(0i64, 60i64), (59, 60), (60, 60), (61, 61), (86400, 86400)] {
        let body = upload_payload(&JiraWorklog {
            started: "2021-01-01T00:00:00.000+0000".to_string(),
            time_spent_seconds: secs,
        })
        .unwrap();
        let want = format!(
            "{}\"timeSpentSeconds\":{}{}",
            "{\"started\":\"2021-01-01T00:00:00.000+0000\",", expect, "}"
        );
        assert_eq!(body.as_str(), want.as_str());
    }
}

#[test]
fn id_inference_oldest_gets_one() {
    let input = "temp.version: 1.2.0\n\n[\n{\"start\":\"20210103T000000Z\",\"tags\":[]},\n{\"start\":\"20210102T000000Z\",\"tags\":[]},\n{\"start\":\"20210101T000000Z\",\"tags\":[]}\n]\n";
    let (_, logs) = parse_tw_input(input).unwrap();
    // Wire order is most-recent-first; the oldest (last) interval gets 1.
    assert_eq!(logs.len(), 3);
    assert_eq!(logs[0].id, 3);
    assert_eq!(logs[1].id, 2);
    assert_eq!(logs[2].id, 1);
}

#[test]
fn id_inference_new_version_drops_idless_records() {
    let input = "temp.version: 1.3.0\n\n[\n{\"id\":7,\"start\":\"20210103T000000Z\",\"tags\":[]},\n{\"start\":\"20210102T000000Z\",\"tags\":[]}\n]\n";
    let (_, logs) = parse_tw_input(input).unwrap();
    assert_eq!(logs.len(), 1);
    assert_eq!(logs[0].id, 7);
}

#[test]
fn duplicate_equality_millis_and_seconds() {
    let a = parse_remote_started("2021-01-01T00:00:00.123+0000").unwrap();
    let b = parse_remote_started("2021-01-01T00:00:00.999+0000").unwrap();
    let c = parse_remote_started("2021-01-01T00:00:01.123+0000").unwrap();
    assert_eq!(a, b);
    assert_eq!(c - a, 1);
}

#[test]
fn candidate_errors() {
    let no_end = make_log(1, "20210101T000000Z", None, &[]);
    assert_eq!(
        normalize_candidate(&no_end, "+0000").unwrap_err(),
        CandidateError::Incomplete
    );
    let bad_start = make_log(1, "2021-01-01", Some("20210102T000000Z"), &[]);
    assert_eq!(
        normalize_candidate(&bad_start, "+0000").unwrap_err(),
        CandidateError::Timestamp
    );
    let bad_day = make_log(1, "20230229T000000Z", Some("20230301T000000Z"), &[]);
    assert_eq!(
        normalize_candidate(&bad_day, "+0000").unwrap_err(),
        CandidateError::Timestamp
    );
    let backwards = make_log(1, "20210102T000000Z", Some("20210101T000000Z"), &[]);
    assert_eq!(
        normalize_candidate(&backwards, "+0000").unwrap_err(),
        CandidateError::NegativeDuration
    );
    let bad_tz = make_log(1, "20210101T000000Z", Some("20210102T000000Z"), &[]);
    assert_eq!(
        normalize_candidate(&bad_tz, "UTC").unwrap_err(),
        CandidateError::Timestamp
    );
}

#[test]
fn leap_year_and_offsets() {
    let leap = make_log(1, "20240229T120000Z", Some("20240301T000000Z"), &[]);
    let cand = normalize_candidate(&leap, "+0000").unwrap();
    assert_eq!(cand.duration, 12 * 3600);
    let base = parse_compact("20210101T000000Z", "+0000").unwrap();
    let east = parse_compact("20210101T000000Z", "+0530").unwrap();
    let west = parse_compact("20210101T000000Z", "-0800").unwrap();
    assert_eq!(base - east, 19800);
    assert_eq!(west - base, 28800);
    assert_eq!(base, 1609459200);
}

#[test]
fn second_run_sees_own_upload_as_duplicate() {
    let log = make_log(
        1,
        "20210101T000000Z",
        Some("20210102T000000Z"),
        &["https://x/browse/ISSUE-2"],
    );
    let cand = normalize_candidate(&log, "+0000").unwrap();
    // The record a first run uploads comes back in the next listing with
    // the very start representation the engine built.
    let records = vec![JiraWorklog {
        started: cand.start_repr.clone(),
        time_spent_seconds: 86400,
    }];
    assert_eq!(find_duplicate(&records, cand.start_instant), Some(true));
}

#[test]
fn malformed_listing_record_stops_scan() {
    let records = vec![
        JiraWorklog {
            started: "not a timestamp".to_string(),
            time_spent_seconds: 60,
        },
        JiraWorklog {
            started: "2021-01-01T00:00:00.000+0000".to_string(),
            time_spent_seconds: 60,
        },
    ];
    assert_eq!(find_duplicate(&records, 1609459200), None);
}

#[test]
fn fetch_failure_degrades_to_no_records() {
    assert!(worklogs_from_fetch(&None).is_empty());
    assert!(worklogs_from_fetch(&Some("{not json".to_string())).is_empty());
    let extra =
        "{\"other\":[1.5,true,null,{\"x\":\"y\"}],\"worklogs\":[],\"more\":\"z\"}";
    assert!(worklogs_from_fetch(&Some(extra.to_string())).is_empty());
}

#[test]
fn parse_error_variants() {
    assert_eq!(
        parse_tw_input("a: b\n\nnot json\n").unwrap_err(),
        ParseError::MalformedPayload
    );
    assert_eq!(
        parse_tw_input("a: b\n").unwrap_err(),
        ParseError::MalformedPayload
    );
    let bad_version =
        "temp.version: not.a.version\n\n[{\"start\":\"20210101T000000Z\",\"tags\":[]}]\n";
    assert_eq!(parse_tw_input(bad_version).unwrap_err(), ParseError::BadVersion);
}

#[test]
fn log_level_resolution() {
    let level = |input: &str| {
        let (conf, _) = parse_tw_input(input).unwrap();
        log_level_from_config(&conf)
    };
    assert_eq!(level("a: b\n\n[]\n"), LogLevel::Error);
    assert_eq!(level("verbose: on\n\n[]\n"), LogLevel::Warn);
    assert_eq!(level("debug: yes\n\n[]\n"), LogLevel::Debug);
    assert_eq!(level("verbose: off\n\n[]\n"), LogLevel::Error);
    assert_eq!(level("twjp.log_level: TRACE\n\n[]\n"), LogLevel::Trace);
    assert_eq!(
        level("verbose: on\ntwjp.log_level: nonsense\n\n[]\n"),
        LogLevel::Warn
    );
}

#[test]
fn issue_extraction_conventions() {
    // The first qualifying tag wins, and the capture runs to the end.
    let cap = match_tag("(bw)Is#2 - Example 2 .. https://myjira.atlassian.net/browse/ISSUE-2");
    assert_eq!(cap.unwrap().as_str(), "ISSUE-2");
    assert_eq!(match_tag("http://x/browse/AB-1").unwrap().as_str(), "AB-1");
    assert_eq!(match_tag("browse/AB-1"), None);
    assert_eq!(match_tag("https://x/browse/"), None);
    // The last `browse/` is the one captured.
    assert_eq!(
        match_tag("https://a/browse/b/browse/C-3").unwrap().as_str(),
        "C-3"
    );
    let tags: Vec<String> = vec![
        "no url here".to_string(),
        "https://x/browse/FIRST-1".to_string(),
        "https://x/browse/SECOND-2".to_string(),
    ];
    assert_eq!(extract_issue(&tags).unwrap().as_str(), "FIRST-1");
}

#[test]
fn payload_escapes_and_unknown_fields() {
    let input = "a: b\n\n[{\"start\":\"20210101T000000Z\",\"id\":4,\"extra\":{\"深\":[1.5,true,null]},\"tags\":[\"\\u0041B\\n\",\"\\uD83D\\uDE00\"]}]\n";
    let (_, logs) = parse_tw_input(input).unwrap();
    assert_eq!(logs.len(), 1);
    assert_eq!(logs[0].id, 4);
    assert_eq!(logs[0].tags[0], "AB\n");
    assert_eq!(logs[0].tags[1], "\u{1F600}");
}
