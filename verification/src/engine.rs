//! The reconciliation engine: the settings read once from configuration,
//! the pending-set selector, candidate normalization, and the run model —
//! which uploads a run performs against a given remote state — together
//! with the laws that hold of it.

use vstd::prelude::*;
use vstd::string::*;

use crate::config::{conf_get, TwConfig};
use crate::instant::{
    compact_instant, parse_compact, format_started, spec_remote_instant, started_repr,
    valid_compact, valid_offset,
};
use crate::issue::{extract_issue, spec_extract_issue};
use crate::jira::{clamped, dup_check, JiraConnection, WorklogView};
use crate::strutil::{str_eq, views};
use crate::timewarrior::{log_views, LogView, TimeWarriorLog};

verus! {

/// The log levels the tool recognizes, from silent to most verbose.
#[derive(PartialEq, Eq, Structural, Clone, Copy, Debug)]
pub enum LogLevel {
    Off,
    Error,
    Warn,
    Info,
    Debug,
    Trace,
}

/// A configuration value that switches a guideline flag on.
pub open spec fn truthy(v: Seq<char>) -> bool {
    v == "on"@ || v == "1"@ || v == "yes"@ || v == "y"@ || v == "true"@
}

pub open spec fn lower_char(c: char) -> char {
    if 65 <= c as u32 <= 90 {
        ((c as u32 + 32) as u32) as char
    } else {
        c
    }
}

/// ASCII case-insensitive equality, as level names are compared.
pub open spec fn ascii_ieq(a: Seq<char>, b: Seq<char>) -> bool {
    a.len() == b.len() && forall|i: int|
        0 <= i < a.len() ==> lower_char(#[trigger] a[i]) == lower_char(b[i])
}

/// The level a name denotes, compared without regard to ASCII case.
pub open spec fn level_of_name(v: Seq<char>) -> Option<LogLevel> {
    if ascii_ieq(v, "off"@) {
        Some(LogLevel::Off)
    } else if ascii_ieq(v, "error"@) {
        Some(LogLevel::Error)
    } else if ascii_ieq(v, "warn"@) {
        Some(LogLevel::Warn)
    } else if ascii_ieq(v, "info"@) {
        Some(LogLevel::Info)
    } else if ascii_ieq(v, "debug"@) {
        Some(LogLevel::Debug)
    } else if ascii_ieq(v, "trace"@) {
        Some(LogLevel::Trace)
    } else {
        None
    }
}

/// The level a run logs at: errors only, raised to warnings by a truthy
/// `verbose`, to debug by a truthy `debug`, and overridden by a
/// recognizable `twjp.log_level` name.
pub open spec fn spec_log_level(conf: Seq<(Seq<char>, Seq<char>)>) -> LogLevel {
    let base = if conf_get(conf, "debug"@) matches Some(v) && truthy(v) {
        LogLevel::Debug
    } else if conf_get(conf, "verbose"@) matches Some(v) && truthy(v) {
        LogLevel::Warn
    } else {
        LogLevel::Error
    };
    match conf_get(conf, "twjp.log_level"@) {
        Some(v) => match level_of_name(v) {
            Some(l) => l,
            None => base,
        },
        None => base,
    }
}

/// The completion-marker tag name, `jira-uploaded` unless configured.
pub open spec fn spec_upload_tag(conf: Seq<(Seq<char>, Seq<char>)>) -> Seq<char> {
    match conf_get(conf, "twjp.uploaded_tag"@) {
        Some(v) => v,
        None => "jira-uploaded"@,
    }
}

/// The configured timezone offset, `+0000` unless configured.
pub open spec fn spec_timezone(conf: Seq<(Seq<char>, Seq<char>)>) -> Seq<char> {
    match conf_get(conf, "twjp.timezone"@) {
        Some(v) => v,
        None => "+0000"@,
    }
}

/// Whether existing remote records are checked before an upload: on
/// unless `twjp.skip_existing` is exactly `false`.
pub open spec fn spec_skip_existing(conf: Seq<(Seq<char>, Seq<char>)>) -> bool {
    match conf_get(conf, "twjp.skip_existing"@) {
        Some(v) => v != "false"@,
        None => true,
    }
}

/// Whether the three required connection keys are all present.
pub open spec fn spec_required_config(conf: Seq<(Seq<char>, Seq<char>)>) -> bool {
    &&& conf_get(conf, "twjp.url"@) is Some
    &&& conf_get(conf, "twjp.user"@) is Some
    &&& conf_get(conf, "twjp.token"@) is Some
}

fn lower(c: char) -> (r: char)
    ensures
        r == lower_char(c),
{
    let u = c as u32;
    if 65 <= u && u <= 90 {
        match char::from_u32(u + 32) {
            Some(l) => l,
            None => {
                proof {
                    assert(false);
                }
                c
            },
        }
    } else {
        c
    }
}

fn str_ieq(a: &str, b: &str) -> (r: bool)
    ensures
        r == ascii_ieq(a@, b@),
{
    let an = a.unicode_len();
    let bn = b.unicode_len();
    if an != bn {
        return false;
    }
    let mut i: usize = 0;
    while i < an
        invariant
            an == a@.len(),
            an == b@.len(),
            0 <= i <= an,
            forall|k: int| 0 <= k < i ==> lower_char(#[trigger] a@[k]) == lower_char(b@[k]),
        decreases an - i,
    {
        if lower(a.get_char(i)) != lower(b.get_char(i)) {
            return false;
        }
        i = i + 1;
    }
    true
}

/// Checks that the required connection configuration is present.
pub fn required_config_present(conf: &TwConfig) -> (r: bool)
    ensures
        r == spec_required_config(conf.spec_pairs()),
{
    conf.contains_key("twjp.url") && conf.contains_key("twjp.user") && conf.contains_key(
        "twjp.token",
    )
}

fn truthy_value(v: &str) -> (r: bool)
    ensures
        r == truthy(v@),
{
    str_eq(v, "on") || str_eq(v, "1") || str_eq(v, "yes") || str_eq(v, "y") || str_eq(v, "true")
}

/// Resolves the log level from configuration, once, at startup.
pub fn log_level_from_config(conf: &TwConfig) -> (r: LogLevel)
    ensures
        r == spec_log_level(conf.spec_pairs()),
{
    let mut level = LogLevel::Error;
    match conf.get("verbose") {
        Some(v) => {
            if truthy_value(v.as_str()) {
                level = LogLevel::Warn;
            }
        },
        None => {},
    }
    match conf.get("debug") {
        Some(v) => {
            if truthy_value(v.as_str()) {
                level = LogLevel::Debug;
            }
        },
        None => {},
    }
    match conf.get("twjp.log_level") {
        Some(v) => {
            let name = v.as_str();
            if str_ieq(name, "off") {
                level = LogLevel::Off;
            } else if str_ieq(name, "error") {
                level = LogLevel::Error;
            } else if str_ieq(name, "warn") {
                level = LogLevel::Warn;
            } else if str_ieq(name, "info") {
                level = LogLevel::Info;
            } else if str_ieq(name, "debug") {
                level = LogLevel::Debug;
            } else if str_ieq(name, "trace") {
                level = LogLevel::Trace;
            }
        },
        None => {},
    }
    level
}

/// The completion-marker tag name to use for this run.
pub fn upload_tag_of(conf: &TwConfig) -> (r: String)
    ensures
        r@ == spec_upload_tag(conf.spec_pairs()),
{
    match conf.get("twjp.uploaded_tag") {
        Some(v) => v.clone(),
        None => String::from_str("jira-uploaded"),
    }
}

/// The timezone offset string to use for this run.
pub fn timezone_of(conf: &TwConfig) -> (r: String)
    ensures
        r@ == spec_timezone(conf.spec_pairs()),
{
    match conf.get("twjp.timezone") {
        Some(v) => v.clone(),
        None => String::from_str("+0000"),
    }
}

/// Whether this run checks existing remote records before uploading.
pub fn skip_existing_of(conf: &TwConfig) -> (r: bool)
    ensures
        r == spec_skip_existing(conf.spec_pairs()),
{
    match conf.get("twjp.skip_existing") {
        Some(v) => !str_eq(v.as_str(), "false"),
        None => true,
    }
}

/// Builds the connection data from the required configuration keys.
pub fn connection_of(conf: &TwConfig) -> (r: Option<JiraConnection>)
    ensures
        (r is Some) <==> spec_required_config(conf.spec_pairs()),
        r matches Some(c) ==> {
            &&& conf.spec_get("twjp.url"@) == Some(c.instance_url@)
            &&& conf.spec_get("twjp.user"@) == Some(c.user@)
            &&& conf.spec_get("twjp.token"@) == Some(c.token@)
            &&& !c.is_pat
        },
{
    let url = match conf.get("twjp.url") {
        Some(v) => v.clone(),
        None => {
            return None;
        },
    };
    let user = match conf.get("twjp.user") {
        Some(v) => v.clone(),
        None => {
            return None;
        },
    };
    let token = match conf.get("twjp.token") {
        Some(v) => v.clone(),
        None => {
            return None;
        },
    };
    Some(JiraConnection { user, token, is_pat: false, instance_url: url })
}

/// Whether the tag list carries the given tag.
pub open spec fn has_tag(tags: Seq<Seq<char>>, tag: Seq<char>) -> bool {
    exists|i: int| 0 <= i < tags.len() && tags[i] == tag
}

pub fn tags_contain(tags: &Vec<String>, tag: &str) -> (r: bool)
    ensures
        r == has_tag(views(tags@), tag@),
{
    let ghost tvs = views(tags@);
    let n = tags.len();
    let mut i: usize = 0;
    while i < n
        invariant
            n == tags@.len(),
            tvs == views(tags@),
            0 <= i <= n,
            forall|k: int| 0 <= k < i ==> tvs[k] != tag@,
        decreases n - i,
    {
        proof {
            assert(tags@[i as int]@ == tvs[i as int]);
        }
        if str_eq(tags[i].as_str(), tag) {
            assert(has_tag(tvs, tag@));
            return true;
        }
        i = i + 1;
    }
    false
}

/// The pending pairs selected from the interval records, in input order:
/// an interval qualifies when it does not carry the completion-marker
/// tag, has an end, and one of its tags references an issue.
pub open spec fn spec_pending(logs: Seq<LogView>, tag: Seq<char>) -> Seq<(Seq<char>, LogView)>
    decreases logs.len(),
{
    if logs.len() == 0 {
        Seq::empty()
    } else {
        let l = logs[0];
        let rest = spec_pending(logs.drop_first(), tag);
        if !has_tag(l.tags, tag) && l.end is Some {
            match spec_extract_issue(l.tags) {
                Some(iss) => seq![(iss, l)] + rest,
                None => rest,
            }
        } else {
            rest
        }
    }
}

/// The views of a vector of pending pairs.
pub open spec fn pair_views(v: Seq<(String, TimeWarriorLog)>) -> Seq<(Seq<char>, LogView)> {
    v.map_values(|p: (String, TimeWarriorLog)| (p.0@, p.1@))
}

fn duplicate_log(l: &TimeWarriorLog) -> (r: TimeWarriorLog)
    ensures
        r@ == l@,
{
    let end = match &l.end {
        Some(e) => Some(e.clone()),
        None => None,
    };
    let mut tags: Vec<String> = Vec::new();
    let n = l.tags.len();
    let mut i: usize = 0;
    while i < n
        invariant
            n == l.tags@.len(),
            0 <= i <= n,
            tags@ == l.tags@.take(i as int),
        decreases n - i,
    {
        tags.push(l.tags[i].clone());
        proof {
            assert(tags@ =~= l.tags@.take(i as int + 1));
        }
        i = i + 1;
    }
    proof {
        assert(l.tags@.take(n as int) =~= l.tags@);
    }
    let r = TimeWarriorLog { id: l.id, start: l.start.clone(), end, tags };
    proof {
        assert(r@ =~~= l@);
    }
    r
}

fn pending_rec(logs: &Vec<TimeWarriorLog>, i: usize, tag: &str) -> (r: Vec<(String, TimeWarriorLog)>)
    requires
        i <= logs@.len(),
    ensures
        pair_views(r@) == spec_pending(log_views(logs@).skip(i as int), tag@),
    decreases logs@.len() - i,
{
    let n = logs.len();
    let ghost lvs = log_views(logs@);
    if i >= n {
        let r: Vec<(String, TimeWarriorLog)> = Vec::new();
        proof {
            assert(lvs.skip(i as int) =~= Seq::<LogView>::empty());
            assert(pair_views(r@) =~= spec_pending(lvs.skip(i as int), tag@));
        }
        return r;
    }
    proof {
        assert(logs@[i as int]@ == lvs[i as int]);
        assert(lvs.skip(i as int)[0] == lvs[i as int]);
        assert(lvs.skip(i as int).drop_first() =~= lvs.skip(i as int + 1));
    }
    let rest = pending_rec(logs, i + 1, tag);
    let l = &logs[i];
    if !tags_contain(&l.tags, tag) && l.end.is_some() {
        match extract_issue(&l.tags) {
            Some(iss) => {
                let ghost issv = iss@;
                let pair = (iss, duplicate_log(l));
                let ghost pairv = (pair.0@, pair.1@);
                let mut out = rest;
                out.insert(0, pair);
                proof {
                    assert(pair_views(out@) =~= seq![pairv] + pair_views(rest@));
                    assert(pairv == (issv, lvs[i as int]));
                    assert(pair_views(out@) =~= spec_pending(lvs.skip(i as int), tag@));
                }
                out
            },
            None => rest,
        }
    } else {
        rest
    }
}

/// Selects the pending pairs for this run, in input order.
pub fn pending_logs(logs: &Vec<TimeWarriorLog>, tag: &str) -> (r: Vec<(String, TimeWarriorLog)>)
    ensures
        pair_views(r@) == spec_pending(log_views(logs@), tag@),
{
    let r = pending_rec(logs, 0, tag);
    proof {
        assert(log_views(logs@).skip(0) =~= log_views(logs@));
    }
    r
}

/// How normalizing one interval can fail: it has no end, a timestamp or
/// the offset cannot be parsed, or the end precedes the start.
#[derive(PartialEq, Eq, Structural, Clone, Copy, Debug)]
pub enum CandidateError {
    Incomplete,
    Timestamp,
    NegativeDuration,
}

/// A normalized candidate: the start representation for the outbound
/// record, the start instant, and the non-negative duration in whole
/// seconds.
#[derive(Debug)]
pub struct Candidate {
    pub start_repr: String,
    pub start_instant: i64,
    pub duration: i64,
}

#[verifier::ext_equal]
pub ghost struct CandidateView {
    pub start_repr: Seq<char>,
    pub start_instant: int,
    pub duration: int,
}

impl View for Candidate {
    type V = CandidateView;

    open spec fn view(&self) -> CandidateView {
        CandidateView {
            start_repr: self.start_repr@,
            start_instant: self.start_instant as int,
            duration: self.duration as int,
        }
    }
}

/// The instant and duration an interval normalizes to under the
/// configured offset, or why it cannot: no end, unparseable timestamps,
/// or a negative span — which is never uploaded.
pub open spec fn spec_normalize(l: LogView, tz: Seq<char>) -> Result<(int, int), CandidateError> {
    match l.end {
        None => Err(CandidateError::Incomplete),
        Some(e) => if !(valid_compact(l.start) && valid_compact(e) && valid_offset(tz)) {
            Err(CandidateError::Timestamp)
        } else {
            let si = compact_instant(l.start, tz);
            let ei = compact_instant(e, tz);
            if ei - si < 0 {
                Err(CandidateError::NegativeDuration)
            } else {
                Ok((si, ei - si))
            }
        },
    }
}

/// Normalizes one interval's timestamps under the configured offset.
pub fn normalize_candidate(log: &TimeWarriorLog, tz: &str) -> (r: Result<Candidate, CandidateError>)
    ensures
        match r {
            Ok(c) => spec_normalize(log@, tz@) == Ok::<(int, int), CandidateError>(
                (c@.start_instant, c@.duration),
            ) && c@.start_repr == started_repr(log@.start, tz@),
            Err(e) => spec_normalize(log@, tz@) == Err::<(int, int), CandidateError>(e),
        },
{
    let end: &String = match &log.end {
        Some(e) => e,
        None => {
            return Err(CandidateError::Incomplete);
        },
    };
    let si = match parse_compact(log.start.as_str(), tz) {
        Some(v) => v,
        None => {
            return Err(CandidateError::Timestamp);
        },
    };
    let ei = match parse_compact(end.as_str(), tz) {
        Some(v) => v,
        None => {
            return Err(CandidateError::Timestamp);
        },
    };
    if ei < si {
        return Err(CandidateError::NegativeDuration);
    }
    let repr = format_started(log.start.as_str(), tz);
    Ok(Candidate { start_repr: repr, start_instant: si, duration: ei - si })
}

/// The uploads a run performs for the given pending pairs against a fixed
/// view of the remote listings: one record per pair that normalizes, and —
/// when existing records are checked — whose listing scan affirmatively
/// finds no record at the candidate's instant. Each upload carries the
/// issue, the start instant, and the clamped duration.
pub open spec fn spec_uploads(
    pending: Seq<(Seq<char>, LogView)>,
    tz: Seq<char>,
    skip: bool,
    fetch: Map<Seq<char>, Seq<WorklogView>>,
) -> Seq<(Seq<char>, int, int)>
    decreases pending.len(),
{
    if pending.len() == 0 {
        Seq::empty()
    } else {
        let iss = pending[0].0;
        let l = pending[0].1;
        let rest = spec_uploads(pending.drop_first(), tz, skip, fetch);
        match spec_normalize(l, tz) {
            Err(e) => rest,
            Ok(t) => if skip && dup_check(fetch[iss], t.0) != Some(false) {
                rest
            } else {
                seq![(iss, t.0, clamped(t.1))] + rest
            },
        }
    }
}

/// The uploads of a whole run from the input records.
pub open spec fn spec_run_uploads(
    logs: Seq<LogView>,
    tag: Seq<char>,
    tz: Seq<char>,
    skip: bool,
    fetch: Map<Seq<char>, Seq<WorklogView>>,
) -> Seq<(Seq<char>, int, int)> {
    spec_uploads(spec_pending(logs, tag), tz, skip, fetch)
}

/// Completeness filter: every pending pair has an end — an interval with
/// absent `end` is never selected, whatever its tags, so no upload is
/// ever attempted for it.
pub proof fn lemma_pending_complete(logs: Seq<LogView>, tag: Seq<char>)
    ensures
        forall|j: int|
            0 <= j < spec_pending(logs, tag).len() ==> (#[trigger] spec_pending(logs, tag)[j]).1.end
                is Some,
    decreases logs.len(),
{
    if logs.len() > 0 {
        lemma_pending_complete(logs.drop_first(), tag);
    }
}

/// Marker exclusion: no pending pair carries the completion-marker tag —
/// an interval already marked is excluded from the pending set even if
/// otherwise eligible.
pub proof fn lemma_pending_unmarked(logs: Seq<LogView>, tag: Seq<char>)
    ensures
        forall|j: int|
            0 <= j < spec_pending(logs, tag).len() ==> !has_tag(
                (#[trigger] spec_pending(logs, tag)[j]).1.tags,
                tag,
            ),
    decreases logs.len(),
{
    if logs.len() > 0 {
        lemma_pending_unmarked(logs.drop_first(), tag);
    }
}

/// Every pending pair's issue reference comes from its own tags.
pub proof fn lemma_pending_issue(logs: Seq<LogView>, tag: Seq<char>)
    ensures
        forall|j: int|
            0 <= j < spec_pending(logs, tag).len() ==> spec_extract_issue(
                (#[trigger] spec_pending(logs, tag)[j]).1.tags,
            ) == Some(spec_pending(logs, tag)[j].0),
    decreases logs.len(),
{
    if logs.len() > 0 {
        lemma_pending_issue(logs.drop_first(), tag);
    }
}

proof fn lemma_dup_check_true_extend(rs: Seq<WorklogView>, add: Seq<WorklogView>, c: int)
    requires
        dup_check(rs, c) == Some(true),
    ensures
        dup_check(rs + add, c) == Some(true),
    decreases rs.len(),
{
    assert(rs.len() > 0);
    assert((rs + add)[0] == rs[0]);
    assert((rs + add).len() > 0);
    match spec_remote_instant(rs[0].started) {
        None => {
            assert(false);
        },
        Some(e) => {
            if e != c {
                assert((rs + add).drop_first() =~= rs.drop_first() + add);
                lemma_dup_check_true_extend(rs.drop_first(), add, c);
            }
        },
    }
}

proof fn lemma_dup_check_none_extend(rs: Seq<WorklogView>, add: Seq<WorklogView>, c: int)
    requires
        dup_check(rs, c) is None,
    ensures
        dup_check(rs + add, c) is None,
    decreases rs.len(),
{
    assert(rs.len() > 0);
    assert((rs + add)[0] == rs[0]);
    match spec_remote_instant(rs[0].started) {
        None => {},
        Some(e) => {
            assert(e != c);
            assert((rs + add).drop_first() =~= rs.drop_first() + add);
            lemma_dup_check_none_extend(rs.drop_first(), add, c);
        },
    }
}

proof fn lemma_dup_check_all_parse_match(add: Seq<WorklogView>, c: int)
    requires
        forall|k: int|
            0 <= k < add.len() ==> spec_remote_instant(#[trigger] add[k].started) is Some,
        exists|k: int| 0 <= k < add.len() && spec_remote_instant(#[trigger] add[k].started)
            == Some(c),
    ensures
        dup_check(add, c) == Some(true),
    decreases add.len(),
{
    let w = choose|k: int|
        0 <= k < add.len() && spec_remote_instant(#[trigger] add[k].started) == Some(c);
    assert(add.len() > 0);
    match spec_remote_instant(add[0].started) {
        None => {
            assert(false);
        },
        Some(e) => {
            if e != c {
                assert(w > 0);
                assert(add.drop_first()[w - 1] == add[w]);
                assert forall|k: int| 0 <= k < add.drop_first().len() implies spec_remote_instant(
                    #[trigger] add.drop_first()[k].started,
                ) is Some by {
                    assert(add.drop_first()[k] == add[k + 1]);
                }
                lemma_dup_check_all_parse_match(add.drop_first(), c);
            }
        },
    }
}

proof fn lemma_dup_check_false_extend(rs: Seq<WorklogView>, add: Seq<WorklogView>, c: int)
    requires
        dup_check(rs, c) == Some(false),
        forall|k: int|
            0 <= k < add.len() ==> spec_remote_instant(#[trigger] add[k].started) is Some,
        exists|k: int| 0 <= k < add.len() && spec_remote_instant(#[trigger] add[k].started)
            == Some(c),
    ensures
        dup_check(rs + add, c) == Some(true),
    decreases rs.len(),
{
    if rs.len() == 0 {
        assert(rs + add =~= add);
        lemma_dup_check_all_parse_match(add, c);
    } else {
        assert((rs + add)[0] == rs[0]);
        match spec_remote_instant(rs[0].started) {
            None => {
                assert(false);
            },
            Some(e) => {
                assert(e != c);
                assert((rs + add).drop_first() =~= rs.drop_first() + add);
                lemma_dup_check_false_extend(rs.drop_first(), add, c);
            },
        }
    }
}

/// The remote listings of a second run extend those of the first: each
/// pending issue's listing keeps the first run's records as a prefix, and
/// everything added after them normalizes.
pub open spec fn listings_extended(
    pending: Seq<(Seq<char>, LogView)>,
    fetch1: Map<Seq<char>, Seq<WorklogView>>,
    fetch2: Map<Seq<char>, Seq<WorklogView>>,
) -> bool {
    forall|j: int|
        0 <= j < pending.len() ==> {
            let iss = (#[trigger] pending[j]).0;
            &&& fetch1[iss].len() <= fetch2[iss].len()
            &&& fetch2[iss].take(fetch1[iss].len() as int) == fetch1[iss]
            &&& forall|k: int|
                fetch1[iss].len() <= k < fetch2[iss].len() ==> spec_remote_instant(
                    (#[trigger] fetch2[iss][k]).started,
                ) is Some
        }
}

/// Every upload the first run performed now stands in the second run's
/// listing: for each pair the first run uploaded, a record added after
/// the first run's prefix carries the candidate's instant.
pub open spec fn uploads_listed(
    pending: Seq<(Seq<char>, LogView)>,
    tz: Seq<char>,
    fetch1: Map<Seq<char>, Seq<WorklogView>>,
    fetch2: Map<Seq<char>, Seq<WorklogView>>,
) -> bool {
    forall|j: int|
        0 <= j < pending.len() ==> {
            let iss = (#[trigger] pending[j]).0;
            let l = pending[j].1;
            spec_normalize(l, tz) matches Ok(t) ==> (dup_check(fetch1[iss], t.0) == Some(false)
                ==> exists|k: int|
                fetch1[iss].len() <= k < fetch2[iss].len() && spec_remote_instant(
                    (#[trigger] fetch2[iss][k]).started,
                ) == Some(t.0))
        }
}

proof fn lemma_uploads_empty(
    pending: Seq<(Seq<char>, LogView)>,
    tz: Seq<char>,
    fetch1: Map<Seq<char>, Seq<WorklogView>>,
    fetch2: Map<Seq<char>, Seq<WorklogView>>,
)
    requires
        listings_extended(pending, fetch1, fetch2),
        uploads_listed(pending, tz, fetch1, fetch2),
    ensures
        spec_uploads(pending, tz, true, fetch2) == Seq::<(Seq<char>, int, int)>::empty(),
    decreases pending.len(),
{
    if pending.len() > 0 {
        let iss = pending[0].0;
        let l = pending[0].1;
        assert(pending[0] == pending[0]);
        let rs1 = fetch1[iss];
        let rs2 = fetch2[iss];
        let add = rs2.skip(rs1.len() as int);
        assert(rs2 =~= rs1 + add);
        assert forall|k: int| 0 <= k < add.len() implies spec_remote_instant(
            #[trigger] add[k].started,
        ) is Some by {
            assert(add[k] == rs2[rs1.len() + k]);
        }
        match spec_normalize(l, tz) {
            Err(e) => {},
            Ok(t) => {
                match dup_check(rs1, t.0) {
                    None => {
                        lemma_dup_check_none_extend(rs1, add, t.0);
                    },
                    Some(b) => {
                        if b {
                            lemma_dup_check_true_extend(rs1, add, t.0);
                        } else {
                            let w = choose|k: int|
                                rs1.len() <= k < rs2.len() && spec_remote_instant(
                                    (#[trigger] rs2[k]).started,
                                ) == Some(t.0);
                            assert(add[w - rs1.len()] == rs2[w]);
                            assert(exists|k: int|
                                0 <= k < add.len() && spec_remote_instant(
                                    #[trigger] add[k].started,
                                ) == Some(t.0));
                            lemma_dup_check_false_extend(rs1, add, t.0);
                        }
                    },
                }
                assert(dup_check(rs2, t.0) != Some(false));
            },
        }
        assert forall|j: int| 0 <= j < pending.drop_first().len() implies {
            let iss2 = (#[trigger] pending.drop_first()[j]).0;
            &&& fetch1[iss2].len() <= fetch2[iss2].len()
            &&& fetch2[iss2].take(fetch1[iss2].len() as int) == fetch1[iss2]
            &&& forall|k: int|
                fetch1[iss2].len() <= k < fetch2[iss2].len() ==> spec_remote_instant(
                    (#[trigger] fetch2[iss2][k]).started,
                ) is Some
        } by {
            assert(pending.drop_first()[j] == pending[j + 1]);
        }
        assert forall|j: int| 0 <= j < pending.drop_first().len() implies {
            let iss2 = (#[trigger] pending.drop_first()[j]).0;
            let l2 = pending.drop_first()[j].1;
            spec_normalize(l2, tz) matches Ok(t) ==> (dup_check(fetch1[iss2], t.0) == Some(false)
                ==> exists|k: int|
                fetch1[iss2].len() <= k < fetch2[iss2].len() && spec_remote_instant(
                    (#[trigger] fetch2[iss2][k]).started,
                ) == Some(t.0))
        } by {
            assert(pending.drop_first()[j] == pending[j + 1]);
        }
        lemma_uploads_empty(pending.drop_first(), tz, fetch1, fetch2);
        assert(spec_uploads(pending, tz, true, fetch2) =~= Seq::<(Seq<char>, int, int)>::empty());
    } else {
        assert(spec_uploads(pending, tz, true, fetch2) =~= Seq::<(Seq<char>, int, int)>::empty());
    }
}

/// Idempotence: a second run of the engine over the same input records,
/// with duplicate checking on, against remote listings that extend the
/// first run's with well-formed records and hold a record at every
/// instant the first run uploaded, uploads nothing at all.
pub proof fn lemma_second_run_uploads_nothing(
    logs: Seq<LogView>,
    tag: Seq<char>,
    tz: Seq<char>,
    fetch1: Map<Seq<char>, Seq<WorklogView>>,
    fetch2: Map<Seq<char>, Seq<WorklogView>>,
)
    requires
        listings_extended(spec_pending(logs, tag), fetch1, fetch2),
        uploads_listed(spec_pending(logs, tag), tz, fetch1, fetch2),
    ensures
        spec_run_uploads(logs, tag, tz, true, fetch2) == Seq::<(Seq<char>, int, int)>::empty(),
{
    lemma_uploads_empty(spec_pending(logs, tag), tz, fetch1, fetch2);
}

} // verus!
