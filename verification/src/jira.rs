//! The tracker side of the engine: the connection data, the work-log
//! record, the minimum-duration clamp and the outbound JSON body, the
//! parser for the tracker's work-log listing, and the duplicate scan that
//! compares a candidate's start instant against the listed records.

use vstd::prelude::*;
use vstd::string::*;

use crate::instant::spec_remote_instant;
use crate::json::{
    int_boundary, parse_string, skip_ws, spec_skip_value, spec_string, spec_uint_token, ws_to,
};
use crate::strutil::str_eq;

verus! {

/// Tracker instance connection information.
#[derive(Clone, Debug)]
pub struct JiraConnection {
    pub user: String,
    pub token: String,
    pub is_pat: bool,
    pub instance_url: String,
}

/// A structure representing a tracker work log: a start instant in the
/// tracker's string form and a duration in whole seconds.
#[derive(Debug, Clone)]
pub struct JiraWorklog {
    pub started: String,
    pub time_spent_seconds: i64,
}

#[verifier::ext_equal]
pub ghost struct WorklogView {
    pub started: Seq<char>,
    pub secs: int,
}

impl View for JiraWorklog {
    type V = WorklogView;

    open spec fn view(&self) -> WorklogView {
        WorklogView { started: self.started@, secs: self.time_spent_seconds as int }
    }
}

pub open spec fn wl_views(v: Seq<JiraWorklog>) -> Seq<WorklogView> {
    v.map_values(|w: JiraWorklog| w@)
}

/// The minimum-duration clamp: the tracker does not recognize work logs
/// under one minute, so a shorter duration is submitted as exactly 60
/// seconds and a longer one unchanged.
pub open spec fn clamped(t: int) -> int {
    if t < 60 {
        60
    } else {
        t
    }
}

/// The decimal digits of a non-negative number.
pub open spec fn dec_str(n: int) -> Seq<char>
    decreases n,
{
    if n < 10 {
        seq![((48 + n) as u32) as char]
    } else {
        dec_str(n / 10) + seq![((48 + (n % 10)) as u32) as char]
    }
}

/// A string that needs no escaping inside a JSON string literal.
pub open spec fn plain_json_chars(s: Seq<char>) -> bool {
    forall|i: int|
        0 <= i < s.len() ==> #[trigger] s[i] != '"' && s[i] != '\\' && (s[i] as u32) >= 0x20
}

/// The outbound body for one work log record.
pub open spec fn worklog_body(started: Seq<char>, secs: int) -> Seq<char> {
    "{\"started\":\""@ + started + "\",\"timeSpentSeconds\":"@ + dec_str(secs) + "}"@
}

fn digit_to_char(d: i64) -> (r: char)
    requires
        0 <= d <= 9,
    ensures
        r == ((48 + d) as u32) as char,
{
    match char::from_u32(48 + (d as u32)) {
        Some(c) => c,
        None => {
            proof {
                assert(false);
            }
            ' '
        },
    }
}

fn dec_of(n: i64) -> (r: String)
    requires
        n >= 0,
    ensures
        r@ == dec_str(n as int),
    decreases n,
{
    if n < 10 {
        let mut out = String::new();
        out.push(digit_to_char(n));
        proof {
            assert(out@ =~= dec_str(n as int));
        }
        out
    } else {
        let mut out = dec_of(n / 10);
        out.push(digit_to_char(n % 10));
        proof {
            assert(out@ =~= dec_str(n as int));
        }
        out
    }
}

/// The outbound payload for a work log: the duration is clamped to the
/// one-minute minimum, the start representation is embedded verbatim.
/// A start representation that would need JSON escaping is refused; the
/// representations this engine builds never do.
pub fn upload_payload(wl: &JiraWorklog) -> (r: Option<String>)
    ensures
        (r is Some) <==> plain_json_chars(wl@.started),
        r matches Some(b) ==> b@ == worklog_body(wl@.started, clamped(wl@.secs)),
{
    let n = wl.started.as_str().unicode_len();
    let mut i: usize = 0;
    while i < n
        invariant
            n == wl.started@.len(),
            0 <= i <= n,
            forall|l: int|
                0 <= l < i ==> #[trigger] wl.started@[l] != '"' && wl.started@[l] != '\\' && (
                wl.started@[l] as u32) >= 0x20,
        decreases n - i,
    {
        let c = wl.started.as_str().get_char(i);
        if c == '"' || c == '\\' || (c as u32) < 0x20 {
            return None;
        }
        i = i + 1;
    }
    let secs = if wl.time_spent_seconds < 60 {
        60
    } else {
        wl.time_spent_seconds
    };
    let mut out = String::new();
    out.append("{\"started\":\"");
    out.append(wl.started.as_str());
    out.append("\",\"timeSpentSeconds\":");
    out.append(dec_of(secs).as_str());
    out.append("}");
    proof {
        assert(out@ =~= worklog_body(wl@.started, clamped(wl@.secs)));
    }
    Some(out)
}

/// A signed integer token: an optional minus sign before an unsigned
/// token.
pub open spec fn spec_int_token(s: Seq<char>, i: int) -> Option<(int, int)> {
    if 0 <= i < s.len() && s[i] == '-' {
        match spec_uint_token(s, i + 1) {
            None => None,
            Some(t) => Some((-t.0, t.1)),
        }
    } else {
        spec_uint_token(s, i)
    }
}

fn parse_i64(s: &str, i: usize) -> (r: Option<(i64, usize)>)
    requires
        i <= s@.len(),
    ensures
        match r {
            Some(p) => spec_int_token(s@, i as int) == Some((p.0 as int, p.1 as int)) && i < p.1
                <= s@.len(),
            None => spec_int_token(s@, i as int) is None || (spec_int_token(s@, i as int)
                matches Some(q) && !(i64::MIN <= q.0 <= i64::MAX)),
        },
{
    let n = s.unicode_len();
    if i < n && s.get_char(i) == '-' {
        match crate::json::parse_u64_at(s, i + 1) {
            None => None,
            Some(t) => {
                if t.0 <= 9223372036854775807 {
                    Some((-(t.0 as i64), t.1))
                } else if t.0 == 9223372036854775808 {
                    Some((i64::MIN, t.1))
                } else {
                    None
                }
            },
        }
    } else {
        match crate::json::parse_u64_at(s, i) {
            None => None,
            Some(t) => {
                if t.0 <= 9223372036854775807 {
                    Some((t.0 as i64, t.1))
                } else {
                    None
                }
            },
        }
    }
}

/// The fields of one listed work-log record gathered so far.
#[verifier::ext_equal]
pub ghost struct WlAccView {
    pub started: Option<Seq<char>>,
    pub secs: Option<int>,
}

struct WlAcc {
    started: Option<String>,
    secs: Option<i64>,
}

impl View for WlAcc {
    type V = WlAccView;

    closed spec fn view(&self) -> WlAccView {
        WlAccView {
            started: match self.started {
                Some(st) => Some(st@),
                None => None,
            },
            secs: match self.secs {
                Some(v) => Some(v as int),
                None => None,
            },
        }
    }
}

/// One field of a listed record folded into the accumulator: `started` a
/// string, `timeSpentSeconds` an integer within machine range, any other
/// field skipped whole.
pub open spec fn spec_wl_field_value(
    s: Seq<char>,
    v: int,
    key: Seq<char>,
    acc: WlAccView,
    fuel: nat,
) -> Option<(WlAccView, int)> {
    if key == "started"@ {
        if acc.started is Some {
            None
        } else {
            match spec_string(s, v) {
                None => None,
                Some(t) => Some((WlAccView { started: Some(t.0), ..acc }, t.1)),
            }
        }
    } else if key == "timeSpentSeconds"@ {
        if acc.secs is Some {
            None
        } else {
            match spec_int_token(s, v) {
                None => None,
                Some(t) => if int_boundary(s, t.1) && i64::MIN <= t.0 <= i64::MAX {
                    Some((WlAccView { secs: Some(t.0), ..acc }, t.1))
                } else {
                    None
                },
            }
        }
    } else {
        match spec_skip_value(s, v, fuel) {
            None => None,
            Some(j) => Some((acc, j)),
        }
    }
}

/// The members of a listed record from the key at `i` through the closing
/// brace; both named fields are required.
pub open spec fn spec_wl_fields(s: Seq<char>, i: int, acc: WlAccView, fuel: nat) -> Option<
    (WorklogView, int),
>
    decreases fuel,
{
    if fuel == 0 {
        None
    } else {
        match spec_string(s, i) {
            None => None,
            Some(kt) => if !(0 <= kt.1 <= s.len()) {
                None
            } else {
                let k = skip_ws(s, kt.1);
                if !(k < s.len() && s[k] == ':') {
                    None
                } else {
                    let v = skip_ws(s, k + 1);
                    match spec_wl_field_value(s, v, kt.0, acc, (fuel - 1) as nat) {
                        None => None,
                        Some(st) => if !(0 <= st.1 <= s.len()) {
                            None
                        } else {
                            let m = skip_ws(s, st.1);
                            if m < s.len() && s[m] == ',' {
                                spec_wl_fields(s, skip_ws(s, m + 1), st.0, (fuel - 1) as nat)
                            } else if m < s.len() && s[m] == '}' {
                                match (st.0.started, st.0.secs) {
                                    (Some(sv), Some(tv)) => Some(
                                        (WorklogView { started: sv, secs: tv }, m + 1),
                                    ),
                                    _ => None,
                                }
                            } else {
                                None
                            }
                        },
                    }
                }
            },
        }
    }
}

pub open spec fn spec_wl_record(s: Seq<char>, i: int, fuel: nat) -> Option<(WorklogView, int)> {
    if 0 <= i < s.len() && s[i] == '{' {
        let j = skip_ws(s, i + 1);
        if j < s.len() && s[j] == '}' {
            None
        } else {
            spec_wl_fields(s, j, WlAccView { started: None, secs: None }, fuel)
        }
    } else {
        None
    }
}

pub open spec fn spec_wl_items(s: Seq<char>, i: int, fuel: nat) -> Option<(Seq<WorklogView>, int)>
    decreases fuel,
{
    if fuel == 0 {
        None
    } else {
        match spec_wl_record(s, i, (fuel - 1) as nat) {
            None => None,
            Some(rt) => if !(0 <= rt.1 <= s.len()) {
                None
            } else {
                let k = skip_ws(s, rt.1);
                if k < s.len() && s[k] == ',' {
                    match spec_wl_items(s, skip_ws(s, k + 1), (fuel - 1) as nat) {
                        None => None,
                        Some(rest) => Some((seq![rt.0] + rest.0, rest.1)),
                    }
                } else if k < s.len() && s[k] == ']' {
                    Some((seq![rt.0], k + 1))
                } else {
                    None
                }
            },
        }
    }
}

pub open spec fn spec_wl_array(s: Seq<char>, i: int, fuel: nat) -> Option<(Seq<WorklogView>, int)> {
    if 0 <= i < s.len() && s[i] == '[' {
        let j = skip_ws(s, i + 1);
        if j < s.len() && s[j] == ']' {
            Some((Seq::empty(), j + 1))
        } else {
            spec_wl_items(s, j, fuel)
        }
    } else {
        None
    }
}

/// The members of the listing object: the `worklogs` array is required,
/// any other member is skipped whole.
pub open spec fn spec_listing_fields(
    s: Seq<char>,
    i: int,
    acc: Option<Seq<WorklogView>>,
    fuel: nat,
) -> Option<(Seq<WorklogView>, int)>
    decreases fuel,
{
    if fuel == 0 {
        None
    } else {
        match spec_string(s, i) {
            None => None,
            Some(kt) => if !(0 <= kt.1 <= s.len()) {
                None
            } else {
                let k = skip_ws(s, kt.1);
                if !(k < s.len() && s[k] == ':') {
                    None
                } else {
                    let v = skip_ws(s, k + 1);
                    let step: Option<(Option<Seq<WorklogView>>, int)> = if kt.0 == "worklogs"@ {
                        if acc is Some {
                            None
                        } else {
                            match spec_wl_array(s, v, (fuel - 1) as nat) {
                                None => None,
                                Some(t) => Some((Some(t.0), t.1)),
                            }
                        }
                    } else {
                        match spec_skip_value(s, v, (fuel - 1) as nat) {
                            None => None,
                            Some(j) => Some((acc, j)),
                        }
                    };
                    match step {
                        None => None,
                        Some(st) => if !(0 <= st.1 <= s.len()) {
                            None
                        } else {
                            let m = skip_ws(s, st.1);
                            if m < s.len() && s[m] == ',' {
                                spec_listing_fields(s, skip_ws(s, m + 1), st.0, (fuel - 1) as nat)
                            } else if m < s.len() && s[m] == '}' {
                                match st.0 {
                                    Some(ws) => Some((ws, m + 1)),
                                    None => None,
                                }
                            } else {
                                None
                            }
                        },
                    }
                }
            },
        }
    }
}

/// The whole listing text as the sequence of work-log records it carries:
/// an object whose `worklogs` member is an array of records, with nothing
/// but whitespace around it.
pub open spec fn spec_parse_worklogs(s: Seq<char>) -> Option<Seq<WorklogView>> {
    let i = skip_ws(s, 0);
    if i < s.len() && s[i] == '{' {
        let j = skip_ws(s, i + 1);
        if j < s.len() && s[j] == '}' {
            None
        } else {
            match spec_listing_fields(s, j, None, s.len()) {
                None => None,
                Some(rt) => if !(0 <= rt.1 <= s.len()) {
                    None
                } else if skip_ws(s, rt.1) == s.len() {
                    Some(rt.0)
                } else {
                    None
                },
            }
        }
    } else {
        None
    }
}

fn parse_wl_field_value(s: &str, v: usize, key: &String, acc: WlAcc, fuel: usize) -> (r: Option<
    (WlAcc, usize),
>)
    requires
        v <= s@.len(),
    ensures
        match r {
            Some(t) => spec_wl_field_value(s@, v as int, key@, acc@, fuel as nat) == Some(
                (t.0@, t.1 as int),
            ) && t.1 <= s@.len(),
            None => spec_wl_field_value(s@, v as int, key@, acc@, fuel as nat) is None,
        },
{
    if str_eq(key.as_str(), "started") {
        if acc.started.is_some() {
            None
        } else {
            match parse_string(s, v) {
                None => None,
                Some(t) => {
                    let ghost sv = t.0@;
                    let out = WlAcc { started: Some(t.0), ..acc };
                    proof {
                        assert(out@ =~~= (WlAccView { started: Some(sv), ..acc@ }));
                    }
                    Some((out, t.1))
                },
            }
        }
    } else if str_eq(key.as_str(), "timeSpentSeconds") {
        if acc.secs.is_some() {
            None
        } else {
            match parse_i64(s, v) {
                None => None,
                Some(t) => {
                    let n = s.unicode_len();
                    let ok = if t.1 < n {
                        let c = s.get_char(t.1);
                        !(c == '.' || c == 'e' || c == 'E')
                    } else {
                        true
                    };
                    if ok {
                        let out = WlAcc { secs: Some(t.0), ..acc };
                        proof {
                            assert(out@ =~~= (WlAccView { secs: Some(t.0 as int), ..acc@ }));
                        }
                        Some((out, t.1))
                    } else {
                        None
                    }
                },
            }
        }
    } else {
        match crate::json::skip_value_at(s, v, fuel) {
            None => None,
            Some(j) => Some((acc, j)),
        }
    }
}

fn parse_wl_fields(s: &str, i: usize, acc: WlAcc, fuel: usize) -> (r: Option<(JiraWorklog, usize)>)
    requires
        i <= s@.len(),
    ensures
        match r {
            Some(t) => spec_wl_fields(s@, i as int, acc@, fuel as nat) == Some((t.0@, t.1 as int))
                && t.1 <= s@.len(),
            None => spec_wl_fields(s@, i as int, acc@, fuel as nat) is None,
        },
    decreases fuel,
{
    if fuel == 0 {
        return None;
    }
    let n = s.unicode_len();
    let (key, j) = match parse_string(s, i) {
        Some(t) => t,
        None => {
            return None;
        },
    };
    let k = ws_to(s, j);
    if !(k < n && s.get_char(k) == ':') {
        return None;
    }
    let v = ws_to(s, k + 1);
    let (acc2, j2) = match parse_wl_field_value(s, v, &key, acc, fuel - 1) {
        Some(t) => t,
        None => {
            return None;
        },
    };
    let m = ws_to(s, j2);
    if m < n && s.get_char(m) == ',' {
        let m2 = ws_to(s, m + 1);
        parse_wl_fields(s, m2, acc2, fuel - 1)
    } else if m < n && s.get_char(m) == '}' {
        let ghost acc2v = acc2@;
        match (acc2.started, acc2.secs) {
            (Some(sv), Some(tv)) => {
                let rec = JiraWorklog { started: sv, time_spent_seconds: tv };
                proof {
                    assert(spec_wl_fields(s@, i as int, acc@, fuel as nat) matches Some(p)
                        && p.0 =~~= rec@);
                }
                Some((rec, m + 1))
            },
            _ => None,
        }
    } else {
        None
    }
}

fn parse_wl_record(s: &str, i: usize, fuel: usize) -> (r: Option<(JiraWorklog, usize)>)
    requires
        i <= s@.len(),
    ensures
        match r {
            Some(t) => spec_wl_record(s@, i as int, fuel as nat) == Some((t.0@, t.1 as int))
                && t.1 <= s@.len(),
            None => spec_wl_record(s@, i as int, fuel as nat) is None,
        },
{
    let n = s.unicode_len();
    if i < n && s.get_char(i) == '{' {
        let j = ws_to(s, i + 1);
        if j < n && s.get_char(j) == '}' {
            None
        } else {
            let acc = WlAcc { started: None, secs: None };
            proof {
                assert(acc@ =~~= (WlAccView { started: None, secs: None }));
            }
            parse_wl_fields(s, j, acc, fuel)
        }
    } else {
        None
    }
}

fn parse_wl_items(s: &str, i: usize, fuel: usize) -> (r: Option<(Vec<JiraWorklog>, usize)>)
    requires
        i <= s@.len(),
    ensures
        match r {
            Some(t) => spec_wl_items(s@, i as int, fuel as nat) == Some(
                (wl_views(t.0@), t.1 as int),
            ) && t.1 <= s@.len(),
            None => spec_wl_items(s@, i as int, fuel as nat) is None,
        },
    decreases fuel,
{
    if fuel == 0 {
        return None;
    }
    let n = s.unicode_len();
    let (first, j) = match parse_wl_record(s, i, fuel - 1) {
        Some(t) => t,
        None => {
            return None;
        },
    };
    let k = ws_to(s, j);
    if k < n && s.get_char(k) == ',' {
        let k2 = ws_to(s, k + 1);
        match parse_wl_items(s, k2, fuel - 1) {
            Some(rest) => {
                let ghost firstv = first@;
                let mut out = rest.0;
                out.insert(0, first);
                proof {
                    assert(wl_views(out@) =~= seq![firstv] + wl_views(rest.0@));
                }
                Some((out, rest.1))
            },
            None => None,
        }
    } else if k < n && s.get_char(k) == ']' {
        let ghost firstv = first@;
        let mut out: Vec<JiraWorklog> = Vec::new();
        out.push(first);
        proof {
            assert(wl_views(out@) =~= seq![firstv]);
        }
        Some((out, k + 1))
    } else {
        None
    }
}

fn parse_wl_array(s: &str, i: usize, fuel: usize) -> (r: Option<(Vec<JiraWorklog>, usize)>)
    requires
        i <= s@.len(),
    ensures
        match r {
            Some(t) => spec_wl_array(s@, i as int, fuel as nat) == Some(
                (wl_views(t.0@), t.1 as int),
            ) && t.1 <= s@.len(),
            None => spec_wl_array(s@, i as int, fuel as nat) is None,
        },
{
    let n = s.unicode_len();
    if i < n && s.get_char(i) == '[' {
        let j = ws_to(s, i + 1);
        if j < n && s.get_char(j) == ']' {
            let out: Vec<JiraWorklog> = Vec::new();
            proof {
                assert(wl_views(out@) =~= Seq::<WorklogView>::empty());
            }
            Some((out, j + 1))
        } else {
            parse_wl_items(s, j, fuel)
        }
    } else {
        None
    }
}

fn parse_listing_fields(s: &str, i: usize, acc: Option<Vec<JiraWorklog>>, fuel: usize) -> (r:
    Option<(Vec<JiraWorklog>, usize)>)
    requires
        i <= s@.len(),
    ensures
        match r {
            Some(t) => spec_listing_fields(
                s@,
                i as int,
                match acc {
                    Some(v) => Some(wl_views(v@)),
                    None => None,
                },
                fuel as nat,
            ) == Some((wl_views(t.0@), t.1 as int)) && t.1 <= s@.len(),
            None => spec_listing_fields(
                s@,
                i as int,
                match acc {
                    Some(v) => Some(wl_views(v@)),
                    None => None,
                },
                fuel as nat,
            ) is None,
        },
    decreases fuel,
{
    if fuel == 0 {
        return None;
    }
    let n = s.unicode_len();
    let (key, j) = match parse_string(s, i) {
        Some(t) => t,
        None => {
            return None;
        },
    };
    let k = ws_to(s, j);
    if !(k < n && s.get_char(k) == ':') {
        return None;
    }
    let v = ws_to(s, k + 1);
    let step: Option<(Option<Vec<JiraWorklog>>, usize)> = if str_eq(key.as_str(), "worklogs") {
        if acc.is_some() {
            None
        } else {
            match parse_wl_array(s, v, fuel - 1) {
                None => None,
                Some(t) => Some((Some(t.0), t.1)),
            }
        }
    } else {
        match crate::json::skip_value_at(s, v, fuel - 1) {
            None => None,
            Some(j2) => Some((acc, j2)),
        }
    };
    let (acc2, j2) = match step {
        Some(t) => t,
        None => {
            return None;
        },
    };
    let m = ws_to(s, j2);
    if m < n && s.get_char(m) == ',' {
        let m2 = ws_to(s, m + 1);
        parse_listing_fields(s, m2, acc2, fuel - 1)
    } else if m < n && s.get_char(m) == '}' {
        match acc2 {
            Some(ws) => Some((ws, m + 1)),
            None => None,
        }
    } else {
        None
    }
}

/// Parses the tracker's work-log listing; any malformed text is refused
/// whole.
pub fn parse_worklogs(s: &str) -> (r: Option<Vec<JiraWorklog>>)
    ensures
        match r {
            Some(v) => spec_parse_worklogs(s@) == Some(wl_views(v@)),
            None => spec_parse_worklogs(s@) is None,
        },
{
    let n = s.unicode_len();
    let i = ws_to(s, 0);
    if i < n && s.get_char(i) == '{' {
        let j = ws_to(s, i + 1);
        if j < n && s.get_char(j) == '}' {
            None
        } else {
            match parse_listing_fields(s, j, None, n) {
                None => None,
                Some(t) => {
                    if ws_to(s, t.1) == n {
                        Some(t.0)
                    } else {
                        None
                    }
                },
            }
        }
    } else {
        None
    }
}

/// What the engine has when a fetch of existing records comes back: the
/// records of a well-formed listing, and no records at all when the fetch
/// failed or its body is malformed — a failed fetch degrades to "nothing
/// is known remotely", so the upload proceeds.
pub open spec fn spec_worklogs_from_fetch(b: Option<Seq<char>>) -> Seq<WorklogView> {
    match b {
        None => Seq::empty(),
        Some(s) => match spec_parse_worklogs(s) {
            None => Seq::empty(),
            Some(ws) => ws,
        },
    }
}

pub fn worklogs_from_fetch(b: &Option<String>) -> (r: Vec<JiraWorklog>)
    ensures
        wl_views(r@) == spec_worklogs_from_fetch(
            match b {
                Some(s) => Some(s@),
                None => None,
            },
        ),
{
    match b {
        None => {
            let r: Vec<JiraWorklog> = Vec::new();
            proof {
                assert(wl_views(r@) =~= Seq::<WorklogView>::empty());
            }
            r
        },
        Some(body) => {
            match parse_worklogs(body.as_str()) {
                Some(v) => v,
                None => {
                    let r: Vec<JiraWorklog> = Vec::new();
                    proof {
                        assert(wl_views(r@) =~= Seq::<WorklogView>::empty());
                    }
                    r
                },
            }
        },
    }
}

/// The duplicate scan over listed records, in order: the first record
/// whose corrected start instant equals the candidate's decides `true`; a
/// record whose start cannot be normalized stops the scan with nothing,
/// before any later record is looked at; a scan past every record decides
/// `false`.
pub open spec fn dup_check(rs: Seq<WorklogView>, cand: int) -> Option<bool>
    decreases rs.len(),
{
    if rs.len() == 0 {
        Some(false)
    } else {
        match spec_remote_instant(rs[0].started) {
            None => None,
            Some(e) => if e == cand {
                Some(true)
            } else {
                dup_check(rs.drop_first(), cand)
            },
        }
    }
}

/// Scans the listed records for one whose corrected start instant equals
/// the candidate's; a record whose start string cannot be normalized
/// yields nothing.
pub fn find_duplicate(records: &Vec<JiraWorklog>, cand: i64) -> (r: Option<bool>)
    ensures
        r == dup_check(wl_views(records@), cand as int),
{
    let ghost rvs = wl_views(records@);
    let n = records.len();
    proof {
        assert(rvs.skip(0) =~= rvs);
    }
    let mut i: usize = 0;
    while i < n
        invariant
            n == records@.len(),
            rvs == wl_views(records@),
            0 <= i <= n,
            dup_check(rvs.skip(i as int), cand as int) == dup_check(rvs, cand as int),
        decreases n - i,
    {
        proof {
            assert(records@[i as int]@ == rvs[i as int]);
            assert(rvs.skip(i as int)[0] == rvs[i as int]);
        }
        match crate::instant::parse_remote_started(records[i].started.as_str()) {
            None => {
                return None;
            },
            Some(e) => {
                if e == cand {
                    return Some(true);
                }
                proof {
                    assert(rvs.skip(i as int).drop_first() =~= rvs.skip(i as int + 1));
                }
            },
        }
        i = i + 1;
    }
    proof {
        assert(rvs.skip(n as int) =~= Seq::<WorklogView>::empty());
    }
    Some(false)
}

} // verus!
