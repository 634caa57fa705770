//! The tracking tool's input protocol: a configuration block of
//! `key: value` lines, one near-blank separator line, and a JSON payload of
//! interval records. Records of the older protocol carry no id; their ids
//! are inferred chronologically when the configured tool version predates
//! native ids, and such records are dropped when it does not.

use vstd::prelude::*;
use vstd::string::*;

use crate::config::{conf_get, spec_config_lines, TwConfig};
use crate::json::{parse_payload, spec_payload, RawLog, RawLogView};
use crate::strutil::{spec_join_sep, spec_lines, spec_trim, split_lines, trim_str, views};
use crate::version::{parse_version, spec_version, spec_version_lt, version_lt};

verus! {

/// A structure representing a single interval record handed over by the
/// tracking tool, after id inference.
#[derive(Debug)]
pub struct TimeWarriorLog {
    pub id: usize,
    pub start: String,
    pub end: Option<String>,
    pub tags: Vec<String>,
}

#[verifier::ext_equal]
pub ghost struct LogView {
    pub id: int,
    pub start: Seq<char>,
    pub end: Option<Seq<char>>,
    pub tags: Seq<Seq<char>>,
}

impl View for TimeWarriorLog {
    type V = LogView;

    open spec fn view(&self) -> LogView {
        LogView {
            id: self.id as int,
            start: self.start@,
            end: match self.end {
                Some(e) => Some(e@),
                None => None,
            },
            tags: views(self.tags@),
        }
    }
}

/// The views of a sequence of interval records.
pub open spec fn log_views(v: Seq<TimeWarriorLog>) -> Seq<LogView> {
    v.map_values(|l: TimeWarriorLog| l@)
}

/// How a run of this parser can fail: the payload block is not a
/// well-formed array of interval records, or a record without an id forces
/// a version check and the configured version string is malformed.
#[derive(PartialEq, Eq, Structural, Clone, Copy, Debug)]
pub enum ParseError {
    MalformedPayload,
    BadVersion,
}

/// The number of leading lines whose trimmed byte length is over one: the
/// configuration block ends at the first blank or near-blank line.
pub open spec fn config_prefix(ls: Seq<Seq<char>>, i: int) -> int
    decreases ls.len() - i when 0 <= i <= ls.len()
{
    if i < ls.len() && vstd::utf8::encode_utf8(spec_trim(ls[i])).len() > 1 {
        config_prefix(ls, i + 1)
    } else {
        i
    }
}

/// The records with their ids settled, in wire order: a record keeps its
/// own id; one without an id receives `n - w` (its 1-based chronological
/// position, the wire being most-recent-first) when the version is old, and
/// is dropped otherwise.
pub open spec fn assign_from(
    raws: Seq<RawLogView>,
    w: int,
    n: int,
    old_version: bool,
) -> Seq<LogView>
    decreases raws.len() - w when 0 <= w <= raws.len()
{
    if w >= raws.len() {
        Seq::empty()
    } else {
        let rest = assign_from(raws, w + 1, n, old_version);
        let r = raws[w];
        match r.id {
            Some(id) => seq![LogView { id, start: r.start, end: r.end, tags: r.tags }] + rest,
            None => if old_version {
                seq![LogView { id: n - w, start: r.start, end: r.end, tags: r.tags }] + rest
            } else {
                rest
            },
        }
    }
}

pub open spec fn spec_assign_ids(raws: Seq<RawLogView>, old_version: bool) -> Seq<LogView> {
    assign_from(raws, 0, raws.len() as int, old_version)
}

/// Whether some record on the wire carries no id, so that the configured
/// version decides its fate.
pub open spec fn some_id_missing(raws: Seq<RawLogView>) -> bool {
    exists|w: int| 0 <= w < raws.len() && raws[w].id is None
}

/// The configured tool version: the `temp.version` binding, or `1.0.0`
/// when absent.
pub open spec fn version_of_conf(conf: Seq<(Seq<char>, Seq<char>)>) -> Option<
    crate::version::VersionView,
> {
    match conf_get(conf, "temp.version"@) {
        Some(v) => spec_version(v),
        None => spec_version("1.0.0"@),
    }
}

/// The whole outcome of parsing the input text: the configuration read
/// from the leading block, and the interval records read from the payload
/// after the separator line, with ids settled.
pub open spec fn spec_parse_tw_input(s: Seq<char>) -> Result<
    (Seq<(Seq<char>, Seq<char>)>, Seq<LogView>),
    ParseError,
> {
    let ls = spec_lines(s);
    let k = config_prefix(ls, 0);
    let conf = spec_config_lines(ls.take(k));
    let entries = if k + 1 <= ls.len() {
        spec_join_sep(ls.skip(k + 1), seq!['\n'])
    } else {
        Seq::empty()
    };
    match spec_payload(entries) {
        None => Err(ParseError::MalformedPayload),
        Some(raws) => if some_id_missing(raws) {
            match version_of_conf(conf) {
                None => Err(ParseError::BadVersion),
                Some(v) => Ok((conf, spec_assign_ids(raws, spec_version_lt(v, 1, 3, 0)))),
            }
        } else {
            Ok((conf, spec_assign_ids(raws, false)))
        },
    }
}


proof fn lemma_assign_from_inferred(raws: Seq<RawLogView>, w0: int, n: int)
    requires
        0 <= w0 <= raws.len(),
        forall|k: int| w0 <= k < raws.len() ==> (#[trigger] raws[k]).id is None,
    ensures
        assign_from(raws, w0, n, true).len() == raws.len() - w0,
        forall|j: int|
            0 <= j < raws.len() - w0 ==> (#[trigger] assign_from(raws, w0, n, true)[j]).id == n - (
            w0 + j),
    decreases raws.len() - w0,
{
    if w0 < raws.len() {
        lemma_assign_from_inferred(raws, w0 + 1, n);
        let whole = assign_from(raws, w0, n, true);
        let rest = assign_from(raws, w0 + 1, n, true);
        assert(raws[w0].id is None);
        assert forall|j: int| 0 <= j < raws.len() - w0 implies (#[trigger] whole[j]).id == n - (w0
            + j) by {
            if j > 0 {
                assert(whole[j] == rest[j - 1]);
            }
        }
    }
}

/// Id inference: when no record on the wire carries an id and the version
/// predates native ids, every record is kept, and the record at wire
/// position `w` receives id `n - w` — 1-based chronological positions, the
/// wire being most-recent-first, so the oldest record, last on the wire,
/// receives id 1.
pub proof fn lemma_id_inference(raws: Seq<RawLogView>, w: int)
    requires
        forall|k: int| 0 <= k < raws.len() ==> (#[trigger] raws[k]).id is None,
        0 <= w < raws.len(),
    ensures
        spec_assign_ids(raws, true).len() == raws.len(),
        spec_assign_ids(raws, true)[w].id == raws.len() - w,
{
    lemma_assign_from_inferred(raws, 0, raws.len() as int);
}

fn clone_tags(v: &Vec<String>) -> (r: Vec<String>)
    ensures
        r@ == v@,
{
    let mut out: Vec<String> = Vec::new();
    let n = v.len();
    let mut i: usize = 0;
    while i < n
        invariant
            n == v@.len(),
            0 <= i <= n,
            out@ == v@.take(i as int),
        decreases n - i,
    {
        out.push(v[i].clone());
        proof {
            assert(out@ =~= v@.take(i as int + 1));
        }
        i = i + 1;
    }
    proof {
        assert(v@.take(n as int) =~= v@);
    }
    out
}

fn assign_rec(raws: &Vec<RawLog>, w: usize, old_version: bool) -> (r: Vec<TimeWarriorLog>)
    requires
        w <= raws@.len(),
    ensures
        log_views(r@) == assign_from(
            crate::json::raw_views(raws@),
            w as int,
            raws@.len() as int,
            old_version,
        ),
    decreases raws@.len() - w,
{
    let n = raws.len();
    let ghost rvs = crate::json::raw_views(raws@);
    proof {
        assert(rvs.len() == raws@.len());
        if w < n {
            assert(rvs[w as int] == raws@[w as int]@);
        }
    }
    if w >= n {
        let r: Vec<TimeWarriorLog> = Vec::new();
        proof {
            assert(log_views(r@) =~= assign_from(rvs, w as int, n as int, old_version));
        }
        return r;
    }
    let rest = assign_rec(raws, w + 1, old_version);
    let cur = &raws[w];
    let id_opt = match cur.id {
        Some(id) => Some(id),
        None => {
            if old_version {
                Some(n - w)
            } else {
                None
            }
        },
    };
    match id_opt {
        Some(id) => {
            let end = match &cur.end {
                Some(e) => Some(e.clone()),
                None => None,
            };
            let log = TimeWarriorLog { id, start: cur.start.clone(), end, tags: clone_tags(
                &cur.tags,
            ) };
            let ghost logv = log@;
            let mut out = rest;
            out.insert(0, log);
            proof {
                assert(log_views(out@) =~= seq![logv] + log_views(rest@));
                assert(log_views(out@) =~= assign_from(rvs, w as int, n as int, old_version));
            }
            out
        },
        None => {
            proof {
                assert(log_views(rest@) =~= assign_from(rvs, w as int, n as int, old_version));
            }
            rest
        },
    }
}

/// Builds the configuration from the first `k` of the given lines.
pub fn config_from_lines(lines: &Vec<String>, k: usize) -> (r: TwConfig)
    requires
        k <= lines@.len(),
    ensures
        r.spec_pairs() == spec_config_lines(views(lines@).take(k as int)),
{
    let ghost lvs = views(lines@);
    let mut conf = TwConfig::new();
    let mut i: usize = 0;
    while i < k
        invariant
            k <= lines@.len(),
            lvs == views(lines@),
            0 <= i <= k,
            conf.spec_pairs() == spec_config_lines(lvs.take(i as int)),
        decreases k - i,
    {
        assert(lines@[i as int]@ == lvs[i as int]);
        crate::config::line_into_config(&mut conf, lines[i].as_str());
        proof {
            assert(lvs.take(i as int + 1).drop_last() =~= lvs.take(i as int));
            assert(lvs.take(i as int + 1).last() == lvs[i as int]);
        }
        i = i + 1;
    }
    conf
}

/// The number of leading lines of the configuration block, scanning from
/// `k`.
fn config_prefix_len(lines: &Vec<String>, k: usize) -> (r: usize)
    requires
        k <= lines@.len(),
    ensures
        r == config_prefix(views(lines@), k as int),
        k <= r <= lines@.len(),
    decreases lines@.len() - k,
{
    let n = lines.len();
    proof {
        assert(views(lines@).len() == lines@.len());
    }
    if k < n {
        proof {
            assert(lines@[k as int]@ == views(lines@)[k as int]);
        }
        let t = trim_str(lines[k].as_str());
        proof {
            assert(t.spec_bytes() == vstd::utf8::encode_utf8(
                spec_trim(views(lines@)[k as int]),
            ));
        }
        let byte_len = t.as_bytes().len();
        assert(byte_len == vstd::utf8::encode_utf8(spec_trim(views(lines@)[k as int])).len());
        if byte_len > 1 {
            return config_prefix_len(lines, k + 1);
        }
    }
    k
}

/// Takes the tracking tool's whole input and parses configuration and
/// interval records from it: the leading lines whose trimmed length is
/// over one form the configuration block, the line after them is the
/// separator, and the rest is the payload.
pub fn parse_tw_input(input: &str) -> (r: Result<(TwConfig, Vec<TimeWarriorLog>), ParseError>)
    ensures
        match r {
            Ok(p) => spec_parse_tw_input(input@) == Ok::<
                (Seq<(Seq<char>, Seq<char>)>, Seq<LogView>),
                ParseError,
            >((p.0.spec_pairs(), log_views(p.1@))),
            Err(e) => spec_parse_tw_input(input@) == Err::<
                (Seq<(Seq<char>, Seq<char>)>, Seq<LogView>),
                ParseError,
            >(e),
        },
{
    let lines = split_lines(input);
    let ghost lvs = spec_lines(input@);
    let nl = lines.len();
    let k = config_prefix_len(&lines, 0);
    proof {
        assert(config_prefix(lvs, 0) == k as int);
    }
    let conf = config_from_lines(&lines, k);
    let entries = if k >= nl {
        String::new()
    } else {
        crate::strutil::join_sep_from(&lines, "\n", k + 1)
    };
    proof {
        reveal_strlit("\n");
        assert("\n"@ =~= seq!['\n']);
        if k as int + 1 > lvs.len() {
            assert(entries@ =~= Seq::<char>::empty());
        } else {
            assert(entries@ == spec_join_sep(lvs.skip(k as int + 1), seq!['\n']));
        }
    }
    let raws = match parse_payload(entries.as_str()) {
        Some(v) => v,
        None => {
            return Err(ParseError::MalformedPayload);
        },
    };
    let ghost rvs = crate::json::raw_views(raws@);
    let n = raws.len();
    let mut missing = false;
    let mut i: usize = 0;
    while i < n
        invariant
            n == raws@.len(),
            rvs == crate::json::raw_views(raws@),
            0 <= i <= n,
            missing == exists|w: int| 0 <= w < i && rvs[w].id is None,
        decreases n - i,
    {
        proof {
            assert(rvs[i as int] == raws@[i as int]@);
        }
        if raws[i].id.is_none() {
            missing = true;
        }
        i = i + 1;
    }
    proof {
        assert(missing == some_id_missing(rvs));
    }
    let old_version = if missing {
        let vstr: &str = match conf.get("temp.version") {
            Some(v) => v.as_str(),
            None => "1.0.0",
        };
        let ver = match parse_version(vstr) {
            Some(v) => v,
            None => {
                return Err(ParseError::BadVersion);
            },
        };
        version_lt(&ver, 1, 3, 0)
    } else {
        false
    };
    let logs = assign_rec(&raws, 0, old_version);
    Ok((conf, logs))
}

} // verus!
