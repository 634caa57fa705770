//! The configuration mapping handed over at the head of the input: one
//! `key: value` binding per line, split at the first colon, every
//! colon-delimited segment trimmed, the remaining segments rejoined with `:`
//! as the value. Later bindings for a key overwrite earlier ones.

use vstd::prelude::*;
use vstd::string::*;

use crate::strutil::{
    contains_char, first_occ, join_sep_from, lemma_first_occ, lemma_split_char_len, spec_join_sep,
    spec_split_char, spec_trim, split_char, str_eq, trim_all, trim_str, views,
};

verus! {

/// Index of the first binding for `k`, or the length when there is none.
pub open spec fn find_key(ps: Seq<(Seq<char>, Seq<char>)>, k: Seq<char>, i: int) -> int
    decreases ps.len() - i when 0 <= i <= ps.len()
{
    if i < ps.len() {
        if ps[i].0 == k {
            i
        } else {
            find_key(ps, k, i + 1)
        }
    } else {
        i
    }
}

/// The value bound to `k`, if any.
pub open spec fn conf_get(ps: Seq<(Seq<char>, Seq<char>)>, k: Seq<char>) -> Option<Seq<char>> {
    let i = find_key(ps, k, 0);
    if i < ps.len() {
        Some(ps[i].1)
    } else {
        None
    }
}

/// Binding `k` to `v`: the first existing binding for `k` is overwritten in
/// place, otherwise the pair is appended.
pub open spec fn conf_insert(
    ps: Seq<(Seq<char>, Seq<char>)>,
    k: Seq<char>,
    v: Seq<char>,
) -> Seq<(Seq<char>, Seq<char>)> {
    let i = find_key(ps, k, 0);
    if i < ps.len() {
        ps.update(i, (k, v))
    } else {
        ps.push((k, v))
    }
}

/// The key and value read from one configuration line, if the line holds a
/// colon: all colon-delimited segments are trimmed, the first is the key and
/// the rest rejoined with `:` are the value.
pub open spec fn spec_line_kv(l: Seq<char>) -> Option<(Seq<char>, Seq<char>)> {
    if first_occ(l, ':', 0) == l.len() {
        None
    } else {
        let segs = trim_all(spec_split_char(l, ':'));
        Some((segs[0], spec_join_sep(segs.drop_first(), seq![':'])))
    }
}

/// The bindings accumulated from a sequence of configuration lines, in order.
pub open spec fn spec_config_lines(ls: Seq<Seq<char>>) -> Seq<(Seq<char>, Seq<char>)>
    decreases ls.len(),
{
    if ls.len() == 0 {
        Seq::empty()
    } else {
        let prev = spec_config_lines(ls.drop_last());
        match spec_line_kv(ls.last()) {
            None => prev,
            Some(kv) => conf_insert(prev, kv.0, kv.1),
        }
    }
}

/// The configuration read from a whole block of text, split at `\n`.
pub open spec fn spec_config_text(s: Seq<char>) -> Seq<(Seq<char>, Seq<char>)> {
    spec_config_lines(spec_split_char(s, '\n'))
}

/// The configuration mapping, with one entry per distinct key.
#[derive(Debug)]
pub struct TwConfig {
    pairs: Vec<(String, String)>,
}

impl TwConfig {
    /// The bindings as key/value views, in insertion order.
    pub closed spec fn spec_pairs(&self) -> Seq<(Seq<char>, Seq<char>)> {
        self.pairs@.map_values(|p: (String, String)| (p.0@, p.1@))
    }

    /// The value bound to `k`, if any.
    pub open spec fn spec_get(&self, k: Seq<char>) -> Option<Seq<char>> {
        conf_get(self.spec_pairs(), k)
    }

    pub fn new() -> (r: TwConfig)
        ensures
            r.spec_pairs() == Seq::<(Seq<char>, Seq<char>)>::empty(),
    {
        let r = TwConfig { pairs: Vec::new() };
        proof {
            assert(r.spec_pairs() =~= Seq::<(Seq<char>, Seq<char>)>::empty());
        }
        r
    }

    pub fn len(&self) -> (n: usize)
        ensures
            n == self.spec_pairs().len(),
    {
        self.pairs.len()
    }

    fn find_idx(&self, k: &str) -> (r: Option<usize>)
        ensures
            match r {
                Some(i) => 0 <= i < self.spec_pairs().len() && find_key(self.spec_pairs(), k@, 0)
                    == i as int,
                None => find_key(self.spec_pairs(), k@, 0) == self.spec_pairs().len() as int,
            },
    {
        let ghost ps = self.spec_pairs();
        let n = self.pairs.len();
        let mut i: usize = 0;
        while i < n
            invariant
                n == self.pairs@.len(),
                0 <= i <= n,
                ps == self.spec_pairs(),
                find_key(ps, k@, i as int) == find_key(ps, k@, 0),
            decreases n - i,
        {
            if str_eq(self.pairs[i].0.as_str(), k) {
                assert(find_key(ps, k@, 0) == i as int);
                return Some(i);
            }
            i = i + 1;
        }
        assert(find_key(ps, k@, 0) == n as int);
        None
    }

    pub fn insert(&mut self, k: String, v: String)
        ensures
            final (self).spec_pairs() == conf_insert(old(self).spec_pairs(), k@, v@),
    {
        let ghost ps = self.spec_pairs();
        let ghost kv = k@;
        let ghost vv = v@;
        match self.find_idx(k.as_str()) {
            Some(i) => {
                self.pairs[i] = (k, v);
                proof {
                    assert(self.pairs@[i as int].0@ == kv);
                    assert(self.pairs@[i as int].1@ == vv);
                    assert(self.spec_pairs() =~= ps.update(i as int, (kv, vv)));
                    assert(conf_insert(ps, kv, vv) == ps.update(i as int, (kv, vv)));
                }
            },
            None => {
                self.pairs.push((k, v));
                proof {
                    assert(self.spec_pairs() =~= ps.push((kv, vv)));
                    assert(conf_insert(ps, kv, vv) == ps.push((kv, vv)));
                }
            },
        }
    }

    pub fn get<'a>(&'a self, k: &str) -> (r: Option<&'a String>)
        ensures
            match r {
                Some(v) => self.spec_get(k@) == Some(v@),
                None => self.spec_get(k@) is None,
            },
    {
        match self.find_idx(k) {
            Some(i) => Some(&self.pairs[i].1),
            None => None,
        }
    }

    pub fn contains_key(&self, k: &str) -> (r: bool)
        ensures
            r == (self.spec_get(k@) is Some),
    {
        self.get(k).is_some()
    }
}

/// Folds one configuration line into the mapping: a line holding a colon
/// contributes one binding, any other line is skipped.
pub fn line_into_config(conf: &mut TwConfig, line: &str)
    ensures
        final (conf).spec_pairs() == match spec_line_kv(line@) {
            None => old(conf).spec_pairs(),
            Some(kv) => conf_insert(old(conf).spec_pairs(), kv.0, kv.1),
        },
{
    if contains_char(line, ':') {
        let segs = split_char(line, ':');
        let ghost segvs = spec_split_char(line@, ':');
        let mut trimmed: Vec<String> = Vec::new();
        let ns = segs.len();
        let mut j: usize = 0;
        while j < ns
            invariant
                ns == segs@.len(),
                0 <= j <= ns,
                views(segs@) == segvs,
                views(trimmed@) == trim_all(segvs).take(j as int),
            decreases ns - j,
        {
            assert(segs@[j as int]@ == segvs[j as int]);
            let ghost before = trimmed@;
            let t = trim_str(segs[j].as_str());
            let o = t.to_owned();
            assert(o@ == spec_trim(segvs[j as int]));
            trimmed.push(o);
            proof {
                assert(trimmed@ == before.push(o));
                assert(trim_all(segvs).len() == ns);
                assert(views(before).len() == trim_all(segvs).take(j as int).len());
                assert(before.len() == j);
                assert forall|l: int| 0 <= l < j + 1 implies views(trimmed@)[l] == trim_all(
                    segvs,
                ).take(j as int + 1)[l] by {
                    assert(views(trimmed@)[l] == trimmed@[l]@);
                    if l < j as int {
                        assert(trimmed@[l] == before[l]);
                        assert(views(before)[l] == before[l]@);
                        assert(views(before)[l] == trim_all(segvs).take(j as int)[l]);
                    } else {
                        assert(trimmed@[l] == o);
                    }
                    assert(trim_all(segvs).take(j as int + 1)[l] == trim_all(segvs)[l]);
                    assert(trim_all(segvs)[l] == spec_trim(segvs[l]));
                }
                assert(views(trimmed@) =~~= trim_all(segvs).take(j as int + 1));
            }
            j = j + 1;
        }
        proof {
            assert(views(trimmed@) =~~= trim_all(segvs));
            lemma_first_occ(line@, ':', 0);
            lemma_split_char_len(line@, ':');
            assert(segvs.len() >= 2);
        }
        let key = trimmed[0].clone();
        let value = join_sep_from(&trimmed, ":", 1);
        proof {
            let tsegs = trim_all(segvs);
            assert(views(trimmed@).skip(1) =~~= tsegs.drop_first());
            reveal_strlit(":");
            assert(":"@ =~= seq![':']);
            assert(key@ == tsegs[0]);
            assert(spec_line_kv(line@) == Some((key@, value@)));
        }
        conf.insert(key, value);
    } else {
        proof {
            lemma_first_occ(line@, ':', 0);
        }
        assert(spec_line_kv(line@) is None);
    }
}

/// Parses key-value configuration passed by the tracking tool: the block is
/// split at `\n` and each line holding a colon contributes one binding.
pub fn parse_tw_config(block: &str) -> (r: TwConfig)
    ensures
        r.spec_pairs() == spec_config_text(block@),
{
    let lines = split_char(block, '\n');
    let ghost lvs = spec_split_char(block@, '\n');
    let mut conf = TwConfig::new();
    let nl = lines.len();
    let mut i: usize = 0;
    while i < nl
        invariant
            nl == lines@.len(),
            0 <= i <= nl,
            views(lines@) == lvs,
            conf.spec_pairs() == spec_config_lines(lvs.take(i as int)),
        decreases nl - i,
    {
        assert(lines@[i as int]@ == lvs[i as int]);
        line_into_config(&mut conf, lines[i].as_str());
        proof {
            assert(lvs.take(i as int + 1).drop_last() =~= lvs.take(i as int));
            assert(lvs.take(i as int + 1).last() == lvs[i as int]);
        }
        i = i + 1;
    }
    proof {
        assert(lvs.take(nl as int) =~= lvs);
    }
    conf
}

} // verus!
