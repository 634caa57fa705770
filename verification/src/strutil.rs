//! Character-level string utilities shared by the parsers: ASCII whitespace
//! trimming, splitting text into lines (with `\r\n` endings recognized),
//! joining lines back, and string equality over views.

use vstd::prelude::*;
use vstd::string::*;

verus! {

/// The ASCII whitespace characters recognized when trimming configuration
/// text.
pub open spec fn is_ws(c: char) -> bool {
    c == ' ' || c == '\t' || c == '\n' || c == '\r' || c == '\u{b}' || c == '\u{c}'
}

pub fn ws_char(c: char) -> (r: bool)
    ensures
        r == is_ws(c),
{
    c == ' ' || c == '\t' || c == '\n' || c == '\r' || c == '\u{b}' || c == '\u{c}'
}

/// Index of the first non-whitespace character at or after `i`.
pub open spec fn trim_start_idx(s: Seq<char>, i: int) -> int
    decreases s.len() - i when 0 <= i <= s.len()
{
    if i < s.len() && is_ws(s[i]) {
        trim_start_idx(s, i + 1)
    } else {
        i
    }
}

/// Index just past the last non-whitespace character strictly before `j`.
pub open spec fn trim_end_idx(s: Seq<char>, j: int) -> int
    decreases j when 0 <= j <= s.len()
{
    if j > 0 && is_ws(s[j - 1]) {
        trim_end_idx(s, j - 1)
    } else {
        j
    }
}

/// The string with leading and trailing ASCII whitespace removed.
pub open spec fn spec_trim(s: Seq<char>) -> Seq<char> {
    let a = trim_start_idx(s, 0);
    let b = trim_end_idx(s, s.len() as int);
    if a <= b {
        s.subrange(a, b)
    } else {
        Seq::empty()
    }
}

pub fn trim_str<'a>(s: &'a str) -> (r: &'a str)
    ensures
        r@ == spec_trim(s@),
{
    let n = s.unicode_len();
    let mut a: usize = 0;
    while a < n && ws_char(s.get_char(a))
        invariant
            n == s@.len(),
            0 <= a <= n,
            trim_start_idx(s@, a as int) == trim_start_idx(s@, 0),
        decreases n - a,
    {
        a = a + 1;
    }
    assert(trim_start_idx(s@, 0) == a as int);
    let mut b: usize = n;
    while b > 0 && ws_char(s.get_char(b - 1))
        invariant
            n == s@.len(),
            0 <= b <= n,
            trim_end_idx(s@, b as int) == trim_end_idx(s@, s@.len() as int),
        decreases b,
    {
        b = b - 1;
    }
    assert(trim_end_idx(s@, s@.len() as int) == b as int);
    if a < b {
        s.substring_char(a, b)
    } else {
        let r = "";
        proof {
            reveal_strlit("");
            assert(r@ =~= spec_trim(s@));
        }
        r
    }
}

pub fn str_eq(a: &str, b: &str) -> (r: bool)
    ensures
        r == (a@ == b@),
{
    let an = a.unicode_len();
    let bn = b.unicode_len();
    if an != bn {
        return false;
    }
    let mut i: usize = 0;
    while i < an
        invariant
            an == a@.len(),
            an == b@.len(),
            0 <= i <= an,
            forall|k: int| 0 <= k < i ==> a@[k] == b@[k],
        decreases an - i,
    {
        if a.get_char(i) != b.get_char(i) {
            return false;
        }
        i = i + 1;
    }
    proof {
        assert(a@ =~= b@);
    }
    true
}

/// Index of the first occurrence of `c` at or after `i`, or the length if
/// there is none.
pub open spec fn first_occ(s: Seq<char>, c: char, i: int) -> int
    decreases s.len() - i when 0 <= i <= s.len()
{
    if i < s.len() && s[i] != c {
        first_occ(s, c, i + 1)
    } else {
        i
    }
}

pub proof fn lemma_first_occ(s: Seq<char>, c: char, i: int)
    requires
        0 <= i <= s.len(),
    ensures
        i <= first_occ(s, c, i) <= s.len(),
        first_occ(s, c, i) < s.len() ==> s[first_occ(s, c, i)] == c,
        forall|k: int| i <= k < first_occ(s, c, i) ==> s[k] != c,
    decreases s.len() - i,
{
    if i < s.len() && s[i] != c {
        lemma_first_occ(s, c, i + 1);
    }
}

/// Index of the first newline character at or after `i`, or the length if
/// there is none.
pub open spec fn first_nl(s: Seq<char>, i: int) -> int {
    first_occ(s, '\n', i)
}

pub proof fn lemma_first_nl(s: Seq<char>, i: int)
    requires
        0 <= i <= s.len(),
    ensures
        i <= first_nl(s, i) <= s.len(),
        first_nl(s, i) < s.len() ==> s[first_nl(s, i)] == '\n',
        forall|k: int| i <= k < first_nl(s, i) ==> s[k] != '\n',
{
    lemma_first_occ(s, '\n', i);
}

pub fn contains_char(s: &str, c: char) -> (r: bool)
    ensures
        r == (first_occ(s@, c, 0) < s@.len()),
{
    let n = s.unicode_len();
    let mut i: usize = 0;
    while i < n && s.get_char(i) != c
        invariant
            n == s@.len(),
            0 <= i <= n,
            first_occ(s@, c, i as int) == first_occ(s@, c, 0),
        decreases n - i,
    {
        i = i + 1;
    }
    proof {
        lemma_first_occ(s@, c, 0);
    }
    i < n
}

/// A line with a trailing carriage return removed, as happens to the text
/// before a `\n` when the input uses `\r\n` endings.
pub open spec fn strip_cr(l: Seq<char>) -> Seq<char> {
    if l.len() > 0 && l[l.len() - 1] == '\r' {
        l.subrange(0, l.len() - 1)
    } else {
        l
    }
}

/// The lines of the text: split at `\n`, a `\r` directly before a split
/// removed, and no empty final line when the text ends with a newline.
pub open spec fn spec_lines(s: Seq<char>) -> Seq<Seq<char>>
    decreases s.len()
    via spec_lines_dec
{
    if s.len() == 0 {
        Seq::empty()
    } else {
        let i = first_nl(s, 0);
        if i == s.len() {
            seq![s]
        } else {
            seq![strip_cr(s.subrange(0, i))] + spec_lines(s.subrange(i + 1, s.len() as int))
        }
    }
}

#[via_fn]
proof fn spec_lines_dec(s: Seq<char>) {
    if s.len() > 0 {
        lemma_first_nl(s, 0);
    }
}

/// The views of a sequence of owned strings.
pub open spec fn views(v: Seq<String>) -> Seq<Seq<char>> {
    v.map_values(|l: String| l@)
}

/// Every piece trimmed of leading and trailing ASCII whitespace.
pub open spec fn trim_all(ls: Seq<Seq<char>>) -> Seq<Seq<char>> {
    ls.map_values(|x: Seq<char>| spec_trim(x))
}

pub fn split_lines(s: &str) -> (r: Vec<String>)
    ensures
        views(r@) == spec_lines(s@),
    decreases s@.len(),
{
    let n = s.unicode_len();
    if n == 0 {
        let r: Vec<String> = Vec::new();
        proof {
            assert(views(r@) =~= spec_lines(s@));
        }
        return r;
    }
    let mut i: usize = 0;
    while i < n && s.get_char(i) != '\n'
        invariant
            n == s@.len(),
            0 <= i <= n,
            first_nl(s@, i as int) == first_nl(s@, 0),
        decreases n - i,
    {
        i = i + 1;
    }
    assert(first_nl(s@, 0) == i as int);
    if i == n {
        let line = s.to_owned();
        let mut r: Vec<String> = Vec::new();
        r.push(line);
        proof {
            assert(views(r@) =~= spec_lines(s@));
        }
        r
    } else {
        let line = if i > 0 && s.get_char(i - 1) == '\r' {
            s.substring_char(0, i - 1)
        } else {
            s.substring_char(0, i)
        };
        assert(line@ == strip_cr(s@.subrange(0, i as int)));
        let rest = s.substring_char(i + 1, n);
        let mut r = split_lines(rest);
        r.insert(0, line.to_owned());
        proof {
            assert(views(r@) =~= seq![strip_cr(s@.subrange(0, i as int))] + spec_lines(
                s@.subrange(i as int + 1, s@.len() as int),
            ));
        }
        r
    }
}

/// The pieces joined back into one text with the separator between them.
pub open spec fn spec_join_sep(ls: Seq<Seq<char>>, sep: Seq<char>) -> Seq<char>
    decreases ls.len(),
{
    if ls.len() == 0 {
        Seq::empty()
    } else if ls.len() == 1 {
        ls[0]
    } else {
        ls[0] + sep + spec_join_sep(ls.drop_first(), sep)
    }
}

pub fn join_sep_from(v: &Vec<String>, sep: &str, from: usize) -> (r: String)
    requires
        from <= v@.len(),
    ensures
        r@ == spec_join_sep(views(v@).skip(from as int), sep@),
    decreases v@.len() - from,
{
    let n = v.len();
    if from == n {
        let r = String::new();
        proof {
            assert(views(v@).skip(from as int) =~= Seq::<Seq<char>>::empty());
        }
        r
    } else if from + 1 == n {
        let r = v[from].clone();
        proof {
            assert(views(v@).skip(from as int) =~= seq![v@[from as int]@]);
        }
        r
    } else {
        let mut r = v[from].clone();
        r.append(sep);
        let rest = join_sep_from(v, sep, from + 1);
        r.append(rest.as_str());
        proof {
            let ls = views(v@).skip(from as int);
            assert(ls.len() >= 2);
            assert(ls[0] == v@[from as int]@);
            assert(ls.drop_first() =~= views(v@).skip(from as int + 1));
            assert(r@ == ls[0] + sep@ + spec_join_sep(ls.drop_first(), sep@));
        }
        r
    }
}

/// The pieces of the text split at every occurrence of `c`; a trailing
/// occurrence yields a final empty piece, and the empty text yields one
/// empty piece.
pub open spec fn spec_split_char(s: Seq<char>, c: char) -> Seq<Seq<char>>
    decreases s.len()
    via spec_split_char_dec
{
    let i = first_occ(s, c, 0);
    if i == s.len() {
        seq![s]
    } else {
        seq![s.subrange(0, i)] + spec_split_char(s.subrange(i + 1, s.len() as int), c)
    }
}

#[via_fn]
proof fn spec_split_char_dec(s: Seq<char>, c: char) {
    lemma_first_occ(s, c, 0);
}

pub proof fn lemma_split_char_len(s: Seq<char>, c: char)
    ensures
        spec_split_char(s, c).len() >= 1,
        first_occ(s, c, 0) < s.len() ==> spec_split_char(s, c).len() >= 2,
    decreases s.len(),
{
    lemma_first_occ(s, c, 0);
    let i = first_occ(s, c, 0);
    if i < s.len() {
        lemma_split_char_len(s.subrange(i + 1, s.len() as int), c);
    }
}

pub fn split_char(s: &str, c: char) -> (r: Vec<String>)
    ensures
        views(r@) == spec_split_char(s@, c),
    decreases s@.len(),
{
    let n = s.unicode_len();
    let mut i: usize = 0;
    while i < n && s.get_char(i) != c
        invariant
            n == s@.len(),
            0 <= i <= n,
            first_occ(s@, c, i as int) == first_occ(s@, c, 0),
        decreases n - i,
    {
        i = i + 1;
    }
    assert(first_occ(s@, c, 0) == i as int);
    if i == n {
        let piece = s.to_owned();
        let mut r: Vec<String> = Vec::new();
        r.push(piece);
        proof {
            assert(views(r@) =~= spec_split_char(s@, c));
        }
        r
    } else {
        let piece = s.substring_char(0, i);
        let rest = s.substring_char(i + 1, n);
        let mut r = split_char(rest, c);
        r.insert(0, piece.to_owned());
        proof {
            assert(views(r@) =~= seq![s@.subrange(0, i as int)] + spec_split_char(
                s@.subrange(i as int + 1, s@.len() as int),
                c,
            ));
        }
        r
    }
}

} // verus!
