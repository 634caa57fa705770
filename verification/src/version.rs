//! The tracking tool's version string, read from configuration to decide
//! whether interval ids must be inferred: `MAJOR.MINOR.PATCH`, each a
//! decimal number without leading zeros, with an optional `-` pre-release
//! and `+` build suffix of dot-separated alphanumeric identifiers.

use vstd::prelude::*;
use vstd::string::*;

use crate::json::{digit_char, is_digit, parse_uint, spec_uint_token};
use crate::strutil::{first_occ, lemma_first_occ, spec_split_char, views};

verus! {

/// A parsed version: the numeric triple, and whether a pre-release suffix
/// is present (a pre-release of a triple precedes the plain triple).
#[verifier::ext_equal]
pub ghost struct VersionView {
    pub major: int,
    pub minor: int,
    pub patch: int,
    pub pre: bool,
}

pub struct Version {
    pub major: usize,
    pub minor: usize,
    pub patch: usize,
    pub pre: bool,
}

impl View for Version {
    type V = VersionView;

    open spec fn view(&self) -> VersionView {
        VersionView {
            major: self.major as int,
            minor: self.minor as int,
            patch: self.patch as int,
            pre: self.pre,
        }
    }
}

/// A character allowed in a pre-release or build identifier.
pub open spec fn is_ident_char(c: char) -> bool {
    is_digit(c) || (97 <= c as u32 <= 122) || (65 <= c as u32 <= 90) || c == '-'
}

/// One pre-release identifier: non-empty, alphanumeric or `-`, and without
/// a leading zero when wholly numeric.
pub open spec fn valid_pre_ident(t: Seq<char>) -> bool {
    &&& t.len() > 0
    &&& forall|l: int| 0 <= l < t.len() ==> is_ident_char(#[trigger] t[l])
    &&& ((forall|l: int| 0 <= l < t.len() ==> is_digit(#[trigger] t[l])) ==> (t[0] != '0'
        || t.len() == 1))
}

/// One build identifier: non-empty, alphanumeric or `-`.
pub open spec fn valid_build_ident(t: Seq<char>) -> bool {
    &&& t.len() > 0
    &&& forall|l: int| 0 <= l < t.len() ==> is_ident_char(#[trigger] t[l])
}

pub open spec fn valid_pre(t: Seq<char>) -> bool {
    forall|l: int|
        0 <= l < spec_split_char(t, '.').len() ==> valid_pre_ident(
            #[trigger] spec_split_char(t, '.')[l],
        )
}

pub open spec fn valid_build(t: Seq<char>) -> bool {
    forall|l: int|
        0 <= l < spec_split_char(t, '.').len() ==> valid_build_ident(
            #[trigger] spec_split_char(t, '.')[l],
        )
}

/// The version a text denotes, if it is well-formed.
pub open spec fn spec_version(s: Seq<char>) -> Option<VersionView> {
    match spec_uint_token(s, 0) {
        None => None,
        Some(mj) => if mj.0 > usize::MAX as int {
            None
        } else if mj.1 < s.len() && s[mj.1] == '.' {
            match spec_uint_token(s, mj.1 + 1) {
                None => None,
                Some(mn) => if mn.0 > usize::MAX as int {
                    None
                } else if mn.1 < s.len() && s[mn.1] == '.' {
                    match spec_uint_token(s, mn.1 + 1) {
                        None => None,
                        Some(pt) => if pt.0 > usize::MAX as int {
                            None
                        } else {
                            let k = pt.1;
                            let core = VersionView {
                                major: mj.0,
                                minor: mn.0,
                                patch: pt.0,
                                pre: false,
                            };
                            if k == s.len() {
                                Some(core)
                            } else if 0 <= k < s.len() && s[k] == '-' {
                                let e = first_occ(s, '+', k + 1);
                                if 0 <= k + 1 <= e <= s.len() && valid_pre(s.subrange(k + 1, e)) {
                                    if e == s.len() {
                                        Some(VersionView { pre: true, ..core })
                                    } else if valid_build(s.subrange(e + 1, s.len() as int)) {
                                        Some(VersionView { pre: true, ..core })
                                    } else {
                                        None
                                    }
                                } else {
                                    None
                                }
                            } else if 0 <= k < s.len() && s[k] == '+' {
                                if valid_build(s.subrange(k + 1, s.len() as int)) {
                                    Some(core)
                                } else {
                                    None
                                }
                            } else {
                                None
                            }
                        },
                    }
                } else {
                    None
                },
            }
        } else {
            None
        },
    }
}

/// Whether the version precedes the plain version `major.minor.patch`: the
/// triples compare lexicographically, and a pre-release of the very triple
/// precedes it.
pub open spec fn spec_version_lt(v: VersionView, major: int, minor: int, patch: int) -> bool {
    ||| v.major < major
    ||| (v.major == major && v.minor < minor)
    ||| (v.major == major && v.minor == minor && v.patch < patch)
    ||| (v.major == major && v.minor == minor && v.patch == patch && v.pre)
}

fn ident_char(c: char) -> (r: bool)
    ensures
        r == is_ident_char(c),
{
    let u = c as u32;
    digit_char(c) || (97 <= u && u <= 122) || (65 <= u && u <= 90) || c == '-'
}

fn check_ident(t: &str, strict_num: bool) -> (r: bool)
    ensures
        strict_num ==> r == valid_pre_ident(t@),
        !strict_num ==> r == valid_build_ident(t@),
{
    let n = t.unicode_len();
    if n == 0 {
        return false;
    }
    let mut all_digits = true;
    let mut k: usize = 0;
    while k < n
        invariant
            n == t@.len(),
            0 <= k <= n,
            forall|l: int| 0 <= l < k ==> is_ident_char(#[trigger] t@[l]),
            all_digits == forall|l: int| 0 <= l < k ==> is_digit(#[trigger] t@[l]),
        decreases n - k,
    {
        let c = t.get_char(k);
        if !ident_char(c) {
            return false;
        }
        if !digit_char(c) {
            all_digits = false;
        }
        k = k + 1;
    }
    if strict_num && all_digits && n > 1 && t.get_char(0) == '0' {
        return false;
    }
    true
}

fn check_dotted(t: &str, strict_num: bool) -> (r: bool)
    ensures
        strict_num ==> r == valid_pre(t@),
        !strict_num ==> r == valid_build(t@),
{
    let parts = crate::strutil::split_char(t, '.');
    let ghost pvs = spec_split_char(t@, '.');
    let np = parts.len();
    let mut k: usize = 0;
    while k < np
        invariant
            np == parts@.len(),
            views(parts@) == pvs,
            pvs == spec_split_char(t@, '.'),
            0 <= k <= np,
            strict_num ==> forall|l: int| 0 <= l < k ==> valid_pre_ident(#[trigger] pvs[l]),
            !strict_num ==> forall|l: int| 0 <= l < k ==> valid_build_ident(#[trigger] pvs[l]),
        decreases np - k,
    {
        assert(parts@[k as int]@ == pvs[k as int]);
        if !check_ident(parts[k].as_str(), strict_num) {
            proof {
                assert(spec_split_char(t@, '.')[k as int] == pvs[k as int]);
            }
            return false;
        }
        k = k + 1;
    }
    true
}

/// Parses a version string; a malformed one yields nothing.
pub fn parse_version(s: &str) -> (r: Option<Version>)
    ensures
        match r {
            Some(v) => spec_version(s@) == Some(v@),
            None => spec_version(s@) is None,
        },
{
    let n = s.unicode_len();
    let (major, i) = match parse_uint(s, 0) {
        Some(t) => t,
        None => {
            return None;
        },
    };
    if !(i < n && s.get_char(i) == '.') {
        return None;
    }
    let (minor, j) = match parse_uint(s, i + 1) {
        Some(t) => t,
        None => {
            return None;
        },
    };
    if !(j < n && s.get_char(j) == '.') {
        return None;
    }
    let (patch, k) = match parse_uint(s, j + 1) {
        Some(t) => t,
        None => {
            return None;
        },
    };
    if k == n {
        return Some(Version { major, minor, patch, pre: false });
    }
    let c = s.get_char(k);
    if c == '-' {
        let mut e: usize = k + 1;
        while e < n && s.get_char(e) != '+'
            invariant
                n == s@.len(),
                k + 1 <= e <= n,
                first_occ(s@, '+', e as int) == first_occ(s@, '+', k as int + 1),
            decreases n - e,
        {
            e = e + 1;
        }
        proof {
            lemma_first_occ(s@, '+', k as int + 1);
            assert(first_occ(s@, '+', k as int + 1) == e as int);
        }
        let pre_part = s.substring_char(k + 1, e);
        if !check_dotted(pre_part, true) {
            return None;
        }
        if e == n {
            return Some(Version { major, minor, patch, pre: true });
        }
        let build_part = s.substring_char(e + 1, n);
        if check_dotted(build_part, false) {
            return Some(Version { major, minor, patch, pre: true });
        }
        return None;
    }
    if c == '+' {
        let build_part = s.substring_char(k + 1, n);
        if check_dotted(build_part, false) {
            return Some(Version { major, minor, patch, pre: false });
        }
        return None;
    }
    None
}

/// Whether the version precedes `major.minor.patch`.
pub fn version_lt(v: &Version, major: usize, minor: usize, patch: usize) -> (r: bool)
    ensures
        r == spec_version_lt(v@, major as int, minor as int, patch as int),
{
    if v.major != major {
        v.major < major
    } else if v.minor != minor {
        v.minor < minor
    } else if v.patch != patch {
        v.patch < patch
    } else {
        v.pre
    }
}

} // verus!
