//! The issue extractor: finds the remote issue identifier an interval's
//! tags reference. A tag matches when it holds `http://` or `https://`,
//! then at least one character, then `browse/`, then at least one
//! character, all on one line; the identifier is everything after the last
//! such `browse/` to the end of the line, and the first matching tag wins.
//! The convention in force scans every tag directly; a tag carrying an
//! upstream-integration prefix before its URL matches the same pattern, so
//! both historical conventions land here.

use vstd::prelude::*;
use vstd::string::*;

use crate::json::{lit_at, word_at};
use crate::strutil::{first_nl, lemma_first_nl, views};

verus! {

/// The position after `http://` or `https://` standing at `p`, if either
/// does.
pub open spec fn scheme_end(t: Seq<char>, p: int) -> Option<int> {
    if lit_at(t, p, "https://"@) {
        Some(p + 8)
    } else if lit_at(t, p, "http://"@) {
        Some(p + 7)
    } else {
        None
    }
}

/// The largest position in `[lo, q]` where `browse/` stands, scanning
/// downward from `q`.
pub open spec fn find_browse_down(t: Seq<char>, lo: int, q: int) -> Option<int>
    decreases q + 1 - lo,
{
    if q < lo {
        None
    } else if lit_at(t, q, "browse/"@) {
        Some(q)
    } else {
        find_browse_down(t, lo, q - 1)
    }
}

/// The issue captured by a match beginning exactly at `p`: a scheme, at
/// least one character, the last `browse/` of the line that leaves at
/// least one character before the line's end, and that remainder as the
/// capture.
pub open spec fn match_at(t: Seq<char>, p: int) -> Option<Seq<char>> {
    match scheme_end(t, p) {
        None => None,
        Some(rest) => {
            let e = first_nl(t, p);
            match find_browse_down(t, rest + 1, e - 8) {
                None => None,
                Some(q) => Some(t.subrange(q + 7, e)),
            }
        },
    }
}

/// The capture of the leftmost matching start position at or after `p`.
pub open spec fn url_match(t: Seq<char>, p: int) -> Option<Seq<char>>
    decreases t.len() - p when 0 <= p <= t.len()
{
    if p >= t.len() {
        None
    } else {
        match match_at(t, p) {
            Some(c) => Some(c),
            None => url_match(t, p + 1),
        }
    }
}

/// The issue referenced by the first tag holding a match, if any.
pub open spec fn spec_extract_issue(tags: Seq<Seq<char>>) -> Option<Seq<char>>
    decreases tags.len(),
{
    if tags.len() == 0 {
        None
    } else {
        match url_match(tags[0], 0) {
            Some(c) => Some(c),
            None => spec_extract_issue(tags.drop_first()),
        }
    }
}

/// Scans downward for the last `browse/` in `[lo, q]`.
fn browse_down(t: &str, lo: usize, q: usize) -> (r: Option<usize>)
    requires
        q <= t@.len(),
    ensures
        match r {
            Some(b) => find_browse_down(t@, lo as int, q as int) == Some(b as int) && lo <= b
                <= q,
            None => find_browse_down(t@, lo as int, q as int) is None,
        },
    decreases q + 1 - lo,
{
    if q < lo {
        return None;
    }
    if word_at(t, q, "browse/") {
        return Some(q);
    }
    if q == 0 {
        proof {
            assert(find_browse_down(t@, lo as int, -1) is None);
        }
        return None;
    }
    browse_down(t, lo, q - 1)
}

/// The capture of the leftmost match in one tag, if any.
pub fn match_tag(t: &str) -> (r: Option<String>)
    ensures
        match r {
            Some(c) => url_match(t@, 0) == Some(c@),
            None => url_match(t@, 0) is None,
        },
{
    let n = t.unicode_len();
    let mut p: usize = 0;
    while p < n
        invariant
            n == t@.len(),
            0 <= p <= n,
            url_match(t@, p as int) == url_match(t@, 0),
        decreases n - p,
    {
        proof {
            reveal_strlit("https://");
            reveal_strlit("http://");
        }
        let scheme: Option<usize> = if word_at(t, p, "https://") {
            Some(p + 8)
        } else if word_at(t, p, "http://") {
            Some(p + 7)
        } else {
            None
        };
        match scheme {
            None => {
                assert(match_at(t@, p as int) is None);
            },
            Some(rest) => {
                assert(scheme_end(t@, p as int) == Some(rest as int));
                let mut e: usize = p;
                while e < n && t.get_char(e) != '\n'
                    invariant
                        n == t@.len(),
                        p <= e <= n,
                        first_nl(t@, e as int) == first_nl(t@, p as int),
                    decreases n - e,
                {
                    e = e + 1;
                }
                proof {
                    lemma_first_nl(t@, p as int);
                    assert(first_nl(t@, p as int) == e as int);
                }
                let ghost lo_i = rest as int + 1;
                let ghost hi = e as int - 8;
                let found: Option<usize> = if e >= 9 && e - 9 >= rest {
                    browse_down(t, rest + 1, e - 8)
                } else {
                    proof {
                        assert(hi < lo_i);
                        assert(find_browse_down(t@, lo_i, hi) is None);
                    }
                    None
                };
                match found {
                    Some(q) => {
                        let cap = t.substring_char(q + 7, e);
                        proof {
                            assert(match_at(t@, p as int) == Some(cap@));
                            assert(url_match(t@, p as int) == Some(cap@));
                        }
                        return Some(cap.to_owned());
                    },
                    None => {
                        assert(match_at(t@, p as int) is None);
                    },
                }
            },
        }
        p = p + 1;
    }
    None
}

/// Finds the first tag referencing an issue and returns the captured
/// identifier.
pub fn extract_issue(tags: &Vec<String>) -> (r: Option<String>)
    ensures
        match r {
            Some(c) => spec_extract_issue(views(tags@)) == Some(c@),
            None => spec_extract_issue(views(tags@)) is None,
        },
{
    let ghost tvs = views(tags@);
    let n = tags.len();
    proof {
        assert(tvs.skip(0) =~= tvs);
    }
    let mut i: usize = 0;
    while i < n
        invariant
            n == tags@.len(),
            tvs == views(tags@),
            0 <= i <= n,
            spec_extract_issue(tvs.skip(i as int)) == spec_extract_issue(tvs),
        decreases n - i,
    {
        proof {
            assert(tags@[i as int]@ == tvs[i as int]);
            assert(tvs.skip(i as int)[0] == tvs[i as int]);
        }
        match match_tag(tags[i].as_str()) {
            Some(c) => {
                proof {
                    assert(spec_extract_issue(tvs.skip(i as int)) == Some(c@));
                }
                return Some(c);
            },
            None => {
                proof {
                    assert(tvs.skip(i as int).drop_first() =~= tvs.skip(i as int + 1));
                }
            },
        }
        i = i + 1;
    }
    proof {
        assert(tvs.skip(n as int) =~= Seq::<Seq<char>>::empty());
    }
    None
}

} // verus!
