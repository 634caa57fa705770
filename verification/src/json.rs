//! A recursive-descent parser for the JSON subset that the interval payload
//! uses: arrays of objects whose fields are integers, strings, nulls and
//! arrays of strings, with unknown fields skipped whole. The grammar is
//! written once as spec functions over character sequences; each executable
//! parser is proved to return exactly what the grammar says.

use vstd::prelude::*;
use vstd::string::*;

use crate::strutil::{str_eq, views};

verus! {

/// Relies on `String::push`: appends the given character to the end of the
/// string.
pub assume_specification[ String::push ](s: &mut String, c: char)
    ensures
        final (s)@ == old(s)@.push(c),
;

/// Relies on `char::from_u32`: returns the character with the given code
/// point exactly when the code is a Unicode scalar value.
pub assume_specification[ char::from_u32 ](u: u32) -> (r: Option<char>)
    ensures
        (r is Some) <==> (u < 0xD800 || (0xE000 <= u && u <= 0x10FFFF)),
        r matches Some(c) ==> c == u as char,
;

/// JSON insignificant whitespace.
pub open spec fn is_json_ws(c: char) -> bool {
    c == ' ' || c == '\t' || c == '\n' || c == '\r'
}

pub open spec fn is_digit(c: char) -> bool {
    48 <= c as u32 <= 57
}

pub open spec fn digit_val(c: char) -> int {
    c as u32 - 48
}

/// The value of a hexadecimal digit, if `c` is one.
pub open spec fn hex_val(c: char) -> Option<u32> {
    if is_digit(c) {
        Some((((c as u32) - 48) as u32))
    } else if 97 <= c as u32 <= 102 {
        Some((((c as u32) - 87) as u32))
    } else if 65 <= c as u32 <= 70 {
        Some((((c as u32) - 55) as u32))
    } else {
        None
    }
}

pub fn json_ws_char(c: char) -> (r: bool)
    ensures
        r == is_json_ws(c),
{
    c == ' ' || c == '\t' || c == '\n' || c == '\r'
}

/// Index of the first non-whitespace character at or after `i`.
pub open spec fn skip_ws(s: Seq<char>, i: int) -> int
    decreases s.len() - i when 0 <= i <= s.len()
{
    if i < s.len() && is_json_ws(s[i]) {
        skip_ws(s, i + 1)
    } else {
        i
    }
}

pub proof fn lemma_skip_ws(s: Seq<char>, i: int)
    requires
        0 <= i <= s.len(),
    ensures
        i <= skip_ws(s, i) <= s.len(),
    decreases s.len() - i,
{
    if i < s.len() && is_json_ws(s[i]) {
        lemma_skip_ws(s, i + 1);
    }
}

pub fn ws_to(s: &str, i: usize) -> (r: usize)
    requires
        i <= s@.len(),
    ensures
        r == skip_ws(s@, i as int),
        i <= r <= s@.len(),
{
    let n = s.unicode_len();
    let mut j: usize = i;
    while j < n && json_ws_char(s.get_char(j))
        invariant
            n == s@.len(),
            i <= j <= n,
            skip_ws(s@, j as int) == skip_ws(s@, i as int),
        decreases n - j,
    {
        j = j + 1;
    }
    proof {
        lemma_skip_ws(s@, i as int);
    }
    j
}

/// The four hexadecimal digits of a `\u` escape starting at `i`, as a code
/// unit.
pub open spec fn spec_hex4(s: Seq<char>, i: int) -> Option<u32> {
    if 0 <= i && i + 4 <= s.len() {
        match (hex_val(s[i]), hex_val(s[i + 1]), hex_val(s[i + 2]), hex_val(s[i + 3])) {
            (Some(a), Some(b), Some(c), Some(d)) => Some(
                ((a * 4096 + b * 256 + c * 16 + d) as u32),
            ),
            _ => None,
        }
    } else {
        None
    }
}

/// The character a simple (single-letter) escape stands for.
pub open spec fn simple_escape(e: char) -> Option<char> {
    if e == '"' {
        Some('"')
    } else if e == '\\' {
        Some('\\')
    } else if e == '/' {
        Some('/')
    } else if e == 'b' {
        Some('\u{8}')
    } else if e == 'f' {
        Some('\u{c}')
    } else if e == 'n' {
        Some('\n')
    } else if e == 'r' {
        Some('\r')
    } else if e == 't' {
        Some('\t')
    } else {
        None
    }
}

/// The body of a string literal from position `i` (just after the opening
/// quote) to its closing quote: the decoded characters and the position
/// after the closing quote. Escapes are decoded, surrogate pairs combined,
/// and unescaped control characters refused.
pub open spec fn spec_str_body(s: Seq<char>, i: int) -> Option<(Seq<char>, int)>
    decreases s.len() - i when 0 <= i
{
    if i >= s.len() {
        None
    } else {
        let c = s[i];
        if c == '"' {
            Some((Seq::empty(), i + 1))
        } else if c == '\\' {
            if i + 1 >= s.len() {
                None
            } else {
                let e = s[i + 1];
                if e == 'u' {
                    match spec_hex4(s, i + 2) {
                        None => None,
                        Some(h) => if h < 0xD800 || h >= 0xE000 {
                            match spec_str_body(s, i + 6) {
                                None => None,
                                Some(t) => Some((seq![h as char] + t.0, t.1)),
                            }
                        } else if h < 0xDC00 {
                            if i + 8 <= s.len() && s[i + 6] == '\\' && s[i + 7] == 'u' {
                                match spec_hex4(s, i + 8) {
                                    None => None,
                                    Some(lo) => if 0xDC00 <= lo < 0xE000 {
                                        match spec_str_body(s, i + 12) {
                                            None => None,
                                            Some(t) => Some(
                                                (
                                                    seq![
                                                        (((h - 0xD800) * 0x400 + (lo - 0xDC00)
                                                            + 0x10000) as u32) as char
                                                    ] + t.0,
                                                    t.1,
                                                ),
                                            ),
                                        }
                                    } else {
                                        None
                                    },
                                }
                            } else {
                                None
                            }
                        } else {
                            None
                        },
                    }
                } else {
                    match simple_escape(e) {
                        None => None,
                        Some(c2) => match spec_str_body(s, i + 2) {
                            None => None,
                            Some(t) => Some((seq![c2] + t.0, t.1)),
                        },
                    }
                }
            }
        } else if (c as u32) < 0x20 {
            None
        } else {
            match spec_str_body(s, i + 1) {
                None => None,
                Some(t) => Some((seq![c] + t.0, t.1)),
            }
        }
    }
}

/// A whole string literal starting at `i` with its opening quote.
pub open spec fn spec_string(s: Seq<char>, i: int) -> Option<(Seq<char>, int)> {
    if 0 <= i < s.len() && s[i] == '"' {
        spec_str_body(s, i + 1)
    } else {
        None
    }
}

fn hexd(c: char) -> (r: Option<u32>)
    ensures
        r == hex_val(c),
{
    let u = c as u32;
    if 48 <= u && u <= 57 {
        Some(u - 48)
    } else if 97 <= u && u <= 102 {
        Some(u - 87)
    } else if 65 <= u && u <= 70 {
        Some(u - 55)
    } else {
        None
    }
}

fn parse_hex4(s: &str, i: usize) -> (r: Option<u32>)
    ensures
        r == spec_hex4(s@, i as int),
        r matches Some(u) ==> u < 0x10000,
{
    let n = s.unicode_len();
    if i > n || n - i < 4 {
        return None;
    }
    let a = match hexd(s.get_char(i)) {
        Some(x) => x,
        None => {
            return None;
        },
    };
    let b = match hexd(s.get_char(i + 1)) {
        Some(x) => x,
        None => {
            return None;
        },
    };
    let c = match hexd(s.get_char(i + 2)) {
        Some(x) => x,
        None => {
            return None;
        },
    };
    let d = match hexd(s.get_char(i + 3)) {
        Some(x) => x,
        None => {
            return None;
        },
    };
    Some(a * 4096 + b * 256 + c * 16 + d)
}

/// Parses a string literal body beginning just after the opening quote,
/// returning the decoded string and the position after the closing quote.
pub fn parse_str_body(s: &str, i: usize) -> (r: Option<(String, usize)>)
    requires
        i <= s@.len(),
    ensures
        match r {
            Some(t) => spec_str_body(s@, i as int) == Some((t.0@, t.1 as int)) && i < t.1
                <= s@.len(),
            None => spec_str_body(s@, i as int) is None,
        },
    decreases s@.len() - i,
{
    let n = s.unicode_len();
    if i >= n {
        return None;
    }
    let c = s.get_char(i);
    if c == '"' {
        let out = String::new();
        proof {
            assert(out@ =~= Seq::<char>::empty());
        }
        return Some((out, i + 1));
    }
    if c == '\\' {
        if i + 1 >= n {
            return None;
        }
        let e = s.get_char(i + 1);
        if e == 'u' {
            let h = match parse_hex4(s, i + 2) {
                Some(x) => x,
                None => {
                    return None;
                },
            };
            if h < 0xD800 || h >= 0xE000 {
                let ch = match char::from_u32(h) {
                    Some(x) => x,
                    None => {
                        proof {
                            assert(false);
                        }
                        return None;
                    },
                };
                match parse_str_body(s, i + 6) {
                    Some(t) => {
                        let mut out = String::new();
                        out.push(ch);
                        out.append(t.0.as_str());
                        proof {
                            assert(out@ =~= seq![h as char] + t.0@);
                        }
                        return Some((out, t.1));
                    },
                    None => {
                        return None;
                    },
                }
            } else if h < 0xDC00 {
                if n - i >= 8 && s.get_char(i + 6) == '\\' && s.get_char(i + 7) == 'u' {
                    let lo = match parse_hex4(s, i + 8) {
                        Some(x) => x,
                        None => {
                            return None;
                        },
                    };
                    if 0xDC00 <= lo && lo < 0xE000 {
                        let code: u32 = (h - 0xD800) * 0x400 + (lo - 0xDC00) + 0x10000;
                        let ch = match char::from_u32(code) {
                            Some(x) => x,
                            None => {
                                proof {
                                    assert(false);
                                }
                                return None;
                            },
                        };
                        match parse_str_body(s, i + 12) {
                            Some(t) => {
                                let mut out = String::new();
                                out.push(ch);
                                out.append(t.0.as_str());
                                proof {
                                    assert(out@ =~= seq![code as char] + t.0@);
                                }
                                return Some((out, t.1));
                            },
                            None => {
                                return None;
                            },
                        }
                    } else {
                        return None;
                    }
                } else {
                    return None;
                }
            } else {
                return None;
            }
        } else {
            let c2 = if e == '"' {
                '"'
            } else if e == '\\' {
                '\\'
            } else if e == '/' {
                '/'
            } else if e == 'b' {
                '\u{8}'
            } else if e == 'f' {
                '\u{c}'
            } else if e == 'n' {
                '\n'
            } else if e == 'r' {
                '\r'
            } else if e == 't' {
                '\t'
            } else {
                return None;
            };
            assert(simple_escape(e) == Some(c2));
            match parse_str_body(s, i + 2) {
                Some(t) => {
                    let mut out = String::new();
                    out.push(c2);
                    out.append(t.0.as_str());
                    proof {
                        assert(out@ =~= seq![c2] + t.0@);
                    }
                    return Some((out, t.1));
                },
                None => {
                    return None;
                },
            }
        }
    }
    if (c as u32) < 0x20 {
        return None;
    }
    match parse_str_body(s, i + 1) {
        Some(t) => {
            let mut out = String::new();
            out.push(c);
            out.append(t.0.as_str());
            proof {
                assert(out@ =~= seq![c] + t.0@);
            }
            Some((out, t.1))
        },
        None => None,
    }
}

/// Parses a whole string literal starting at its opening quote.
pub fn parse_string(s: &str, i: usize) -> (r: Option<(String, usize)>)
    requires
        i <= s@.len(),
    ensures
        match r {
            Some(t) => spec_string(s@, i as int) == Some((t.0@, t.1 as int)) && i < t.1
                <= s@.len(),
            None => spec_string(s@, i as int) is None,
        },
{
    let n = s.unicode_len();
    if i < n && s.get_char(i) == '"' {
        parse_str_body(s, i + 1)
    } else {
        None
    }
}

/// Index of the first non-digit character at or after `i`.
pub open spec fn end_digits(s: Seq<char>, i: int) -> int
    decreases s.len() - i when 0 <= i <= s.len()
{
    if i < s.len() && is_digit(s[i]) {
        end_digits(s, i + 1)
    } else {
        i
    }
}

pub proof fn lemma_end_digits(s: Seq<char>, i: int)
    requires
        0 <= i <= s.len(),
    ensures
        i <= end_digits(s, i) <= s.len(),
        forall|k: int| i <= k < end_digits(s, i) ==> is_digit(s[k]),
        end_digits(s, i) < s.len() ==> !is_digit(s[end_digits(s, i)]),
    decreases s.len() - i,
{
    if i < s.len() && is_digit(s[i]) {
        lemma_end_digits(s, i + 1);
    }
}

/// The value of the decimal digits in `s[i..j)`.
pub open spec fn digits_val(s: Seq<char>, i: int, j: int) -> int
    decreases j - i,
{
    if i >= j {
        0
    } else {
        digits_val(s, i, j - 1) * 10 + digit_val(s[j - 1])
    }
}

pub proof fn lemma_digits_val_mono(s: Seq<char>, i: int, k: int, j: int)
    requires
        i <= k <= j,
        forall|l: int| i <= l < j ==> #[trigger] is_digit(s[l]),
    ensures
        digits_val(s, i, j) >= digits_val(s, i, k) >= 0,
    decreases j - k,
{
    if k == j {
        lemma_digits_val_nonneg(s, i, k);
    } else {
        lemma_digits_val_mono(s, i, k, j - 1);
        lemma_digits_val_nonneg(s, i, j - 1);
        assert(is_digit(s[j - 1]));
        assert(digit_val(s[j - 1]) >= 0);
        assert(digits_val(s, i, j) == digits_val(s, i, j - 1) * 10 + digit_val(s[j - 1]));
        assert(digits_val(s, i, j - 1) * 10 >= digits_val(s, i, j - 1));
    }
}

pub proof fn lemma_digits_val_nonneg(s: Seq<char>, i: int, j: int)
    requires
        forall|l: int| i <= l < j ==> #[trigger] is_digit(s[l]),
    ensures
        digits_val(s, i, j) >= 0,
    decreases j - i,
{
    if i < j {
        lemma_digits_val_nonneg(s, i, j - 1);
        assert(is_digit(s[j - 1]));
        assert(digit_val(s[j - 1]) >= 0);
    }
}

/// An unsigned integer token at `i` in the JSON grammar: a single `0`, or a
/// nonzero digit followed by more digits. Returns the value and the position
/// after the token.
pub open spec fn spec_uint_token(s: Seq<char>, i: int) -> Option<(int, int)> {
    if 0 <= i < s.len() && is_digit(s[i]) {
        if s[i] == '0' {
            Some((0, i + 1))
        } else {
            Some((digits_val(s, i, end_digits(s, i)), end_digits(s, i)))
        }
    } else {
        None
    }
}

/// Whether the character at `j` does not continue the number into a
/// fraction or exponent; an integer field requires this.
pub open spec fn int_boundary(s: Seq<char>, j: int) -> bool {
    j >= s.len() || (s[j] != '.' && s[j] != 'e' && s[j] != 'E')
}

pub fn digit_char(c: char) -> (r: bool)
    ensures
        r == is_digit(c),
{
    let u = c as u32;
    48 <= u && u <= 57
}

fn digits_end(s: &str, i: usize) -> (r: usize)
    requires
        i <= s@.len(),
    ensures
        r == end_digits(s@, i as int),
        i <= r <= s@.len(),
{
    let n = s.unicode_len();
    let mut j: usize = i;
    while j < n && digit_char(s.get_char(j))
        invariant
            n == s@.len(),
            i <= j <= n,
            end_digits(s@, j as int) == end_digits(s@, i as int),
        decreases n - j,
    {
        j = j + 1;
    }
    proof {
        lemma_end_digits(s@, i as int);
    }
    j
}

/// Parses an unsigned integer token, failing on values over `usize::MAX`
/// exactly where the grammar's value is over it.
pub fn parse_uint(s: &str, i: usize) -> (r: Option<(usize, usize)>)
    requires
        i <= s@.len(),
    ensures
        match r {
            Some(p) => spec_uint_token(s@, i as int) == Some((p.0 as int, p.1 as int)) && i < p.1
                <= s@.len(),
            None => spec_uint_token(s@, i as int) is None || (spec_uint_token(s@, i as int)
                matches Some(q) && q.0 > usize::MAX),
        },
{
    let n = s.unicode_len();
    if i >= n || !digit_char(s.get_char(i)) {
        return None;
    }
    if s.get_char(i) == '0' {
        return Some((0, i + 1));
    }
    let e = digits_end(s, i);
    proof {
        lemma_end_digits(s@, i as int);
        assert(e > i);
    }
    let mut acc: usize = 0;
    let mut j: usize = i;
    while j < e
        invariant
            i <= j <= e <= s@.len(),
            e == end_digits(s@, i as int),
            forall|l: int| i <= l < e ==> is_digit(s@[l]),
            acc == digits_val(s@, i as int, j as int),
            spec_uint_token(s@, i as int) == Some(
                (digits_val(s@, i as int, e as int), e as int),
            ),
        decreases e - j,
    {
        let c = s.get_char(j);
        let d: usize = ((c as u32) - 48) as usize;
        let m = match acc.checked_mul(10) {
            Some(x) => x,
            None => {
                proof {
                    assert(is_digit(s@[j as int]));
                    assert(digit_val(s@[j as int]) >= 0);
                    assert(digits_val(s@, i as int, j as int + 1) == acc * 10 + digit_val(
                        s@[j as int],
                    ));
                    assert(digits_val(s@, i as int, j as int + 1) > usize::MAX);
                    lemma_digits_val_mono(s@, i as int, j as int + 1, e as int);
                    assert(spec_uint_token(s@, i as int) == Some(
                        (digits_val(s@, i as int, e as int), e as int),
                    ));
                }
                return None;
            },
        };
        let a = match m.checked_add(d) {
            Some(x) => x,
            None => {
                proof {
                    assert(is_digit(s@[j as int]));
                    assert(digits_val(s@, i as int, j as int + 1) == acc * 10 + digit_val(
                        s@[j as int],
                    ));
                    assert(digits_val(s@, i as int, j as int + 1) > usize::MAX);
                    lemma_digits_val_mono(s@, i as int, j as int + 1, e as int);
                    assert(spec_uint_token(s@, i as int) == Some(
                        (digits_val(s@, i as int, e as int), e as int),
                    ));
                }
                return None;
            },
        };
        acc = a;
        j = j + 1;
    }
    proof {
        assert(spec_uint_token(s@, i as int) == Some(
            (digits_val(s@, i as int, e as int), e as int),
        ));
    }
    Some((acc, e))
}

/// Parses an unsigned integer token into a 64-bit value, failing on
/// values over `u64::MAX` exactly where the grammar's value is over it.
pub fn parse_u64_at(s: &str, i: usize) -> (r: Option<(u64, usize)>)
    requires
        i <= s@.len(),
    ensures
        match r {
            Some(p) => spec_uint_token(s@, i as int) == Some((p.0 as int, p.1 as int)) && i < p.1
                <= s@.len(),
            None => spec_uint_token(s@, i as int) is None || (spec_uint_token(s@, i as int)
                matches Some(q) && q.0 > u64::MAX),
        },
{
    let n = s.unicode_len();
    if i >= n || !digit_char(s.get_char(i)) {
        return None;
    }
    if s.get_char(i) == '0' {
        return Some((0, i + 1));
    }
    let e = digits_end(s, i);
    proof {
        lemma_end_digits(s@, i as int);
        assert(e > i);
    }
    let mut acc: u64 = 0;
    let mut j: usize = i;
    while j < e
        invariant
            i <= j <= e <= s@.len(),
            e == end_digits(s@, i as int),
            forall|l: int| i <= l < e ==> is_digit(s@[l]),
            acc == digits_val(s@, i as int, j as int),
            spec_uint_token(s@, i as int) == Some(
                (digits_val(s@, i as int, e as int), e as int),
            ),
        decreases e - j,
    {
        let c = s.get_char(j);
        let d: u64 = (((c as u32) - 48) as u64);
        let m = match acc.checked_mul(10) {
            Some(x) => x,
            None => {
                proof {
                    assert(is_digit(s@[j as int]));
                    assert(digit_val(s@[j as int]) >= 0);
                    assert(digits_val(s@, i as int, j as int + 1) == acc * 10 + digit_val(
                        s@[j as int],
                    ));
                    assert(digits_val(s@, i as int, j as int + 1) > u64::MAX);
                    lemma_digits_val_mono(s@, i as int, j as int + 1, e as int);
                }
                return None;
            },
        };
        let a = match m.checked_add(d) {
            Some(x) => x,
            None => {
                proof {
                    assert(is_digit(s@[j as int]));
                    assert(digits_val(s@, i as int, j as int + 1) == acc * 10 + digit_val(
                        s@[j as int],
                    ));
                    assert(digits_val(s@, i as int, j as int + 1) > u64::MAX);
                    lemma_digits_val_mono(s@, i as int, j as int + 1, e as int);
                }
                return None;
            },
        };
        acc = a;
        j = j + 1;
    }
    Some((acc, e))
}

/// A position-only scan of an unsigned integer token.
fn skip_uint(s: &str, i: usize) -> (r: Option<usize>)
    requires
        i <= s@.len(),
    ensures
        match r {
            Some(j) => spec_uint_token(s@, i as int) matches Some(q) && q.1 == j as int && i < j
                <= s@.len(),
            None => spec_uint_token(s@, i as int) is None,
        },
{
    let n = s.unicode_len();
    if i >= n || !digit_char(s.get_char(i)) {
        return None;
    }
    if s.get_char(i) == '0' {
        return Some(i + 1);
    }
    let e = digits_end(s, i);
    proof {
        lemma_end_digits(s@, i as int);
    }
    Some(e)
}

/// Whether the characters of `w` stand in `s` starting at `i`.
pub open spec fn lit_at(s: Seq<char>, i: int, w: Seq<char>) -> bool {
    0 <= i && i + w.len() <= s.len() && s.subrange(i, i + w.len()) == w
}

pub fn word_at(s: &str, i: usize, w: &str) -> (r: bool)
    requires
        i <= s@.len(),
    ensures
        r == lit_at(s@, i as int, w@),
{
    let n = s.unicode_len();
    let m = w.unicode_len();
    if n - i < m {
        return false;
    }
    let mut k: usize = 0;
    while k < m
        invariant
            n == s@.len(),
            m == w@.len(),
            i + m <= n,
            0 <= k <= m,
            forall|l: int| 0 <= l < k ==> s@[i + l] == w@[l],
        decreases m - k,
    {
        if s.get_char(i + k) != w.get_char(k) {
            proof {
                assert(s@.subrange(i as int, i as int + m) != w@) by {
                    if s@.subrange(i as int, i as int + m) == w@ {
                        assert(s@.subrange(i as int, i as int + m)[k as int] == w@[k as int]);
                        assert(false);
                    }
                }
            }
            return false;
        }
        k = k + 1;
    }
    proof {
        assert(s@.subrange(i as int, i as int + m) =~= w@);
    }
    true
}

/// The position after a whole JSON number token starting at `i` (an
/// optional sign, an integer part, optional fraction and exponent), scanned
/// without interpreting its value.
pub open spec fn spec_skip_number(s: Seq<char>, i: int) -> Option<int> {
    let a = if 0 <= i < s.len() && s[i] == '-' {
        i + 1
    } else {
        i
    };
    match spec_uint_token(s, a) {
        None => None,
        Some(t) => {
            let j = t.1;
            let k = if j < s.len() && s[j] == '.' {
                if j + 1 < s.len() && is_digit(s[j + 1]) {
                    end_digits(s, j + 1)
                } else {
                    -1
                }
            } else {
                j
            };
            if k < 0 {
                None
            } else {
                let m = if k < s.len() && (s[k] == 'e' || s[k] == 'E') {
                    let e0 = if k + 1 < s.len() && (s[k + 1] == '+' || s[k + 1] == '-') {
                        k + 2
                    } else {
                        k + 1
                    };
                    if e0 < s.len() && is_digit(s[e0]) {
                        end_digits(s, e0)
                    } else {
                        -1
                    }
                } else {
                    k
                };
                if m < 0 {
                    None
                } else {
                    Some(m)
                }
            }
        },
    }
}

fn skip_number(s: &str, i: usize) -> (r: Option<usize>)
    requires
        i <= s@.len(),
    ensures
        match r {
            Some(j) => spec_skip_number(s@, i as int) == Some(j as int) && j <= s@.len(),
            None => spec_skip_number(s@, i as int) is None,
        },
{
    let n = s.unicode_len();
    let a = if i < n && s.get_char(i) == '-' {
        i + 1
    } else {
        i
    };
    let j = match skip_uint(s, a) {
        Some(x) => x,
        None => {
            return None;
        },
    };
    let k = if j < n && s.get_char(j) == '.' {
        if j + 1 < n && digit_char(s.get_char(j + 1)) {
            digits_end(s, j + 1)
        } else {
            return None;
        }
    } else {
        j
    };
    if k < n && (s.get_char(k) == 'e' || s.get_char(k) == 'E') {
        let e0 = if k + 1 < n && (s.get_char(k + 1) == '+' || s.get_char(k + 1) == '-') {
            k + 2
        } else {
            k + 1
        };
        if e0 < n && digit_char(s.get_char(e0)) {
            Some(digits_end(s, e0))
        } else {
            None
        }
    } else {
        Some(k)
    }
}

/// The position after any single JSON value starting at `i`, used to step
/// over fields that the interval schema does not name. The fuel bounds the
/// nesting depth; the top-level parser supplies the text's length, which no
/// well-formed text can exhaust.
pub open spec fn spec_skip_value(s: Seq<char>, i: int, fuel: nat) -> Option<int>
    decreases fuel, 1int ,
{
    if fuel == 0 {
        None
    } else if !(0 <= i < s.len()) {
        None
    } else {
        let c = s[i];
        if c == '"' {
            match spec_str_body(s, i + 1) {
                None => None,
                Some(t) => Some(t.1),
            }
        } else if lit_at(s, i, "true"@) {
            Some(i + 4)
        } else if lit_at(s, i, "false"@) {
            Some(i + 5)
        } else if lit_at(s, i, "null"@) {
            Some(i + 4)
        } else if c == '-' || is_digit(c) {
            spec_skip_number(s, i)
        } else if c == '[' {
            let j = skip_ws(s, i + 1);
            if j < s.len() && s[j] == ']' {
                Some(j + 1)
            } else {
                spec_skip_items(s, j, (fuel - 1) as nat)
            }
        } else if c == '{' {
            let j = skip_ws(s, i + 1);
            if j < s.len() && s[j] == '}' {
                Some(j + 1)
            } else {
                spec_skip_members(s, j, (fuel - 1) as nat)
            }
        } else {
            None
        }
    }
}

/// The position after the remaining comma-separated items of an array whose
/// first item starts at `i`, including the closing bracket.
pub open spec fn spec_skip_items(s: Seq<char>, i: int, fuel: nat) -> Option<int>
    decreases fuel, 0int ,
{
    if fuel == 0 {
        None
    } else {
        match spec_skip_value(s, i, (fuel - 1) as nat) {
            None => None,
            Some(j) => if !(0 <= j <= s.len()) {
                None
            } else {
                let k = skip_ws(s, j);
                if k < s.len() && s[k] == ',' {
                    spec_skip_items(s, skip_ws(s, k + 1), (fuel - 1) as nat)
                } else if k < s.len() && s[k] == ']' {
                    Some(k + 1)
                } else {
                    None
                }
            },
        }
    }
}

/// The position after the remaining members of an object whose first key
/// starts at `i`, including the closing brace.
pub open spec fn spec_skip_members(s: Seq<char>, i: int, fuel: nat) -> Option<int>
    decreases fuel, 0int ,
{
    if fuel == 0 {
        None
    } else {
        match spec_string(s, i) {
            None => None,
            Some(t) => if !(0 <= t.1 <= s.len()) {
                None
            } else {
                let k = skip_ws(s, t.1);
                if k < s.len() && s[k] == ':' {
                    match spec_skip_value(s, skip_ws(s, k + 1), (fuel - 1) as nat) {
                        None => None,
                        Some(j) => if !(0 <= j <= s.len()) {
                            None
                        } else {
                            let m = skip_ws(s, j);
                            if m < s.len() && s[m] == ',' {
                                spec_skip_members(s, skip_ws(s, m + 1), (fuel - 1) as nat)
                            } else if m < s.len() && s[m] == '}' {
                                Some(m + 1)
                            } else {
                                None
                            }
                        },
                    }
                } else {
                    None
                }
            },
        }
    }
}

/// Steps over any single JSON value starting at `i`.
pub fn skip_value_at(s: &str, i: usize, fuel: usize) -> (r: Option<usize>)
    requires
        i <= s@.len(),
    ensures
        match r {
            Some(j) => spec_skip_value(s@, i as int, fuel as nat) == Some(j as int) && j
                <= s@.len(),
            None => spec_skip_value(s@, i as int, fuel as nat) is None,
        },
    decreases fuel, 1int ,
{
    if fuel == 0 {
        return None;
    }
    let n = s.unicode_len();
    if i >= n {
        return None;
    }
    proof {
        reveal_strlit("true");
        reveal_strlit("false");
        reveal_strlit("null");
    }
    let c = s.get_char(i);
    if c == '"' {
        match parse_str_body(s, i + 1) {
            None => None,
            Some(t) => Some(t.1),
        }
    } else if word_at(s, i, "true") {
        Some(i + 4)
    } else if word_at(s, i, "false") {
        Some(i + 5)
    } else if word_at(s, i, "null") {
        Some(i + 4)
    } else if c == '-' || digit_char(c) {
        skip_number(s, i)
    } else if c == '[' {
        let j = ws_to(s, i + 1);
        if j < n && s.get_char(j) == ']' {
            Some(j + 1)
        } else {
            skip_items(s, j, fuel - 1)
        }
    } else if c == '{' {
        let j = ws_to(s, i + 1);
        if j < n && s.get_char(j) == '}' {
            Some(j + 1)
        } else {
            skip_members(s, j, fuel - 1)
        }
    } else {
        None
    }
}

fn skip_items(s: &str, i: usize, fuel: usize) -> (r: Option<usize>)
    requires
        i <= s@.len(),
    ensures
        match r {
            Some(j) => spec_skip_items(s@, i as int, fuel as nat) == Some(j as int) && j
                <= s@.len(),
            None => spec_skip_items(s@, i as int, fuel as nat) is None,
        },
    decreases fuel, 0int ,
{
    if fuel == 0 {
        return None;
    }
    let n = s.unicode_len();
    match skip_value_at(s, i, fuel - 1) {
        None => None,
        Some(j) => {
            let k = ws_to(s, j);
            if k < n && s.get_char(k) == ',' {
                skip_items(s, ws_to(s, k + 1), fuel - 1)
            } else if k < n && s.get_char(k) == ']' {
                Some(k + 1)
            } else {
                None
            }
        },
    }
}

fn skip_members(s: &str, i: usize, fuel: usize) -> (r: Option<usize>)
    requires
        i <= s@.len(),
    ensures
        match r {
            Some(j) => spec_skip_members(s@, i as int, fuel as nat) == Some(j as int) && j
                <= s@.len(),
            None => spec_skip_members(s@, i as int, fuel as nat) is None,
        },
    decreases fuel, 0int ,
{
    if fuel == 0 {
        return None;
    }
    let n = s.unicode_len();
    match parse_string(s, i) {
        None => None,
        Some(t) => {
            let k = ws_to(s, t.1);
            if k < n && s.get_char(k) == ':' {
                match skip_value_at(s, ws_to(s, k + 1), fuel - 1) {
                    None => None,
                    Some(j) => {
                        let m = ws_to(s, j);
                        if m < n && s.get_char(m) == ',' {
                            skip_members(s, ws_to(s, m + 1), fuel - 1)
                        } else if m < n && s.get_char(m) == '}' {
                            Some(m + 1)
                        } else {
                            None
                        }
                    },
                }
            } else {
                None
            }
        },
    }
}


/// One raw interval record as it stands on the wire, before id inference.
#[verifier::ext_equal]
pub ghost struct RawLogView {
    pub id: Option<int>,
    pub start: Seq<char>,
    pub end: Option<Seq<char>>,
    pub tags: Seq<Seq<char>>,
}

/// One raw interval record: the wire form of an interval, whose id may be
/// absent under the older protocol.
pub struct RawLog {
    pub id: Option<usize>,
    pub start: String,
    pub end: Option<String>,
    pub tags: Vec<String>,
}

impl View for RawLog {
    type V = RawLogView;

    open spec fn view(&self) -> RawLogView {
        RawLogView {
            id: match self.id {
                Some(n) => Some(n as int),
                None => None,
            },
            start: self.start@,
            end: match self.end {
                Some(e) => Some(e@),
                None => None,
            },
            tags: views(self.tags@),
        }
    }
}

/// The views of a sequence of raw records.
pub open spec fn raw_views(v: Seq<RawLog>) -> Seq<RawLogView> {
    v.map_values(|r: RawLog| r@)
}

/// The comma-separated string items of a tag array from the first item at
/// `i` through the closing bracket.
pub open spec fn spec_tag_items(s: Seq<char>, i: int, fuel: nat) -> Option<(Seq<Seq<char>>, int)>
    decreases fuel,
{
    if fuel == 0 {
        None
    } else {
        match spec_string(s, i) {
            None => None,
            Some(t) => if !(0 <= t.1 <= s.len()) {
                None
            } else {
                let k = skip_ws(s, t.1);
                if k < s.len() && s[k] == ',' {
                    match spec_tag_items(s, skip_ws(s, k + 1), (fuel - 1) as nat) {
                        None => None,
                        Some(rest) => Some((seq![t.0] + rest.0, rest.1)),
                    }
                } else if k < s.len() && s[k] == ']' {
                    Some((seq![t.0], k + 1))
                } else {
                    None
                }
            },
        }
    }
}

/// A whole tag array starting at its opening bracket.
pub open spec fn spec_tags(s: Seq<char>, i: int, fuel: nat) -> Option<(Seq<Seq<char>>, int)> {
    if 0 <= i < s.len() && s[i] == '[' {
        let j = skip_ws(s, i + 1);
        if j < s.len() && s[j] == ']' {
            Some((Seq::empty(), j + 1))
        } else {
            spec_tag_items(s, j, fuel)
        }
    } else {
        None
    }
}

/// The fields of a record gathered so far; presence is tracked apart from
/// the value so that a repeated field is refused.
#[verifier::ext_equal]
pub ghost struct FieldsView {
    pub has_id: bool,
    pub id: Option<int>,
    pub start: Option<Seq<char>>,
    pub has_end: bool,
    pub end: Option<Seq<char>>,
    pub tags: Option<Seq<Seq<char>>>,
}

pub open spec fn empty_fields() -> FieldsView {
    FieldsView { has_id: false, id: None, start: None, has_end: false, end: None, tags: None }
}

struct Fields {
    has_id: bool,
    id: Option<usize>,
    start: Option<String>,
    has_end: bool,
    end: Option<String>,
    tags: Option<Vec<String>>,
}

impl View for Fields {
    type V = FieldsView;

    closed spec fn view(&self) -> FieldsView {
        FieldsView {
            has_id: self.has_id,
            id: match self.id {
                Some(n) => Some(n as int),
                None => None,
            },
            start: match self.start {
                Some(st) => Some(st@),
                None => None,
            },
            has_end: self.has_end,
            end: match self.end {
                Some(e) => Some(e@),
                None => None,
            },
            tags: match self.tags {
                Some(tg) => Some(views(tg@)),
                None => None,
            },
        }
    }
}

/// One field's value at `v` folded into the accumulator, under the record
/// schema: `id` an integer or null, `start` a string, `end` a string or
/// null, `tags` an array of strings, and any other field skipped whole.
pub open spec fn spec_field_value(
    s: Seq<char>,
    v: int,
    key: Seq<char>,
    acc: FieldsView,
    fuel: nat,
) -> Option<(FieldsView, int)> {
    if key == "id"@ {
        if acc.has_id {
            None
        } else if lit_at(s, v, "null"@) {
            Some((FieldsView { has_id: true, id: None, ..acc }, v + 4))
        } else {
            match spec_uint_token(s, v) {
                None => None,
                Some(t) => if int_boundary(s, t.1) && t.0 <= usize::MAX as int {
                    Some((FieldsView { has_id: true, id: Some(t.0), ..acc }, t.1))
                } else {
                    None
                },
            }
        }
    } else if key == "start"@ {
        if acc.start is Some {
            None
        } else {
            match spec_string(s, v) {
                None => None,
                Some(t) => Some((FieldsView { start: Some(t.0), ..acc }, t.1)),
            }
        }
    } else if key == "end"@ {
        if acc.has_end {
            None
        } else if lit_at(s, v, "null"@) {
            Some((FieldsView { has_end: true, end: None, ..acc }, v + 4))
        } else {
            match spec_string(s, v) {
                None => None,
                Some(t) => Some((FieldsView { has_end: true, end: Some(t.0), ..acc }, t.1)),
            }
        }
    } else if key == "tags"@ {
        if acc.tags is Some {
            None
        } else {
            match spec_tags(s, v, fuel) {
                None => None,
                Some(t) => Some((FieldsView { tags: Some(t.0), ..acc }, t.1)),
            }
        }
    } else {
        match spec_skip_value(s, v, fuel) {
            None => None,
            Some(j) => Some((acc, j)),
        }
    }
}

/// A finished record from its gathered fields: `start` and `tags` are
/// required, `id` and `end` may be absent.
pub open spec fn finish_record(acc: FieldsView) -> Option<RawLogView> {
    match (acc.start, acc.tags) {
        (Some(st), Some(tg)) => Some(RawLogView { id: acc.id, start: st, end: acc.end, tags: tg }),
        _ => None,
    }
}

/// The members of a record object from the key at `i` through the closing
/// brace.
pub open spec fn spec_fields(s: Seq<char>, i: int, acc: FieldsView, fuel: nat) -> Option<
    (RawLogView, int),
>
    decreases fuel,
{
    if fuel == 0 {
        None
    } else {
        match spec_string(s, i) {
            None => None,
            Some(kt) => if !(0 <= kt.1 <= s.len()) {
                None
            } else {
                let k = skip_ws(s, kt.1);
                if !(k < s.len() && s[k] == ':') {
                    None
                } else {
                    let v = skip_ws(s, k + 1);
                    match spec_field_value(s, v, kt.0, acc, (fuel - 1) as nat) {
                        None => None,
                        Some(st) => if !(0 <= st.1 <= s.len()) {
                            None
                        } else {
                            let m = skip_ws(s, st.1);
                            if m < s.len() && s[m] == ',' {
                                spec_fields(s, skip_ws(s, m + 1), st.0, (fuel - 1) as nat)
                            } else if m < s.len() && s[m] == '}' {
                                match finish_record(st.0) {
                                    None => None,
                                    Some(rv) => Some((rv, m + 1)),
                                }
                            } else {
                                None
                            }
                        },
                    }
                }
            },
        }
    }
}

/// A whole record object starting at its opening brace.
pub open spec fn spec_record(s: Seq<char>, i: int, fuel: nat) -> Option<(RawLogView, int)> {
    if 0 <= i < s.len() && s[i] == '{' {
        let j = skip_ws(s, i + 1);
        if j < s.len() && s[j] == '}' {
            None
        } else {
            spec_fields(s, j, empty_fields(), fuel)
        }
    } else {
        None
    }
}

/// The comma-separated records of the payload array from the first record
/// at `i` through the closing bracket.
pub open spec fn spec_records(s: Seq<char>, i: int, fuel: nat) -> Option<(Seq<RawLogView>, int)>
    decreases fuel,
{
    if fuel == 0 {
        None
    } else {
        match spec_record(s, i, (fuel - 1) as nat) {
            None => None,
            Some(rt) => if !(0 <= rt.1 <= s.len()) {
                None
            } else {
                let k = skip_ws(s, rt.1);
                if k < s.len() && s[k] == ',' {
                    match spec_records(s, skip_ws(s, k + 1), (fuel - 1) as nat) {
                        None => None,
                        Some(rest) => Some((seq![rt.0] + rest.0, rest.1)),
                    }
                } else if k < s.len() && s[k] == ']' {
                    Some((seq![rt.0], k + 1))
                } else {
                    None
                }
            },
        }
    }
}

/// The whole payload text as a sequence of raw records: a well-formed JSON
/// array of interval objects with nothing but whitespace around it.
pub open spec fn spec_payload(s: Seq<char>) -> Option<Seq<RawLogView>> {
    let i = skip_ws(s, 0);
    if i < s.len() && s[i] == '[' {
        let j = skip_ws(s, i + 1);
        if j < s.len() && s[j] == ']' {
            if skip_ws(s, j + 1) == s.len() {
                Some(Seq::empty())
            } else {
                None
            }
        } else {
            match spec_records(s, j, s.len()) {
                None => None,
                Some(rt) => if !(0 <= rt.1 <= s.len()) {
                    None
                } else if skip_ws(s, rt.1) == s.len() {
                    Some(rt.0)
                } else {
                    None
                },
            }
        }
    } else {
        None
    }
}

fn parse_tag_items(s: &str, i: usize, fuel: usize) -> (r: Option<(Vec<String>, usize)>)
    requires
        i <= s@.len(),
    ensures
        match r {
            Some(t) => spec_tag_items(s@, i as int, fuel as nat) == Some(
                (views(t.0@), t.1 as int),
            ) && t.1 <= s@.len(),
            None => spec_tag_items(s@, i as int, fuel as nat) is None,
        },
    decreases fuel,
{
    if fuel == 0 {
        return None;
    }
    let n = s.unicode_len();
    let (first, j) = match parse_string(s, i) {
        Some(t) => t,
        None => {
            return None;
        },
    };
    let k = ws_to(s, j);
    if k < n && s.get_char(k) == ',' {
        let k2 = ws_to(s, k + 1);
        match parse_tag_items(s, k2, fuel - 1) {
            Some(rest) => {
                let mut out = rest.0;
                out.insert(0, first);
                proof {
                    assert(views(out@) =~= seq![first@] + views(rest.0@));
                }
                Some((out, rest.1))
            },
            None => None,
        }
    } else if k < n && s.get_char(k) == ']' {
        let mut out: Vec<String> = Vec::new();
        out.push(first);
        proof {
            assert(views(out@) =~= seq![first@]);
        }
        Some((out, k + 1))
    } else {
        None
    }
}

fn parse_tags(s: &str, i: usize, fuel: usize) -> (r: Option<(Vec<String>, usize)>)
    requires
        i <= s@.len(),
    ensures
        match r {
            Some(t) => spec_tags(s@, i as int, fuel as nat) == Some((views(t.0@), t.1 as int))
                && t.1 <= s@.len(),
            None => spec_tags(s@, i as int, fuel as nat) is None,
        },
{
    let n = s.unicode_len();
    if i < n && s.get_char(i) == '[' {
        let j = ws_to(s, i + 1);
        if j < n && s.get_char(j) == ']' {
            let out: Vec<String> = Vec::new();
            proof {
                assert(views(out@) =~= Seq::<Seq<char>>::empty());
            }
            Some((out, j + 1))
        } else {
            parse_tag_items(s, j, fuel)
        }
    } else {
        None
    }
}

fn parse_field_value(s: &str, v: usize, key: &String, acc: Fields, fuel: usize) -> (r: Option<
    (Fields, usize),
>)
    requires
        v <= s@.len(),
    ensures
        match r {
            Some(t) => spec_field_value(s@, v as int, key@, acc@, fuel as nat) == Some(
                (t.0@, t.1 as int),
            ) && t.1 <= s@.len(),
            None => spec_field_value(s@, v as int, key@, acc@, fuel as nat) is None,
        },
{
    let n = s.unicode_len();
    proof {
        reveal_strlit("null");
    }
    if str_eq(key.as_str(), "id") {
        if acc.has_id {
            None
        } else if word_at(s, v, "null") {
            let out = Fields { has_id: true, id: None, ..acc };
            proof {
                assert(out@ =~~= (FieldsView { has_id: true, id: None, ..acc@ }));
            }
            Some((out, v + 4))
        } else {
            match parse_uint(s, v) {
                None => None,
                Some(t) => {
                    let ok = if t.1 < n {
                        let c = s.get_char(t.1);
                        !(c == '.' || c == 'e' || c == 'E')
                    } else {
                        true
                    };
                    if ok {
                        let out = Fields { has_id: true, id: Some(t.0), ..acc };
                        proof {
                            assert(out@ =~~= (FieldsView {
                                has_id: true,
                                id: Some(t.0 as int),
                                ..acc@
                            }));
                        }
                        Some((out, t.1))
                    } else {
                        None
                    }
                },
            }
        }
    } else if str_eq(key.as_str(), "start") {
        if acc.start.is_some() {
            None
        } else {
            match parse_string(s, v) {
                None => None,
                Some(t) => {
                    let out = Fields { start: Some(t.0), ..acc };
                    proof {
                        assert(out@.start matches Some(st) && st == spec_string(
                            s@,
                            v as int,
                        )->Some_0.0);
                        assert(out@ =~~= (FieldsView {
                            start: spec_field_value(
                                s@,
                                v as int,
                                key@,
                                acc@,
                                fuel as nat,
                            )->Some_0.0.start,
                            ..acc@
                        }));
                    }
                    Some((out, t.1))
                },
            }
        }
    } else if str_eq(key.as_str(), "end") {
        if acc.has_end {
            None
        } else if word_at(s, v, "null") {
            let out = Fields { has_end: true, end: None, ..acc };
            proof {
                assert(out@ =~~= (FieldsView { has_end: true, end: None, ..acc@ }));
            }
            Some((out, v + 4))
        } else {
            match parse_string(s, v) {
                None => None,
                Some(t) => {
                    let ghost sv = t.0@;
                    let out = Fields { has_end: true, end: Some(t.0), ..acc };
                    proof {
                        assert(out@ =~~= (FieldsView { has_end: true, end: Some(sv), ..acc@ }));
                    }
                    Some((out, t.1))
                },
            }
        }
    } else if str_eq(key.as_str(), "tags") {
        if acc.tags.is_some() {
            None
        } else {
            match parse_tags(s, v, fuel) {
                None => None,
                Some(t) => {
                    let ghost tv = views(t.0@);
                    let out = Fields { tags: Some(t.0), ..acc };
                    proof {
                        assert(out@ =~~= (FieldsView { tags: Some(tv), ..acc@ }));
                    }
                    Some((out, t.1))
                },
            }
        }
    } else {
        match skip_value_at(s, v, fuel) {
            None => None,
            Some(j) => Some((acc, j)),
        }
    }
}

fn parse_fields(s: &str, i: usize, acc: Fields, fuel: usize) -> (r: Option<(RawLog, usize)>)
    requires
        i <= s@.len(),
    ensures
        match r {
            Some(t) => spec_fields(s@, i as int, acc@, fuel as nat) == Some((t.0@, t.1 as int))
                && t.1 <= s@.len(),
            None => spec_fields(s@, i as int, acc@, fuel as nat) is None,
        },
    decreases fuel,
{
    if fuel == 0 {
        return None;
    }
    let n = s.unicode_len();
    let (key, j) = match parse_string(s, i) {
        Some(t) => t,
        None => {
            return None;
        },
    };
    let k = ws_to(s, j);
    if !(k < n && s.get_char(k) == ':') {
        return None;
    }
    let v = ws_to(s, k + 1);
    let (acc2, j2) = match parse_field_value(s, v, &key, acc, fuel - 1) {
        Some(t) => t,
        None => {
            return None;
        },
    };
    let m = ws_to(s, j2);
    if m < n && s.get_char(m) == ',' {
        let m2 = ws_to(s, m + 1);
        parse_fields(s, m2, acc2, fuel - 1)
    } else if m < n && s.get_char(m) == '}' {
        let ghost acc2v = acc2@;
        match (acc2.start, acc2.tags) {
            (Some(st), Some(tg)) => {
                let rec = RawLog { id: acc2.id, start: st, end: acc2.end, tags: tg };
                proof {
                    assert(finish_record(acc2v) matches Some(rv) && rec@ =~~= rv);
                }
                Some((rec, m + 1))
            },
            _ => {
                proof {
                    assert(finish_record(acc2v) is None);
                }
                None
            },
        }
    } else {
        None
    }
}

fn parse_record(s: &str, i: usize, fuel: usize) -> (r: Option<(RawLog, usize)>)
    requires
        i <= s@.len(),
    ensures
        match r {
            Some(t) => spec_record(s@, i as int, fuel as nat) == Some((t.0@, t.1 as int)) && t.1
                <= s@.len(),
            None => spec_record(s@, i as int, fuel as nat) is None,
        },
{
    let n = s.unicode_len();
    if i < n && s.get_char(i) == '{' {
        let j = ws_to(s, i + 1);
        if j < n && s.get_char(j) == '}' {
            None
        } else {
            let acc = Fields {
                has_id: false,
                id: None,
                start: None,
                has_end: false,
                end: None,
                tags: None,
            };
            proof {
                assert(acc@ =~~= empty_fields());
            }
            parse_fields(s, j, acc, fuel)
        }
    } else {
        None
    }
}

fn parse_records(s: &str, i: usize, fuel: usize) -> (r: Option<(Vec<RawLog>, usize)>)
    requires
        i <= s@.len(),
    ensures
        match r {
            Some(t) => spec_records(s@, i as int, fuel as nat) == Some(
                (raw_views(t.0@), t.1 as int),
            ) && t.1 <= s@.len(),
            None => spec_records(s@, i as int, fuel as nat) is None,
        },
    decreases fuel,
{
    if fuel == 0 {
        return None;
    }
    let n = s.unicode_len();
    let (first, j) = match parse_record(s, i, fuel - 1) {
        Some(t) => t,
        None => {
            return None;
        },
    };
    let k = ws_to(s, j);
    if k < n && s.get_char(k) == ',' {
        let k2 = ws_to(s, k + 1);
        match parse_records(s, k2, fuel - 1) {
            Some(rest) => {
                let ghost firstv = first@;
                let mut out = rest.0;
                out.insert(0, first);
                proof {
                    assert(raw_views(out@) =~= seq![firstv] + raw_views(rest.0@));
                }
                Some((out, rest.1))
            },
            None => None,
        }
    } else if k < n && s.get_char(k) == ']' {
        let ghost firstv = first@;
        let mut out: Vec<RawLog> = Vec::new();
        out.push(first);
        proof {
            assert(raw_views(out@) =~= seq![firstv]);
        }
        Some((out, k + 1))
    } else {
        None
    }
}

/// Parses the payload text as the array of raw interval records the
/// tracking tool hands over; any malformed text is refused whole.
pub fn parse_payload(s: &str) -> (r: Option<Vec<RawLog>>)
    ensures
        match r {
            Some(v) => spec_payload(s@) == Some(raw_views(v@)),
            None => spec_payload(s@) is None,
        },
{
    let n = s.unicode_len();
    let i = ws_to(s, 0);
    if i < n && s.get_char(i) == '[' {
        let j = ws_to(s, i + 1);
        if j < n && s.get_char(j) == ']' {
            if ws_to(s, j + 1) == n {
                let out: Vec<RawLog> = Vec::new();
                proof {
                    assert(raw_views(out@) =~= Seq::<RawLogView>::empty());
                }
                Some(out)
            } else {
                None
            }
        } else {
            match parse_records(s, j, n) {
                None => None,
                Some(t) => {
                    if ws_to(s, t.1) == n {
                        Some(t.0)
                    } else {
                        None
                    }
                },
            }
        }
    } else {
        None
    }
}


} // verus!
