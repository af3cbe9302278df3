//! Lexical grammar of scalar tokens: integers, floats, date-times, and the
//! string contents of the four quoting styles.
//!
//! Each token's shape is given by a deterministic, longest-match spec
//! scanner over a character sequence; the executable checkers and the parser
//! are proved to agree with these scanners.

use vstd::prelude::*;

use crate::text::{is_digit, str_to_chars};

verus! {

/// Position after an optional `+` or `-` sign.
pub open spec fn sign_skip(s: Seq<char>, i: int) -> int {
    if i < s.len() && (s[i] == '+' || s[i] == '-') {
        i + 1
    } else {
        i
    }
}

/// End of a greedy run of digits and digit-preceded underscores,
/// as in the tail of `1_000`: each underscore must introduce a digit.
pub open spec fn run_end(s: Seq<char>, i: int) -> int
    decreases s.len() - i,
{
    if i < 0 || i > s.len() {
        i
    } else if i < s.len() && is_digit(s[i]) {
        run_end(s, i + 1)
    } else if i + 1 < s.len() && s[i] == '_' && is_digit(s[i + 1]) {
        run_end(s, i + 2)
    } else {
        i
    }
}

/// A run of digits reaching the end of the text scans to the end.
pub proof fn lemma_run_end_digits(s: Seq<char>, i: int)
    requires
        0 <= i <= s.len(),
        forall|j: int| i <= j < s.len() ==> is_digit(#[trigger] s[j]),
    ensures
        run_end(s, i) == s.len(),
    decreases s.len() - i,
{
    if i < s.len() {
        lemma_run_end_digits(s, i + 1);
    }
}

/// End of an integer part: a single `0`, or a nonzero digit followed by a
/// run of digits and underscores.
pub open spec fn ipart_end(s: Seq<char>, i: int) -> Option<int> {
    if 0 <= i < s.len() && is_digit(s[i]) {
        if s[i] != '0' {
            Option::Some(run_end(s, i + 1))
        } else {
            Option::Some(i + 1)
        }
    } else {
        Option::None
    }
}

/// End of an integer token starting at `i`: optional sign, then an
/// integer part.
pub open spec fn integer_end(s: Seq<char>, i: int) -> Option<int> {
    ipart_end(s, sign_skip(s, i))
}

/// End of a fractional part: a dot, a digit, then a digit-underscore run.
pub open spec fn frac_end(s: Seq<char>, i: int) -> Option<int> {
    if 0 <= i && i + 1 < s.len() && s[i] == '.' && is_digit(s[i + 1]) {
        Option::Some(run_end(s, i + 2))
    } else {
        Option::None
    }
}

/// End of an exponent part: `e` or `E`, an optional sign, an integer part.
pub open spec fn exp_end(s: Seq<char>, i: int) -> Option<int> {
    if 0 <= i < s.len() && (s[i] == 'e' || s[i] == 'E') {
        ipart_end(s, sign_skip(s, i + 1))
    } else {
        Option::None
    }
}

/// End of a float token starting at `i`: optional sign and integer part,
/// then a fractional part, an exponent, or both; a bare integer is not a
/// float.
pub open spec fn float_end(s: Seq<char>, i: int) -> Option<int> {
    match integer_end(s, i) {
        Option::None => Option::None,
        Option::Some(j) => match frac_end(s, j) {
            Option::Some(k) => match exp_end(s, k) {
                Option::Some(m) => Option::Some(m),
                Option::None => Option::Some(k),
            },
            Option::None => exp_end(s, j),
        },
    }
}

/// Whether `s` has exactly `k` decimal digits starting at `i`.
pub open spec fn digits_at(s: Seq<char>, i: int, k: int) -> bool {
    0 <= i && i + k <= s.len() && (forall|j: int| i <= j < i + k ==> is_digit(#[trigger] s[j]))
}

/// End of a greedy run of plain digits.
pub open spec fn digit_run_end(s: Seq<char>, i: int) -> int
    decreases s.len() - i,
{
    if 0 <= i < s.len() && is_digit(s[i]) {
        digit_run_end(s, i + 1)
    } else {
        i
    }
}

/// Every character of a digit run is a digit, and the run is maximal.
pub proof fn lemma_digit_run(s: Seq<char>, i: int)
    requires
        0 <= i <= s.len(),
    ensures
        i <= digit_run_end(s, i) <= s.len(),
        forall|k: int| i <= k < digit_run_end(s, i) ==> is_digit(#[trigger] s[k]),
    decreases s.len() - i,
{
    if i < s.len() && is_digit(s[i]) {
        lemma_digit_run(s, i + 1);
    }
}

/// End of a date token `YYYY-MM-DD` starting at `i`.
pub open spec fn date_end(s: Seq<char>, i: int) -> Option<int> {
    if digits_at(s, i, 4) && i + 10 <= s.len() && s[i + 4] == '-' && digits_at(s, i + 5, 2) && s[i
        + 7] == '-' && digits_at(s, i + 8, 2) {
        Option::Some(i + 10)
    } else {
        Option::None
    }
}

/// End of a time token `THH:MM:SS` with optional fraction and offset,
/// starting at `i`.
pub open spec fn time_end(s: Seq<char>, i: int) -> Option<int> {
    if 0 <= i < s.len() && s[i] == 'T' && digits_at(s, i + 1, 2) && i + 9 <= s.len() && s[i + 3]
        == ':' && digits_at(s, i + 4, 2) && s[i + 6] == ':' && digits_at(s, i + 7, 2) {
        let j = if i + 10 < s.len() && s[i + 9] == '.' && is_digit(s[i + 10]) {
            digit_run_end(s, i + 10)
        } else {
            i + 9
        };
        if j < s.len() && s[j] == 'Z' {
            Option::Some(j + 1)
        } else if j < s.len() && (s[j] == '+' || s[j] == '-') && digits_at(s, j + 1, 2) && j + 6
            <= s.len() && s[j + 3] == ':' && digits_at(s, j + 4, 2) {
            Option::Some(j + 6)
        } else {
            Option::Some(j)
        }
    } else {
        Option::None
    }
}

/// End of a date-time token: a date, optionally followed by a time.
pub open spec fn datetime_end(s: Seq<char>, i: int) -> Option<int> {
    match date_end(s, i) {
        Option::None => Option::None,
        Option::Some(j) => match time_end(s, j) {
            Option::Some(k) => Option::Some(k),
            Option::None => Option::Some(j),
        },
    }
}

/// A character allowed unescaped in a basic string.
pub open spec fn basic_unescaped(c: char) -> bool {
    c >= ' ' && c != '"' && c != '\\'
}

/// A character allowed raw in a multi-line basic string.
pub open spec fn ml_basic_char(c: char) -> bool {
    c == '\t' || c == '\n' || c == '\r' || (c >= ' ' && c != '\\')
}

/// A character that may follow a backslash as a one-character escape.
pub open spec fn is_simple_escape(c: char) -> bool {
    c == '"' || c == '\\' || c == '/' || c == 'b' || c == 'f' || c == 'n' || c == 'r' || c == 't'
}

/// A hexadecimal digit.
pub open spec fn is_hex(c: char) -> bool {
    is_digit(c) || ('a' <= c && c <= 'f') || ('A' <= c && c <= 'F')
}

/// Whether `s` has exactly `k` hex digits starting at `i`.
pub open spec fn hex_at(s: Seq<char>, i: int, k: int) -> bool {
    0 <= i && i + k <= s.len() && (forall|j: int| i <= j < i + k ==> is_hex(#[trigger] s[j]))
}

/// Whether the suffix of `s` from `i` is valid basic-string content:
/// unescaped characters and well-formed escapes.
pub open spec fn basic_ok(s: Seq<char>, i: int) -> bool
    decreases s.len() - i,
{
    if i < 0 || i >= s.len() {
        true
    } else if s[i] == '\\' {
        if i + 1 < s.len() && is_simple_escape(s[i + 1]) {
            basic_ok(s, i + 2)
        } else if i + 1 < s.len() && s[i + 1] == 'u' && hex_at(s, i + 2, 4) {
            basic_ok(s, i + 6)
        } else if i + 1 < s.len() && s[i + 1] == 'U' && hex_at(s, i + 2, 8) {
            basic_ok(s, i + 10)
        } else {
            false
        }
    } else if basic_unescaped(s[i]) {
        basic_ok(s, i + 1)
    } else {
        false
    }
}

/// Whether the suffix of `s` from `i` is valid multi-line basic-string
/// content: raw newlines allowed, no unescaped `"""`.
pub open spec fn ml_basic_ok(s: Seq<char>, i: int) -> bool
    decreases s.len() - i,
{
    if i < 0 || i >= s.len() {
        true
    } else if s[i] == '\\' {
        if i + 1 < s.len() && is_simple_escape(s[i + 1]) {
            ml_basic_ok(s, i + 2)
        } else if i + 1 < s.len() && s[i + 1] == 'u' && hex_at(s, i + 2, 4) {
            ml_basic_ok(s, i + 6)
        } else if i + 1 < s.len() && s[i + 1] == 'U' && hex_at(s, i + 2, 8) {
            ml_basic_ok(s, i + 10)
        } else {
            false
        }
    } else if s[i] == '"' && i + 2 < s.len() && s[i + 1] == '"' && s[i + 2] == '"' {
        false
    } else if ml_basic_char(s[i]) {
        ml_basic_ok(s, i + 1)
    } else {
        false
    }
}

/// A character allowed in a literal string.
pub open spec fn literal_char(c: char) -> bool {
    c == '\t' || (c >= ' ' && c != '\'')
}

/// Valid literal-string content: every character allowed, no escapes.
pub open spec fn literal_content_ok(s: Seq<char>) -> bool {
    forall|i: int| 0 <= i < s.len() ==> literal_char(#[trigger] s[i])
}

/// A character allowed in a multi-line literal string.
pub open spec fn ml_literal_char(c: char) -> bool {
    c == '\t' || c == '\n' || c == '\r' || c >= ' '
}

/// Valid multi-line literal-string content: every character allowed and no
/// `'''` inside.
pub open spec fn ml_literal_content_ok(s: Seq<char>) -> bool {
    (forall|i: int| 0 <= i < s.len() ==> ml_literal_char(#[trigger] s[i])) && (forall|i: int|
        0 <= i && i + 2 < s.len() ==> !((#[trigger] s[i]) == '\'' && s[i + 1] == '\'' && s[i + 2]
            == '\''))
}

// --- executable checkers over character vectors ------------------------------

/// Greedy digit-underscore run, from `i`.
pub fn scan_run(s: &Vec<char>, i: usize) -> (r: usize)
    requires
        i <= s@.len(),
    ensures
        r == run_end(s@, i as int),
        i <= r <= s@.len(),
    decreases s@.len() - i,
{
    if i < s.len() && s[i] >= '0' && s[i] <= '9' {
        scan_run(s, i + 1)
    } else if i < s.len() && i + 1 < s.len() && s[i] == '_' && s[i + 1] >= '0' && s[i + 1] <= '9' {
        scan_run(s, i + 2)
    } else {
        i
    }
}

/// Position after an optional sign, from `i`.
pub fn scan_sign(s: &Vec<char>, i: usize) -> (r: usize)
    requires
        i <= s@.len(),
    ensures
        r == sign_skip(s@, i as int),
        i <= r <= s@.len(),
{
    if i < s.len() && (s[i] == '+' || s[i] == '-') {
        i + 1
    } else {
        i
    }
}

/// End of an integer part, from `i`.
pub fn scan_ipart(s: &Vec<char>, i: usize) -> (r: Option<usize>)
    requires
        i <= s@.len(),
    ensures
        match r {
            Option::Some(e) => ipart_end(s@, i as int) == Option::Some(e as int) && i < e
                <= s@.len(),
            Option::None => ipart_end(s@, i as int) is None,
        },
{
    if i < s.len() && s[i] >= '0' && s[i] <= '9' {
        if s[i] != '0' {
            Option::Some(scan_run(s, i + 1))
        } else {
            Option::Some(i + 1)
        }
    } else {
        Option::None
    }
}

/// End of an integer token, from `i`.
pub fn scan_integer(s: &Vec<char>, i: usize) -> (r: Option<usize>)
    requires
        i <= s@.len(),
    ensures
        match r {
            Option::Some(e) => integer_end(s@, i as int) == Option::Some(e as int) && i < e
                <= s@.len(),
            Option::None => integer_end(s@, i as int) is None,
        },
{
    let j = scan_sign(s, i);
    scan_ipart(s, j)
}

/// End of a float token, from `i`.
pub fn scan_float(s: &Vec<char>, i: usize) -> (r: Option<usize>)
    requires
        i <= s@.len(),
    ensures
        match r {
            Option::Some(e) => float_end(s@, i as int) == Option::Some(e as int) && i < e
                <= s@.len(),
            Option::None => float_end(s@, i as int) is None,
        },
{
    let j = match scan_integer(s, i) {
        Option::Some(j) => j,
        Option::None => {
            return Option::None;
        },
    };
    let k = if j < s.len() && j + 1 < s.len() && s[j] == '.' && s[j + 1] >= '0' && s[j + 1] <= '9' {
        Option::Some(scan_run(s, j + 2))
    } else {
        Option::None
    };
    match k {
        Option::Some(k) => {
            if k < s.len() && (s[k] == 'e' || s[k] == 'E') {
                let m = scan_sign(s, k + 1);
                match scan_ipart(s, m) {
                    Option::Some(e) => Option::Some(e),
                    Option::None => Option::Some(k),
                }
            } else {
                Option::Some(k)
            }
        },
        Option::None => {
            if j < s.len() && (s[j] == 'e' || s[j] == 'E') {
                let m = scan_sign(s, j + 1);
                scan_ipart(s, m)
            } else {
                Option::None
            }
        },
    }
}

/// Whether an integer token spans the whole string.
pub fn check_integer(s: &String) -> (b: bool)
    ensures
        b == (integer_end(s@, 0) == Option::Some(s@.len() as int)),
{
    let v = str_to_chars(s.as_str());
    match scan_integer(&v, 0) {
        Option::Some(e) => e == v.len(),
        Option::None => false,
    }
}

/// Whether a float token spans the whole string.
pub fn check_float(s: &String) -> (b: bool)
    ensures
        b == (float_end(s@, 0) == Option::Some(s@.len() as int)),
{
    let v = str_to_chars(s.as_str());
    match scan_float(&v, 0) {
        Option::Some(e) => e == v.len(),
        Option::None => false,
    }
}

/// Whether the whole string is valid basic-string content.
pub fn check_basic_content(s: &String) -> (b: bool)
    ensures
        b == basic_ok(s@, 0),
{
    let v = str_to_chars(s.as_str());
    let mut i: usize = 0;
    loop
        invariant
            i <= v@.len(),
            v@ == s@,
            basic_ok(s@, 0) == basic_ok(s@, i as int),
        decreases v@.len() - i,
    {
        if i >= v.len() {
            return true;
        }
        let c = v[i];
        if c == '\\' {
            if i + 1 < v.len() && is_simple_escape_exec(v[i + 1]) {
                i += 2;
            } else if i + 1 < v.len() && v[i + 1] == 'u' && hex_at_exec(&v, i + 2, 4) {
                i += 6;
            } else if i + 1 < v.len() && v[i + 1] == 'U' && hex_at_exec(&v, i + 2, 8) {
                i += 10;
            } else {
                return false;
            }
        } else if c >= ' ' && c != '"' {
            i += 1;
        } else {
            return false;
        }
    }
}

/// Whether the whole string is valid multi-line basic-string content.
pub fn check_ml_basic_content(s: &String) -> (b: bool)
    ensures
        b == ml_basic_ok(s@, 0),
{
    let v = str_to_chars(s.as_str());
    let mut i: usize = 0;
    loop
        invariant
            i <= v@.len(),
            v@ == s@,
            ml_basic_ok(s@, 0) == ml_basic_ok(s@, i as int),
        decreases v@.len() - i,
    {
        if i >= v.len() {
            return true;
        }
        let c = v[i];
        if c == '\\' {
            if i + 1 < v.len() && is_simple_escape_exec(v[i + 1]) {
                i += 2;
            } else if i + 1 < v.len() && v[i + 1] == 'u' && hex_at_exec(&v, i + 2, 4) {
                i += 6;
            } else if i + 1 < v.len() && v[i + 1] == 'U' && hex_at_exec(&v, i + 2, 8) {
                i += 10;
            } else {
                return false;
            }
        } else if c == '"' && i + 1 < v.len() && i + 2 < v.len() && v[i + 1] == '"' && v[i + 2] == '"' {
            return false;
        } else if c == '\t' || c == '\n' || c == '\r' || c >= ' ' {
            i += 1;
        } else {
            return false;
        }
    }
}

/// Whether the whole string is valid literal-string content.
pub fn check_literal_content(s: &String) -> (b: bool)
    ensures
        b == literal_content_ok(s@),
{
    let v = str_to_chars(s.as_str());
    let n = v.len();
    for i in 0..n
        invariant
            n == v@.len(),
            v@ == s@,
            forall|j: int| 0 <= j < i ==> literal_char(#[trigger] s@[j]),
    {
        let c = v[i];
        if !(c == '\t' || (c >= ' ' && c != '\'')) {
            return false;
        }
    }
    true
}

/// Whether the whole string is valid multi-line literal-string content.
pub fn check_ml_literal_content(s: &String) -> (b: bool)
    ensures
        b == ml_literal_content_ok(s@),
{
    let v = str_to_chars(s.as_str());
    let n = v.len();
    for i in 0..n
        invariant
            n == v@.len(),
            v@ == s@,
            forall|j: int| 0 <= j < i ==> ml_literal_char(#[trigger] s@[j]),
            forall|j: int|
                0 <= j && j + 2 < i ==> !((#[trigger] s@[j]) == '\'' && s@[j + 1] == '\'' && s@[j
                    + 2] == '\''),
    {
        let c = v[i];
        if !(c == '\t' || c == '\n' || c == '\r' || c >= ' ') {
            return false;
        }
        if i >= 2 && c == '\'' && v[i - 1] == '\'' && v[i - 2] == '\'' {
            return false;
        }
    }
    true
}

/// A single character that may follow a backslash.
pub fn is_simple_escape_exec(c: char) -> (b: bool)
    ensures
        b == is_simple_escape(c),
{
    c == '"' || c == '\\' || c == '/' || c == 'b' || c == 'f' || c == 'n' || c == 'r' || c == 't'
}

/// Whether `k` hex digits stand at `i`.
pub fn hex_at_exec(v: &Vec<char>, i: usize, k: usize) -> (b: bool)
    ensures
        b == hex_at(v@, i as int, k as int),
{
    if k > v.len() || i > v.len() - k {
        return false;
    }
    let e = i + k;
    for j in i..e
        invariant
            e == i + k,
            e <= v@.len(),
            forall|m: int| i <= m < j ==> is_hex(#[trigger] v@[m]),
    {
        let c = v[j];
        if !((c >= '0' && c <= '9') || (c >= 'a' && c <= 'f') || (c >= 'A' && c <= 'F')) {
            return false;
        }
    }
    true
}

} // verus!
