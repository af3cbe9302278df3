//! The recursive-descent grammar: consumes a character buffer into the
//! format-preserving document model.
//!
//! Every parsing function returns the node it built together with the
//! position it stopped at, and guarantees that rendering the node
//! reproduces exactly the characters it consumed: round-trip fidelity is
//! built into each contract.

use vstd::prelude::*;

use crate::ast::{
    arr_items_text, doc_render, expr_render, inline_item_text, inline_items_text, keyval_render,
    lemma_arr_items_push, lemma_doc_push, lemma_inline_items_push, lemma_table_segs_push,
    scalar_render, table_render, table_segs_text, vnode_render, ArrayItem, ArrayNode, Expression,
    InlineItem, InlineNode, KeyVal, NLExpression, ScalarNode, TableNode, TableSeg, VNode, WSSep,
};
use crate::lex::{datetime_end, hex_at_exec, is_simple_escape_exec, scan_float, scan_integer};
use crate::text::capture;
use crate::types::{Date, DateTime, PosNeg, StrType, Time, TimeOffset, TimeOffsetAmount, Value};

verus! {

// --- the document grammar, as deterministic spec scanners -------------------
//
// Each spec function gives the exact position its executable counterpart
// stops at, so the parser's contracts pin down not only that rendering
// reproduces the consumed text but also *how far* the grammar reaches on
// every input: full consumption, a stall point, or no progress at all.

/// `x`, but never below `lo`; keeps the scanners' positions monotone by
/// construction so their recursion visibly terminates.
pub open spec fn at_least(x: int, lo: int) -> int {
    if x < lo {
        lo
    } else {
        x
    }
}

/// `x`, held between `lo` and `hi`; keeps the scanners' positions both
/// monotone and in bounds by construction.
pub open spec fn clamped(x: int, lo: int, hi: int) -> int {
    if x < lo {
        lo
    } else if x > hi {
        hi
    } else {
        x
    }
}

/// End of a run of spaces and tabs.
pub open spec fn ws_stop(s: Seq<char>, i: int) -> int
    decreases s.len() - i,
{
    if 0 <= i < s.len() && (s[i] == ' ' || s[i] == '\t') {
        ws_stop(s, i + 1)
    } else {
        i
    }
}

/// End of a newline token: `\n` or `\r\n`.
pub open spec fn nl_stop(s: Seq<char>, i: int) -> Option<int> {
    if 0 <= i < s.len() && s[i] == '\n' {
        Option::Some(i + 1)
    } else if 0 <= i && i < s.len() && i + 1 < s.len() && s[i] == '\r' && s[i + 1] == '\n' {
        Option::Some(i + 2)
    } else {
        Option::None
    }
}

/// A character a comment may hold.
pub open spec fn comment_char(c: char) -> bool {
    c == '\t' || c >= ' '
}

/// End of a run of comment characters.
pub open spec fn comment_run(s: Seq<char>, i: int) -> int
    decreases s.len() - i,
{
    if 0 <= i < s.len() && comment_char(s[i]) {
        comment_run(s, i + 1)
    } else {
        i
    }
}

/// End of a comment token: `#` up to the end of the line.
pub open spec fn comment_stop(s: Seq<char>, i: int) -> Option<int> {
    if 0 <= i < s.len() && s[i] == '#' {
        Option::Some(at_least(comment_run(s, i + 1), i + 1))
    } else {
        Option::None
    }
}

/// End of a run of whitespace, newlines and comments.
pub open spec fn trivia_stop(s: Seq<char>, i: int) -> int
    decreases s.len() - i,
{
    if !(0 <= i < s.len()) {
        i
    } else if s[i] == ' ' || s[i] == '\t' || s[i] == '\n' {
        trivia_stop(s, i + 1)
    } else if s[i] == '\r' && i + 1 < s.len() && s[i + 1] == '\n' {
        trivia_stop(s, i + 2)
    } else if s[i] == '#' {
        trivia_stop(s, clamped(comment_run(s, i + 1), i + 1, s.len() as int))
    } else {
        i
    }
}

/// A character a bare key may hold.
pub open spec fn bare_key_char(c: char) -> bool {
    ('a' <= c && c <= 'z') || ('A' <= c && c <= 'Z') || ('0' <= c && c <= '9') || c == '_' || c
        == '-'
}

/// End of a run of bare-key characters.
pub open spec fn bare_run(s: Seq<char>, i: int) -> int
    decreases s.len() - i,
{
    if 0 <= i < s.len() && bare_key_char(s[i]) {
        bare_run(s, i + 1)
    } else {
        i
    }
}

/// End of a run of basic-string content, escapes included: stops at an
/// unescaped quote or the end of the text, fails on a malformed escape or
/// a control character.
pub open spec fn bcontent_stop(s: Seq<char>, i: int) -> Option<int>
    decreases s.len() - i,
{
    if !(0 <= i < s.len()) {
        Option::Some(i)
    } else if s[i] == '"' {
        Option::Some(i)
    } else if s[i] == '\\' {
        if i + 1 < s.len() && crate::lex::is_simple_escape(s[i + 1]) {
            bcontent_stop(s, i + 2)
        } else if i + 1 < s.len() && s[i + 1] == 'u' && crate::lex::hex_at(s, i + 2, 4) && i + 6
            <= s.len() {
            bcontent_stop(s, i + 6)
        } else if i + 1 < s.len() && s[i + 1] == 'U' && crate::lex::hex_at(s, i + 2, 8) && i + 10
            <= s.len() {
            bcontent_stop(s, i + 10)
        } else {
            Option::None
        }
    } else if s[i] >= ' ' {
        bcontent_stop(s, i + 1)
    } else {
        Option::None
    }
}

/// End of a key token: a bare run, or a basic-quoted token with its
/// closing quote.
pub open spec fn key_stop(s: Seq<char>, i: int) -> Option<int> {
    if 0 <= i < s.len() && bare_key_char(s[i]) {
        Option::Some(at_least(bare_run(s, i + 1), i + 1))
    } else if 0 <= i < s.len() && s[i] == '"' {
        match bcontent_stop(s, i + 1) {
            Option::Some(e) => if e < s.len() && s[e] == '"' {
                Option::Some(e + 1)
            } else {
                Option::None
            },
            Option::None => Option::None,
        }
    } else {
        Option::None
    }
}

/// End of a boolean token: exactly `true` or `false`.
pub open spec fn bool_stop(s: Seq<char>, i: int) -> Option<int> {
    if s.len() >= 4 && 0 <= i <= s.len() - 4 && s[i] == 't' && s[i + 1] == 'r' && s[i + 2] == 'u'
        && s[i + 3] == 'e' {
        Option::Some(i + 4)
    } else if s.len() >= 5 && 0 <= i <= s.len() - 5 && s[i] == 'f' && s[i + 1] == 'a' && s[i + 2]
        == 'l' && s[i + 3] == 's' && s[i + 4] == 'e' {
        Option::Some(i + 5)
    } else {
        Option::None
    }
}

/// Position of the closing `"""` of a multi-line basic string whose
/// content starts at `i`.
pub open spec fn mlb_term(s: Seq<char>, i: int) -> Option<int>
    decreases s.len() - i,
{
    if !(0 <= i < s.len()) {
        Option::None
    } else if s[i] == '"' && i + 1 < s.len() && i + 2 < s.len() && s[i + 1] == '"' && s[i + 2]
        == '"' {
        Option::Some(i)
    } else if s[i] == '\\' {
        if i + 1 < s.len() && crate::lex::is_simple_escape(s[i + 1]) {
            mlb_term(s, i + 2)
        } else if i + 1 < s.len() && s[i + 1] == 'u' && crate::lex::hex_at(s, i + 2, 4) && i + 6
            <= s.len() {
            mlb_term(s, i + 6)
        } else if i + 1 < s.len() && s[i + 1] == 'U' && crate::lex::hex_at(s, i + 2, 8) && i + 10
            <= s.len() {
            mlb_term(s, i + 10)
        } else {
            Option::None
        }
    } else if s[i] == '\t' || s[i] == '\n' || s[i] == '\r' || s[i] >= ' ' {
        mlb_term(s, i + 1)
    } else {
        Option::None
    }
}

/// Position of the closing `'''` of a multi-line literal string whose
/// content starts at `i`.
pub open spec fn mll_term(s: Seq<char>, i: int) -> Option<int>
    decreases s.len() - i,
{
    if !(0 <= i < s.len()) {
        Option::None
    } else if s[i] == '\'' && i + 1 < s.len() && i + 2 < s.len() && s[i + 1] == '\'' && s[i + 2]
        == '\'' {
        Option::Some(i)
    } else if s[i] == '\t' || s[i] == '\n' || s[i] == '\r' || s[i] >= ' ' {
        mll_term(s, i + 1)
    } else {
        Option::None
    }
}

/// Position of the closing quote of a literal string whose content starts
/// at `i`.
pub open spec fn lit_term(s: Seq<char>, i: int) -> Option<int>
    decreases s.len() - i,
{
    if !(0 <= i < s.len()) {
        Option::None
    } else if s[i] == '\'' {
        Option::Some(i)
    } else if s[i] == '\t' || s[i] >= ' ' {
        lit_term(s, i + 1)
    } else {
        Option::None
    }
}

/// End of a string token of any quoting style.
pub open spec fn string_stop(s: Seq<char>, i: int) -> Option<int> {
    if !(0 <= i < s.len()) {
        Option::None
    } else if s[i] == '"' {
        if i + 1 < s.len() && i + 2 < s.len() && s[i + 1] == '"' && s[i + 2] == '"' {
            match mlb_term(s, i + 3) {
                Option::Some(e) => Option::Some(e + 3),
                Option::None => Option::None,
            }
        } else {
            match bcontent_stop(s, i + 1) {
                Option::Some(e) => if e < s.len() && s[e] == '"' {
                    Option::Some(e + 1)
                } else {
                    Option::None
                },
                Option::None => Option::None,
            }
        }
    } else if s[i] == '\'' {
        if i + 1 < s.len() && i + 2 < s.len() && s[i + 1] == '\'' && s[i + 2] == '\'' {
            match mll_term(s, i + 3) {
                Option::Some(e) => Option::Some(e + 3),
                Option::None => Option::None,
            }
        } else {
            match lit_term(s, i + 1) {
                Option::Some(e) => Option::Some(e + 1),
                Option::None => Option::None,
            }
        }
    } else {
        Option::None
    }
}

/// End of a value token: a string, date-time, float, integer, boolean,
/// array or inline table, tried in the parser's order.
pub open spec fn value_stop(s: Seq<char>, i: int) -> Option<int>
    decreases s.len() - i, 1int,
{
    if !(0 <= i < s.len()) {
        Option::None
    } else if s[i] == '"' || s[i] == '\'' {
        string_stop(s, i)
    } else if s[i] == '[' {
        array_stop(s, i)
    } else if s[i] == '{' {
        inline_stop(s, i)
    } else if s[i] == 't' || s[i] == 'f' {
        bool_stop(s, i)
    } else {
        match crate::lex::datetime_end(s, i) {
            Option::Some(e) => Option::Some(e),
            Option::None => match crate::lex::float_end(s, i) {
                Option::Some(e) => Option::Some(e),
                Option::None => crate::lex::integer_end(s, i),
            },
        }
    }
}

/// End of an array token, from its opening bracket.
pub open spec fn array_stop(s: Seq<char>, i: int) -> Option<int>
    decreases s.len() - i, 0int,
{
    if !(0 <= i < s.len() && s[i] == '[') {
        Option::None
    } else {
        let q0 = clamped(trivia_stop(s, i + 1), i + 1, s.len() as int);
        if q0 < s.len() && s[q0] == ']' {
            Option::Some(q0 + 1)
        } else {
            array_tail(s, q0)
        }
    }
}

/// End of an array's remaining elements, from the start of one element.
#[verifier::opaque]
pub open spec fn array_tail(s: Seq<char>, q: int) -> Option<int>
    decreases s.len() - q, 2int,
{
    if !(0 <= q <= s.len()) {
        Option::None
    } else {
        match value_stop(s, q) {
            Option::None => Option::None,
            Option::Some(q2) => {
                let q2c = clamped(q2, q, s.len() as int);
                let q3 = clamped(trivia_stop(s, q2c), q2c, s.len() as int);
                if q3 < s.len() && s[q3] == ',' {
                    let q4 = clamped(trivia_stop(s, q3 + 1), q3 + 1, s.len() as int);
                    if q4 < s.len() && s[q4] == ']' {
                        Option::Some(q4 + 1)
                    } else {
                        array_tail(s, q4)
                    }
                } else if q3 < s.len() && s[q3] == ']' {
                    Option::Some(q3 + 1)
                } else {
                    Option::None
                }
            },
        }
    }
}

/// End of an inline-table token, from its opening brace.
pub open spec fn inline_stop(s: Seq<char>, i: int) -> Option<int>
    decreases s.len() - i, 0int,
{
    if !(0 <= i < s.len() && s[i] == '{') {
        Option::None
    } else {
        let q0 = clamped(ws_stop(s, i + 1), i + 1, s.len() as int);
        if q0 < s.len() && s[q0] == '}' {
            Option::Some(q0 + 1)
        } else {
            inline_tail(s, q0)
        }
    }
}

/// End of an inline table's remaining pairs, from the start of one pair.
#[verifier::opaque]
pub open spec fn inline_tail(s: Seq<char>, q: int) -> Option<int>
    decreases s.len() - q, 2int,
{
    if !(0 <= q <= s.len()) {
        Option::None
    } else {
        match key_stop(s, q) {
            Option::None => Option::None,
            Option::Some(k1) => {
                let k1c = clamped(k1, q, s.len() as int);
                let k2 = clamped(ws_stop(s, k1c), k1c, s.len() as int);
                if !(k2 < s.len() && s[k2] == '=') {
                    Option::None
                } else {
                    let k3 = clamped(ws_stop(s, k2 + 1), k2 + 1, s.len() as int);
                    match value_stop(s, k3) {
                        Option::None => Option::None,
                        Option::Some(q2) => {
                            let q2c = clamped(q2, k3, s.len() as int);
                            let q3 = clamped(ws_stop(s, q2c), q2c, s.len() as int);
                            if q3 < s.len() && s[q3] == ',' {
                                inline_tail(s, clamped(ws_stop(s, q3 + 1), q3 + 1, s.len() as int))
                            } else if q3 < s.len() && s[q3] == '}' {
                                Option::Some(q3 + 1)
                            } else {
                                Option::None
                            }
                        },
                    }
                }
            },
        }
    }
}

/// End of a key-value pair.
pub open spec fn keyval_stop(s: Seq<char>, i: int) -> Option<int> {
    match key_stop(s, i) {
        Option::None => Option::None,
        Option::Some(k1) => {
            let k2 = ws_stop(s, k1);
            if !(0 <= k2 < s.len() && s[k2] == '=') {
                Option::None
            } else {
                let k3 = ws_stop(s, k2 + 1);
                value_stop(s, k3)
            }
        },
    }
}

/// End of a table header's dotted segments and closing bracket, from the
/// position after a key.
pub open spec fn table_tail(s: Seq<char>, q: int, aot: bool) -> Option<int>
    decreases s.len() - q,
{
    if !(0 <= q <= s.len()) {
        Option::None
    } else {
        let q2 = clamped(ws_stop(s, q), q, s.len() as int);
        if q2 < s.len() && s[q2] == '.' {
            let q3 = clamped(ws_stop(s, q2 + 1), q2 + 1, s.len() as int);
            match key_stop(s, q3) {
                Option::Some(q4) => table_tail(s, clamped(q4, q3, s.len() as int), aot),
                Option::None => Option::None,
            }
        } else if aot {
            if q2 < s.len() - 1 && q2 + 1 < s.len() && s[q2] == ']' && s[q2 + 1] == ']' {
                Option::Some(q2 + 2)
            } else {
                Option::None
            }
        } else {
            if q2 < s.len() && s[q2] == ']' {
                Option::Some(q2 + 1)
            } else {
                Option::None
            }
        }
    }
}

/// End of a table header, standard or array-of-tables.
pub open spec fn table_stop(s: Seq<char>, i: int) -> Option<int> {
    if !(0 <= i < s.len() && s[i] == '[') {
        Option::None
    } else {
        let aot = i + 1 < s.len() && s[i + 1] == '[';
        let open_end = if aot {
            i + 2
        } else {
            i + 1
        };
        let q0 = ws_stop(s, open_end);
        match key_stop(s, q0) {
            Option::Some(q) => table_tail(s, clamped(q, q0, s.len() as int), aot),
            Option::None => Option::None,
        }
    }
}

/// End of an expression: leading whitespace, then a table header, a
/// key-value pair, a comment, or nothing, with trailing whitespace and a
/// comment after a header or pair. Total: at worst only whitespace is
/// consumed.
pub open spec fn expr_stop(s: Seq<char>, i: int) -> int {
    let q = ws_stop(s, i);
    match table_stop(s, q) {
        Option::Some(q2) => {
            let q3 = ws_stop(s, q2);
            match comment_stop(s, q3) {
                Option::Some(q4) => q4,
                Option::None => q3,
            }
        },
        Option::None => match keyval_stop(s, q) {
            Option::Some(q2) => {
                let q3 = ws_stop(s, q2);
                match comment_stop(s, q3) {
                    Option::Some(q4) => q4,
                    Option::None => q3,
                }
            },
            Option::None => match comment_stop(s, q) {
                Option::Some(q2) => q2,
                Option::None => q,
            },
        },
    }
}

/// Where the document grammar stops after the expression ending at `p`:
/// as long as a newline follows, another expression is consumed.
pub open spec fn doc_tail(s: Seq<char>, p: int) -> int
    decreases s.len() - p,
{
    if !(0 <= p <= s.len()) {
        p
    } else {
        match nl_stop(s, p) {
            Option::Some(p1) => {
                let p2 = at_least(expr_stop(s, p1), p1);
                if p2 <= s.len() {
                    doc_tail(s, p2)
                } else {
                    p2
                }
            },
            Option::None => p,
        }
    }
}

/// Where the document grammar stops on `s`, scanning from the start: the
/// whole text for a well-formed document, the stall position otherwise.
pub open spec fn doc_stop(s: Seq<char>) -> int {
    doc_tail(s, at_least(expr_stop(s, 0), 0))
}

/// One step of the array scanner, under the facts the parser establishes:
/// after an element and its trivia, a comma continues the scan (or closes
/// on a trailing comma) and a bracket closes it.
pub proof fn lemma_array_tail_step(s: Seq<char>, q: int, q2: int, q3: int)
    requires
        0 <= q <= s.len(),
        value_stop(s, q) == Option::Some(q2),
        q < q2 <= s.len(),
        trivia_stop(s, q2) == q3,
        q2 <= q3 <= s.len(),
    ensures
        q3 < s.len() && s[q3] == ',' ==> ({
            let q4 = clamped(trivia_stop(s, q3 + 1), q3 + 1, s.len() as int);
            array_tail(s, q) == (if q4 < s.len() && s[q4] == ']' {
                Option::Some(q4 + 1)
            } else {
                array_tail(s, q4)
            })
        }),
        q3 < s.len() && s[q3] == ']' ==> array_tail(s, q) == Option::Some(q3 + 1),
        !(q3 < s.len() && (s[q3] == ',' || s[q3] == ']')) ==> array_tail(s, q) is None,
{
    reveal(array_tail);
}

/// The array scanner fails where no element parses.
pub proof fn lemma_array_tail_none(s: Seq<char>, q: int)
    requires
        0 <= q <= s.len(),
        value_stop(s, q) is None,
    ensures
        array_tail(s, q) is None,
{
    reveal(array_tail);
}

/// The facts one parsed `key = value` pair establishes about the scanner
/// positions inside it.
pub open spec fn pair_facts(s: Seq<char>, q: int, k1: int, k2: int, k3: int, q2: int) -> bool {
    &&& key_stop(s, q) == Option::Some(k1)
    &&& q < k1 <= s.len()
    &&& ws_stop(s, k1) == k2
    &&& k1 <= k2 <= s.len()
    &&& k2 < s.len() && s[k2] == '='
    &&& ws_stop(s, k2 + 1) == k3
    &&& k2 + 1 <= k3 <= s.len()
    &&& value_stop(s, k3) == Option::Some(q2)
    &&& k3 < q2 <= s.len()
}

/// One step of the inline-table scanner, under the facts the parser
/// establishes for one `key = value` pair and its whitespace.
pub proof fn lemma_inline_tail_step(
    s: Seq<char>,
    q: int,
    k1: int,
    k2: int,
    k3: int,
    q2: int,
    q3: int,
)
    requires
        0 <= q <= s.len(),
        pair_facts(s, q, k1, k2, k3, q2),
        ws_stop(s, q2) == q3,
        q2 <= q3 <= s.len(),
    ensures
        q3 < s.len() && s[q3] == ',' ==> inline_tail(s, q) == inline_tail(
            s,
            clamped(ws_stop(s, q3 + 1), q3 + 1, s.len() as int),
        ),
        q3 < s.len() && s[q3] == '}' ==> inline_tail(s, q) == Option::Some(q3 + 1),
        !(q3 < s.len() && (s[q3] == ',' || s[q3] == '}')) ==> inline_tail(s, q) is None,
{
    reveal(inline_tail);
}

/// The inline-table scanner fails where a pair does not parse.
pub proof fn lemma_inline_tail_none(s: Seq<char>, q: int, stage: int, k1: int, k2: int, k3: int)
    requires
        0 <= q <= s.len(),
        stage == 0 ==> key_stop(s, q) is None,
        stage != 0 ==> key_stop(s, q) == Option::Some(k1) && q < k1 <= s.len() && ws_stop(s, k1)
            == k2 && k1 <= k2 <= s.len(),
        stage == 1 ==> !(k2 < s.len() && s[k2] == '='),
        stage == 2 ==> k2 < s.len() && s[k2] == '=' && ws_stop(s, k2 + 1) == k3 && k2 + 1 <= k3
            <= s.len() && value_stop(s, k3) is None,
        stage == 0 || stage == 1 || stage == 2,
    ensures
        inline_tail(s, q) is None,
{
    reveal(inline_tail);
}

/// A run of spaces and tabs, captured.
pub fn parse_ws(v: &Vec<char>, pos: usize) -> (r: (String, usize))
    requires
        pos <= v@.len(),
    ensures
        pos <= r.1 <= v@.len(),
        r.0@ == v@.subrange(pos as int, r.1 as int),
        r.1 as int == ws_stop(v@, pos as int),
{
    let mut q = pos;
    while q < v.len() && (v[q] == ' ' || v[q] == '\t')
        invariant
            pos <= q <= v@.len(),
            ws_stop(v@, pos as int) == ws_stop(v@, q as int),
        decreases v@.len() - q,
    {
        q += 1;
    }
    (capture(v, pos, q), q)
}

/// A newline: `\r\n` or `\n`, captured.
pub fn parse_newline(v: &Vec<char>, pos: usize) -> (r: Option<(String, usize)>)
    requires
        pos <= v@.len(),
    ensures
        r matches Some(t) ==> pos < t.1 <= v@.len() && t.0@ == v@.subrange(
            pos as int,
            t.1 as int,
        ) && nl_stop(v@, pos as int) == Option::Some(t.1 as int),
        r is None ==> nl_stop(v@, pos as int) is None,
{
    if pos < v.len() && v[pos] == '\n' {
        Some((capture(v, pos, pos + 1), pos + 1))
    } else if pos < v.len() && pos + 1 < v.len() && v[pos] == '\r' && v[pos + 1] == '\n' {
        Some((capture(v, pos, pos + 2), pos + 2))
    } else {
        None
    }
}

/// A comment: `#` followed by any characters up to the end of the line;
/// the returned text excludes the `#`.
pub fn parse_comment(v: &Vec<char>, pos: usize) -> (r: Option<(String, usize)>)
    requires
        pos <= v@.len(),
    ensures
        r matches Some(t) ==> pos < t.1 <= v@.len() && seq!['#'] + t.0@ == v@.subrange(
            pos as int,
            t.1 as int,
        ) && comment_stop(v@, pos as int) == Option::Some(t.1 as int),
        r is None ==> comment_stop(v@, pos as int) is None,
{
    if pos < v.len() && v[pos] == '#' {
        let mut q = pos + 1;
        while q < v.len() && (v[q] == '\t' || v[q] >= ' ')
            invariant
                pos + 1 <= q <= v@.len(),
                comment_run(v@, pos + 1 as int) == comment_run(v@, q as int),
            decreases v@.len() - q,
        {
            q += 1;
        }
        let text = capture(v, pos + 1, q);
        proof {
            assert(seq!['#'] + text@ =~= v@.subrange(pos as int, q as int));
        }
        Some((text, q))
    } else {
        None
    }
}

/// A run of whitespace, newlines and comments, captured verbatim; used
/// inside arrays, where all three may separate elements.
pub fn parse_trivia(v: &Vec<char>, pos: usize) -> (r: (String, usize))
    requires
        pos <= v@.len(),
    ensures
        pos <= r.1 <= v@.len(),
        r.0@ == v@.subrange(pos as int, r.1 as int),
        r.1 as int == trivia_stop(v@, pos as int),
{
    let mut q = pos;
    loop
        invariant
            pos <= q <= v@.len(),
            trivia_stop(v@, pos as int) == trivia_stop(v@, q as int),
        decreases v@.len() - q,
    {
        if q >= v.len() {
            return (capture(v, pos, q), q);
        }
        let c = v[q];
        if c == ' ' || c == '\t' || c == '\n' {
            q += 1;
        } else if c == '\r' && q + 1 < v.len() && v[q + 1] == '\n' {
            q += 2;
        } else if c == '#' {
            q += 1;
            let ghost q_entry = q;
            while q < v.len() && (v[q] == '\t' || v[q] >= ' ')
                invariant
                    pos < q <= v@.len(),
                    q_entry <= q,
                    comment_run(v@, q_entry as int) == comment_run(v@, q as int),
                decreases v@.len() - q,
            {
                q += 1;
            }
            proof {
                assert(comment_run(v@, q_entry as int) == q);
                assert(trivia_stop(v@, q_entry - 1) == trivia_stop(v@, q as int));
            }
        } else {
            return (capture(v, pos, q), q);
        }
    }
}

/// Whether a character may stand in a bare key.
fn is_bare_key_char(c: char) -> (b: bool)
    ensures
        b == bare_key_char(c),
{
    (c >= 'a' && c <= 'z') || (c >= 'A' && c <= 'Z') || (c >= '0' && c <= '9') || c == '_' || c
        == '-'
}

/// The end of a run of valid basic-string content, escapes included;
/// stops at an unescaped quote, fails on a malformed escape or a raw
/// control character.
fn scan_basic_content(v: &Vec<char>, pos: usize) -> (r: Option<usize>)
    requires
        pos <= v@.len(),
    ensures
        r matches Some(e) ==> pos <= e <= v@.len() && bcontent_stop(v@, pos as int)
            == Option::Some(e as int),
        r is None ==> bcontent_stop(v@, pos as int) is None,
{
    let mut q = pos;
    loop
        invariant
            pos <= q <= v@.len(),
            bcontent_stop(v@, pos as int) == bcontent_stop(v@, q as int),
        decreases v@.len() - q,
    {
        if q >= v.len() {
            return Some(q);
        }
        let c = v[q];
        if c == '"' {
            return Some(q);
        } else if c == '\\' {
            if q + 1 < v.len() && is_simple_escape_exec(v[q + 1]) {
                q += 2;
            } else if q + 1 < v.len() && v[q + 1] == 'u' && hex_at_exec(v, q + 2, 4) && q + 6
                <= v.len() {
                q += 6;
            } else if q + 1 < v.len() && v[q + 1] == 'U' && hex_at_exec(v, q + 2, 8) && q + 10
                <= v.len() {
                q += 10;
            } else {
                return None;
            }
        } else if c >= ' ' {
            q += 1;
        } else {
            return None;
        }
    }
}

/// A key: a bare run of letters, digits, underscores and dashes, or a
/// basic-quoted token captured with its quotes.
pub fn parse_key(v: &Vec<char>, pos: usize) -> (r: Option<(String, usize)>)
    requires
        pos <= v@.len(),
    ensures
        r matches Some(t) ==> pos < t.1 <= v@.len() && t.0@ == v@.subrange(
            pos as int,
            t.1 as int,
        ) && key_stop(v@, pos as int) == Option::Some(t.1 as int),
        r is None ==> key_stop(v@, pos as int) is None,
{
    if pos < v.len() && is_bare_key_char(v[pos]) {
        let mut q = pos + 1;
        while q < v.len() && is_bare_key_char(v[q])
            invariant
                pos < q <= v@.len(),
                bare_run(v@, pos + 1 as int) == bare_run(v@, q as int),
            decreases v@.len() - q,
        {
            q += 1;
        }
        Some((capture(v, pos, q), q))
    } else if pos < v.len() && v[pos] == '"' {
        match scan_basic_content(v, pos + 1) {
            Some(e) => {
                if e < v.len() && v[e] == '"' {
                    Some((capture(v, pos, e + 1), e + 1))
                } else {
                    None
                }
            },
            None => None,
        }
    } else {
        None
    }
}

/// A boolean token: exactly `true` or `false`.
pub fn parse_bool(v: &Vec<char>, pos: usize) -> (r: Option<(bool, usize)>)
    requires
        pos <= v@.len(),
    ensures
        r matches Some(t) ==> pos < t.1 <= v@.len() && (if t.0 {
            seq!['t', 'r', 'u', 'e']
        } else {
            seq!['f', 'a', 'l', 's', 'e']
        }) == v@.subrange(pos as int, t.1 as int) && bool_stop(v@, pos as int) == Option::Some(
            t.1 as int,
        ),
        r is None ==> bool_stop(v@, pos as int) is None,
{
    if v.len() >= 4 && pos <= v.len() - 4 && v[pos] == 't' && v[pos + 1] == 'r' && v[pos + 2] == 'u'
        && v[pos + 3] == 'e' {
        proof {
            assert(seq!['t', 'r', 'u', 'e'] =~= v@.subrange(pos as int, pos + 4 as int));
        }
        Some((true, pos + 4))
    } else if v.len() >= 5 && pos <= v.len() - 5 && v[pos] == 'f' && v[pos + 1] == 'a' && v[pos + 2]
        == 'l' && v[pos + 3] == 's' && v[pos + 4] == 'e' {
        proof {
            assert(seq!['f', 'a', 'l', 's', 'e'] =~= v@.subrange(pos as int, pos + 5 as int));
        }
        Some((false, pos + 5))
    } else {
        None
    }
}

/// Whether `k` decimal digits stand at `i`.
fn digits_at_exec(v: &Vec<char>, i: usize, k: usize) -> (b: bool)
    ensures
        b == crate::lex::digits_at(v@, i as int, k as int),
{
    if k > v.len() || i > v.len() - k {
        return false;
    }
    let e = i + k;
    for j in i..e
        invariant
            e == i + k,
            e <= v@.len(),
            forall|m: int| i <= m < j ==> crate::text::is_digit(#[trigger] v@[m]),
    {
        let c = v[j];
        if !(c >= '0' && c <= '9') {
            return false;
        }
    }
    true
}

/// The end of a greedy run of plain digits, from `i`.
fn digit_run_exec(v: &Vec<char>, i: usize) -> (r: usize)
    requires
        i <= v@.len(),
    ensures
        r == crate::lex::digit_run_end(v@, i as int),
        i <= r <= v@.len(),
    decreases v@.len() - i,
{
    if i < v.len() && v[i] >= '0' && v[i] <= '9' {
        digit_run_exec(v, i + 1)
    } else {
        i
    }
}

/// A date-time token, its components captured exactly as written.
#[verifier::rlimit(50)]
pub fn parse_datetime(v: &Vec<char>, pos: usize) -> (r: Option<(DateTime, usize)>)
    requires
        pos <= v@.len(),
    ensures
        r matches Some(t) ==> pos < t.1 <= v@.len() && crate::types::datetime_render(t.0)
            == v@.subrange(pos as int, t.1 as int) && datetime_end(v@, pos as int) == Option::Some(
            t.1 as int,
        ) && crate::types::datetime_fields(v@, pos as int, t.0, t.1 as int),
        r is None ==> datetime_end(v@, pos as int) is None,
{
    if !(digits_at_exec(v, pos, 4) && v.len() >= 10 && pos <= v.len() - 10 && v[pos + 4] == '-'
        && digits_at_exec(
        v,
        pos + 5,
        2,
    ) && v[pos + 7] == '-' && digits_at_exec(v, pos + 8, 2)) {
        return None;
    }
    let date = Date {
        year: capture(v, pos, pos + 4),
        month: capture(v, pos + 5, pos + 7),
        day: capture(v, pos + 8, pos + 10),
    };
    let j = pos + 10;
    proof {
        assert(crate::types::date_render(date) =~= v@.subrange(pos as int, j as int));
    }
    if !(j < v.len() && v[j] == 'T' && digits_at_exec(v, j + 1, 2) && v.len() >= 9 && j <= v.len()
        - 9 && v[j + 3] == ':' && digits_at_exec(v, j + 4, 2) && v[j + 6] == ':' && digits_at_exec(
        v,
        j + 7,
        2,
    )) {
        let dt = DateTime { date, time: Option::None };
        return Some((dt, j));
    }
    let hour = capture(v, j + 1, j + 3);
    let minute = capture(v, j + 4, j + 6);
    let second = capture(v, j + 7, j + 9);
    let mut k = j + 9;
    let fraction: Option<String> = if k < v.len() && k + 1 < v.len() && v[k] == '.' && v[k + 1]
        >= '0' && v[k + 1] <= '9' {
        let e = digit_run_exec(v, k + 1);
        let f = capture(v, k + 1, e);
        k = e;
        Option::Some(f)
    } else {
        Option::None
    };
    let ghost k_before_offset = k;
    let offset: Option<TimeOffset> = if k < v.len() && v[k] == 'Z' {
        k = k + 1;
        Option::Some(TimeOffset::Zulu)
    } else if k < v.len() && (v[k] == '+' || v[k] == '-') && digits_at_exec(v, k + 1, 2) && v.len()
        >= 6 && k <= v.len() - 6 && v[k + 3] == ':' && digits_at_exec(v, k + 4, 2) {
        let amount = TimeOffsetAmount {
            pos_neg: if v[k] == '+' {
                PosNeg::Pos
            } else {
                PosNeg::Neg
            },
            hour: capture(v, k + 1, k + 3),
            minute: capture(v, k + 4, k + 6),
        };
        k = k + 6;
        Option::Some(TimeOffset::Time(amount))
    } else {
        Option::None
    };
    let time = Time { hour, minute, second, fraction, offset };
    proof {
        let s = v@;
        let jj = j as int;
        let k9 = jj + 10;
        let kb = k_before_offset as int;
        let kk = k as int;
        assert(seq!['T'] + time.hour@ + seq![':'] + time.minute@ + seq![':'] + time.second@
            =~= s.subrange(jj, jj + 9));
        match &time.fraction {
            Option::Some(f) => {
                assert(seq!['.'] + f@ =~= s.subrange(jj + 9, kb));
                assert(time.fraction matches Option::Some(ff) && ff@ == f@);
            },
            Option::None => {
                assert(kb == jj + 9);
            },
        }
        match &time.offset {
            Option::Some(TimeOffset::Zulu) => {
                assert(seq!['Z'] =~= s.subrange(kb, kk));
            },
            Option::Some(TimeOffset::Time(a)) => {
                assert(crate::types::toa_render(*a) =~= s.subrange(kb, kk));
            },
            Option::None => {
                assert(kb == kk);
            },
        }
        crate::text::lemma_subrange_split(s, jj, jj + 9, kb);
        crate::text::lemma_subrange_split(s, jj, kb, kk);
        assert(crate::types::time_render(time) == s.subrange(jj, kk));
        crate::text::lemma_subrange_split(s, pos as int, jj, kk);
        assert(crate::types::datetime_render(DateTime { date, time: Option::Some(time) })
            == s.subrange(pos as int, kk));
    }
    let dt = DateTime { date, time: Option::Some(time) };
    Some((dt, k))
}

/// The position of the closing `"""` of a multi-line basic string whose
/// content starts at `pos`; fails on a malformed escape or a control
/// character.
fn scan_ml_basic_end(v: &Vec<char>, pos: usize) -> (r: Option<usize>)
    requires
        pos <= v@.len(),
    ensures
        r matches Some(e) ==> pos <= e && e + 3 <= v@.len() && v@[e as int] == '"' && v@[e + 1]
            == '"' && v@[e + 2] == '"' && mlb_term(v@, pos as int) == Option::Some(e as int),
        r is None ==> mlb_term(v@, pos as int) is None,
{
    let mut q = pos;
    loop
        invariant
            pos <= q <= v@.len(),
            mlb_term(v@, pos as int) == mlb_term(v@, q as int),
        decreases v@.len() - q,
    {
        if q >= v.len() {
            return None;
        }
        let c = v[q];
        if c == '"' && q + 1 < v.len() && q + 2 < v.len() && v[q + 1] == '"' && v[q + 2] == '"' {
            return Some(q);
        } else if c == '\\' {
            if q + 1 < v.len() && is_simple_escape_exec(v[q + 1]) {
                q += 2;
            } else if q + 1 < v.len() && v[q + 1] == 'u' && hex_at_exec(v, q + 2, 4) && q + 6
                <= v.len() {
                q += 6;
            } else if q + 1 < v.len() && v[q + 1] == 'U' && hex_at_exec(v, q + 2, 8) && q + 10
                <= v.len() {
                q += 10;
            } else {
                return None;
            }
        } else if c == '\t' || c == '\n' || c == '\r' || c >= ' ' {
            q += 1;
        } else {
            return None;
        }
    }
}

/// The position of the closing `\'\'\'` of a multi-line literal string whose
/// content starts at `pos`; fails on a control character.
fn scan_ml_literal_end(v: &Vec<char>, pos: usize) -> (r: Option<usize>)
    requires
        pos <= v@.len(),
    ensures
        r matches Some(e) ==> pos <= e && e + 3 <= v@.len() && v@[e as int] == '\'' && v@[e + 1]
            == '\'' && v@[e + 2] == '\'' && mll_term(v@, pos as int) == Option::Some(e as int),
        r is None ==> mll_term(v@, pos as int) is None,
{
    let mut q = pos;
    loop
        invariant
            pos <= q <= v@.len(),
            mll_term(v@, pos as int) == mll_term(v@, q as int),
        decreases v@.len() - q,
    {
        if q >= v.len() {
            return None;
        }
        let c = v[q];
        if c == '\'' && q + 1 < v.len() && q + 2 < v.len() && v[q + 1] == '\'' && v[q + 2] == '\'' {
            return Some(q);
        } else if c == '\t' || c == '\n' || c == '\r' || c >= ' ' {
            q += 1;
        } else {
            return None;
        }
    }
}

/// The position of the closing quote of a literal string whose content
/// starts at `pos`; fails on a control character or a newline.
fn scan_literal_end(v: &Vec<char>, pos: usize) -> (r: Option<usize>)
    requires
        pos <= v@.len(),
    ensures
        r matches Some(e) ==> pos <= e && e < v@.len() && v@[e as int] == '\'' && lit_term(
            v@,
            pos as int,
        ) == Option::Some(e as int),
        r is None ==> lit_term(v@, pos as int) is None,
{
    let mut q = pos;
    loop
        invariant
            pos <= q <= v@.len(),
            lit_term(v@, pos as int) == lit_term(v@, q as int),
        decreases v@.len() - q,
    {
        if q >= v.len() {
            return None;
        }
        let c = v[q];
        if c == '\'' {
            return Some(q);
        } else if c == '\t' || c >= ' ' {
            q += 1;
        } else {
            return None;
        }
    }
}

/// The length of the newline trimmed from the head of a multi-line
/// string's content span.
fn ml_prefix_len(v: &Vec<char>, start: usize, q: usize) -> (d: usize)
    requires
        start <= q <= v@.len(),
    ensures
        start + d <= q,
{
    if start < q && v[start] == '\n' {
        1
    } else if start < q && start + 1 < q && v[start] == '\r' && v[start + 1] == '\n' {
        2
    } else {
        0
    }
}

/// A string token of any quoting style: the delimiters, the trimmed
/// leading newline of a multi-line string, and the content, captured
/// exactly.
#[verifier::rlimit(50)]
pub fn parse_string(v: &Vec<char>, pos: usize) -> (r: Option<(ScalarNode, usize)>)
    requires
        pos <= v@.len(),
    ensures
        r matches Some(t) ==> pos < t.1 <= v@.len() && scalar_render(t.0) == v@.subrange(
            pos as int,
            t.1 as int,
        ) && string_stop(v@, pos as int) == Option::Some(t.1 as int),
        r is None ==> string_stop(v@, pos as int) is None,
{
    if pos >= v.len() {
        return None;
    }
    if v[pos] == '"' {
        if pos + 1 < v.len() && pos + 2 < v.len() && v[pos + 1] == '"' && v[pos + 2] == '"' {
            let start = pos + 3;
            match scan_ml_basic_end(v, start) {
                Some(e) => {
                    let d = ml_prefix_len(v, start, e);
                    let prefix = capture(v, start, start + d);
                    let content = capture(v, start + d, e);
                    let sn = ScalarNode { prefix, val: Value::String(content, StrType::MLBasic) };
                    proof {
                        assert(scalar_render(sn) =~= v@.subrange(pos as int, e + 3 as int));
                    }
                    Some((sn, e + 3))
                },
                None => None,
            }
        } else {
            match scan_basic_content(v, pos + 1) {
                Some(e) => {
                    if e < v.len() && v[e] == '"' {
                        let content = capture(v, pos + 1, e);
                        let sn = ScalarNode {
                            prefix: String::new(),
                            val: Value::String(content, StrType::Basic),
                        };
                        proof {
                            assert(scalar_render(sn) =~= v@.subrange(pos as int, e + 1 as int));
                        }
                        Some((sn, e + 1))
                    } else {
                        None
                    }
                },
                None => None,
            }
        }
    } else if v[pos] == '\'' {
        if pos + 1 < v.len() && pos + 2 < v.len() && v[pos + 1] == '\'' && v[pos + 2] == '\'' {
            let start = pos + 3;
            match scan_ml_literal_end(v, start) {
                Some(e) => {
                    let d = ml_prefix_len(v, start, e);
                    let prefix = capture(v, start, start + d);
                    let content = capture(v, start + d, e);
                    let sn = ScalarNode {
                        prefix,
                        val: Value::String(content, StrType::MLLiteral),
                    };
                    proof {
                        assert(scalar_render(sn) =~= v@.subrange(pos as int, e + 3 as int));
                    }
                    Some((sn, e + 3))
                },
                None => None,
            }
        } else {
            match scan_literal_end(v, pos + 1) {
                Some(e) => {
                    let content = capture(v, pos + 1, e);
                    let sn = ScalarNode {
                        prefix: String::new(),
                        val: Value::String(content, StrType::Literal),
                    };
                    proof {
                        assert(scalar_render(sn) =~= v@.subrange(pos as int, e + 1 as int));
                    }
                    Some((sn, e + 1))
                },
                None => None,
            }
        }
    } else {
        None
    }
}

/// A value: a string, date-time, float, integer, boolean, array or inline
/// table, tried in that order.
pub fn parse_value(v: &Vec<char>, pos: usize) -> (r: Option<(VNode, usize)>)
    requires
        pos <= v@.len(),
    ensures
        r matches Some(t) ==> pos < t.1 <= v@.len() && vnode_render(t.0) == v@.subrange(
            pos as int,
            t.1 as int,
        ) && value_stop(v@, pos as int) == Option::Some(t.1 as int),
        r is None ==> value_stop(v@, pos as int) is None,
    decreases v@.len() - pos, 1int,
{
    if pos >= v.len() {
        return None;
    }
    let c = v[pos];
    if c == '"' || c == '\'' {
        match parse_string(v, pos) {
            Some((sn, p)) => Some((VNode::Scalar(sn), p)),
            None => None,
        }
    } else if c == '[' {
        match parse_array(v, pos) {
            Some((a, p)) => Some((VNode::Arr(a), p)),
            None => None,
        }
    } else if c == '{' {
        match parse_inline(v, pos) {
            Some((t, p)) => Some((VNode::Inline(t), p)),
            None => None,
        }
    } else if c == 't' || c == 'f' {
        match parse_bool(v, pos) {
            Some((b, p)) => {
                let sn = ScalarNode { prefix: String::new(), val: Value::Boolean(b) };
                proof {
                    assert(scalar_render(sn) == v@.subrange(pos as int, p as int));
                }
                Some((VNode::Scalar(sn), p))
            },
            None => None,
        }
    } else {
        match parse_datetime(v, pos) {
            Some((dt, p)) => {
                let sn = ScalarNode { prefix: String::new(), val: Value::DateTime(dt) };
                proof {
                    assert(scalar_render(sn) == v@.subrange(pos as int, p as int));
                }
                Some((VNode::Scalar(sn), p))
            },
            None => {
                match scan_float(v, pos) {
                    Some(e) => {
                        let text = capture(v, pos, e);
                        let sn = ScalarNode { prefix: String::new(), val: Value::Float(text) };
                        proof {
                            assert(scalar_render(sn) == v@.subrange(pos as int, e as int));
                        }
                        Some((VNode::Scalar(sn), e))
                    },
                    None => {
                        match scan_integer(v, pos) {
                            Some(e) => {
                                let text = capture(v, pos, e);
                                let sn = ScalarNode {
                                    prefix: String::new(),
                                    val: Value::Integer(text),
                                };
                                proof {
                                    assert(scalar_render(sn) == v@.subrange(pos as int, e as int));
                                }
                                Some((VNode::Scalar(sn), e))
                            },
                            None => None,
                        }
                    },
                }
            },
        }
    }
}

/// An array: `[`, trivia, comma-separated values whose separators and
/// trivia are captured exactly, then `]`; trailing commas are allowed.
#[verifier::rlimit(100)]
pub fn parse_array(v: &Vec<char>, pos: usize) -> (r: Option<(ArrayNode, usize)>)
    requires
        pos <= v@.len(),
    ensures
        r matches Some(t) ==> pos < t.1 <= v@.len() && vnode_render(VNode::Arr(t.0))
            == v@.subrange(pos as int, t.1 as int) && array_stop(v@, pos as int) == Option::Some(
            t.1 as int,
        ),
        r is None ==> array_stop(v@, pos as int) is None,
    decreases v@.len() - pos, 0int,
{
    if !(pos < v.len() && v[pos] == '[') {
        return None;
    }
    let (t0, q0) = parse_trivia(v, pos + 1);
    proof {
        assert(clamped(trivia_stop(v@, pos + 1 as int), pos + 1 as int, v@.len() as int) == q0);
        reveal(array_tail);
    }
    if q0 < v.len() && v[q0] == ']' {
        let node = ArrayNode { ws1: t0, items: Vec::new(), ws2: String::new() };
        proof {
            assert(arr_items_text(node.items@, 0) =~= Seq::<char>::empty());
            assert(vnode_render(VNode::Arr(node)) =~= v@.subrange(pos as int, q0 + 1 as int));
        }
        return Some((node, q0 + 1));
    }
    let mut items: Vec<ArrayItem> = Vec::new();
    let mut q = q0;
    loop
        invariant
            pos < q <= v@.len(),
            v@.subrange(pos as int, q as int) =~= seq!['['] + t0@ + arr_items_text(items@, 0),
            array_stop(v@, pos as int) == array_tail(v@, q as int),
        decreases v@.len() - q,
    {
        let (val, q2) = match parse_value(v, q) {
            Some(t) => t,
            None => {
                proof {
                    lemma_array_tail_none(v@, q as int);
                }
                return None;
            },
        };
        let (t1, q3) = parse_trivia(v, q2);
        proof {
            lemma_array_tail_step(v@, q as int, q2 as int, q3 as int);
        }
        if q3 < v.len() && v[q3] == ',' {
            let (t2, q4) = parse_trivia(v, q3 + 1);
            proof {
                assert(clamped(trivia_stop(v@, q3 + 1), q3 + 1, v@.len() as int) == q4);
            }
            let ghost old_items = items@;
            let item = ArrayItem { val, sep: Some(WSSep { ws1: t1, ws2: t2 }) };
            proof {
                lemma_arr_items_push(old_items, item, 0);
            }
            items.push(item);
            proof {
                assert(v@.subrange(pos as int, q4 as int) =~= v@.subrange(pos as int, q as int)
                    + v@.subrange(q as int, q2 as int) + v@.subrange(q2 as int, q3 as int)
                    + v@.subrange(q3 as int, q3 + 1 as int) + v@.subrange(q3 + 1 as int, q4 as int));
                assert(v@.subrange(q3 as int, q3 + 1 as int) =~= seq![',']);
                assert(v@.subrange(pos as int, q4 as int) =~= seq!['['] + t0@ + arr_items_text(
                    items@,
                    0,
                ));
            }
            q = q4;
            if q < v.len() && v[q] == ']' {
                let node = ArrayNode { ws1: t0, items, ws2: String::new() };
                proof {
                    assert(vnode_render(VNode::Arr(node)) =~= v@.subrange(
                        pos as int,
                        q + 1 as int,
                    ));
                }
                return Some((node, q + 1));
            }
        } else if q3 < v.len() && v[q3] == ']' {
            let ghost old_items = items@;
            let item = ArrayItem { val, sep: None };
            proof {
                lemma_arr_items_push(old_items, item, 0);
            }
            items.push(item);
            proof {
                assert(v@.subrange(pos as int, q3 as int) =~= v@.subrange(pos as int, q as int)
                    + v@.subrange(q as int, q2 as int) + v@.subrange(q2 as int, q3 as int));
            }
            let node = ArrayNode { ws1: t0, items, ws2: t1 };
            proof {
                assert(vnode_render(VNode::Arr(node)) =~= v@.subrange(pos as int, q3 + 1 as int));
            }
            return Some((node, q3 + 1));
        } else {
            return None;
        }
    }
}

/// One `key = value` pair of an inline table, its written pieces captured
/// exactly; on failure the inline-table scanner fails from here.
#[verifier::rlimit(100)]
fn parse_inline_pair(v: &Vec<char>, q: usize) -> (r: Option<(String, String, String, VNode, usize)>)
    requires
        q <= v@.len(),
    ensures
        r matches Some(t) ==> q < t.4 <= v@.len() && t.0@ + t.1@ + seq!['='] + t.2@ + vnode_render(
            t.3,
        ) == v@.subrange(q as int, t.4 as int) && (exists|k1: int, k2: int, k3: int|
            pair_facts(v@, q as int, k1, k2, k3, t.4 as int)),
        r is None ==> inline_tail(v@, q as int) is None,
    decreases v@.len() - q, 2int,
{
    let (key, k1) = match parse_key(v, q) {
        Some(t) => t,
        None => {
            proof {
                lemma_inline_tail_none(v@, q as int, 0, 0, 0, 0);
            }
            return None;
        },
    };
    let (kws1, k2) = parse_ws(v, k1);
    if !(k2 < v.len() && v[k2] == '=') {
        proof {
            lemma_inline_tail_none(v@, q as int, 1, k1 as int, k2 as int, 0);
        }
        return None;
    }
    let (kws2, k3) = parse_ws(v, k2 + 1);
    let (val, q2) = match parse_value(v, k3) {
        Some(t) => t,
        None => {
            proof {
                lemma_inline_tail_none(v@, q as int, 2, k1 as int, k2 as int, k3 as int);
            }
            return None;
        },
    };
    proof {
        assert(v@.subrange(k2 as int, k2 + 1 as int) =~= seq!['=']);
        assert(key@ + kws1@ + seq!['='] + kws2@ + vnode_render(val) =~= v@.subrange(
            q as int,
            q2 as int,
        ));
        assert(pair_facts(v@, q as int, k1 as int, k2 as int, k3 as int, q2 as int));
    }
    Some((key, kws1, kws2, val, q2))
}

/// An inline table: `{`, whitespace, comma-separated `key = value` pairs
/// with their whitespace captured exactly, then `}`.
#[verifier::rlimit(100)]
pub fn parse_inline(v: &Vec<char>, pos: usize) -> (r: Option<(InlineNode, usize)>)
    requires
        pos <= v@.len(),
    ensures
        r matches Some(t) ==> pos < t.1 <= v@.len() && vnode_render(VNode::Inline(t.0))
            == v@.subrange(pos as int, t.1 as int) && inline_stop(v@, pos as int) == Option::Some(
            t.1 as int,
        ),
        r is None ==> inline_stop(v@, pos as int) is None,
    decreases v@.len() - pos, 0int,
{
    if !(pos < v.len() && v[pos] == '{') {
        return None;
    }
    let (t0, q0) = parse_ws(v, pos + 1);
    proof {
        assert(clamped(ws_stop(v@, pos + 1 as int), pos + 1 as int, v@.len() as int) == q0);
        reveal(inline_tail);
    }
    if q0 < v.len() && v[q0] == '}' {
        let node = InlineNode { ws1: t0, items: Vec::new(), ws2: String::new() };
        proof {
            assert(inline_items_text(node.items@, 0) =~= Seq::<char>::empty());
            assert(vnode_render(VNode::Inline(node)) =~= v@.subrange(pos as int, q0 + 1 as int));
        }
        return Some((node, q0 + 1));
    }
    let mut items: Vec<InlineItem> = Vec::new();
    let mut q = q0;
    loop
        invariant
            pos < q <= v@.len(),
            v@.subrange(pos as int, q as int) =~= seq!['{'] + t0@ + inline_items_text(items@, 0),
            inline_stop(v@, pos as int) == inline_tail(v@, q as int),
        decreases v@.len() - q,
    {
        let (key, kws1, kws2, val, q2) = match parse_inline_pair(v, q) {
            Some(t) => t,
            None => {
                return None;
            },
        };
        let (t1, q3) = parse_ws(v, q2);
        proof {
            let (k1, k2, k3) = choose|k1: int, k2: int, k3: int|
                pair_facts(v@, q as int, k1, k2, k3, q2 as int);
            lemma_inline_tail_step(v@, q as int, k1, k2, k3, q2 as int, q3 as int);
        }
        if q3 < v.len() && v[q3] == ',' {
            let (t2, q4) = parse_ws(v, q3 + 1);
            proof {
                assert(clamped(ws_stop(v@, q3 + 1), q3 + 1, v@.len() as int) == q4);
            }
            let ghost old_items = items@;
            let item = InlineItem { key, kws1, kws2, val, sep: Some(WSSep { ws1: t1, ws2: t2 }) };
            proof {
                lemma_inline_items_push(old_items, item, 0);
            }
            items.push(item);
            proof {
                crate::text::lemma_subrange_split(v@, pos as int, q as int, q2 as int);
                crate::text::lemma_subrange_split(v@, pos as int, q2 as int, q4 as int);
                assert(v@.subrange(q2 as int, q4 as int) =~= t1@ + seq![','] + t2@);
                assert(inline_item_text(item) =~= v@.subrange(q as int, q2 as int) + (t1@ + seq![
                    ','
                ] + t2@));
                assert(v@.subrange(pos as int, q4 as int) =~= seq!['{'] + t0@ + inline_items_text(
                    items@,
                    0,
                ));
            }
            q = q4;
        } else if q3 < v.len() && v[q3] == '}' {
            let ghost old_items = items@;
            let item = InlineItem { key, kws1, kws2, val, sep: None };
            proof {
                lemma_inline_items_push(old_items, item, 0);
            }
            items.push(item);
            let node = InlineNode { ws1: t0, items, ws2: t1 };
            proof {
                crate::text::lemma_subrange_split(v@, pos as int, q as int, q2 as int);
                crate::text::lemma_subrange_split(v@, pos as int, q2 as int, q3 as int);
                assert(v@.subrange(q2 as int, q3 as int) =~= t1@);
                assert(inline_item_text(item) =~= v@.subrange(q as int, q2 as int));
                assert(vnode_render(VNode::Inline(node)) =~= v@.subrange(
                    pos as int,
                    q3 + 1 as int,
                ));
            }
            return Some((node, q3 + 1));
        } else {
            return None;
        }
    }
}

/// A key-value pair: the key, the whitespace around `=`, and the value.
#[verifier::rlimit(50)]
pub fn parse_keyval(v: &Vec<char>, pos: usize) -> (r: Option<(KeyVal, usize)>)
    requires
        pos <= v@.len(),
    ensures
        r matches Some(t) ==> pos < t.1 <= v@.len() && keyval_render(t.0) == v@.subrange(
            pos as int,
            t.1 as int,
        ) && keyval_stop(v@, pos as int) == Option::Some(t.1 as int),
        r is None ==> keyval_stop(v@, pos as int) is None,
{
    let (key, k1) = match parse_key(v, pos) {
        Some(t) => t,
        None => {
            return None;
        },
    };
    let (kws1, k2) = parse_ws(v, k1);
    if !(k2 < v.len() && v[k2] == '=') {
        return None;
    }
    let (kws2, k3) = parse_ws(v, k2 + 1);
    let (val, p) = match parse_value(v, k3) {
        Some(t) => t,
        None => {
            return None;
        },
    };
    let kv = KeyVal { key, kws1, kws2, val };
    proof {
        assert(v@.subrange(k2 as int, k2 + 1 as int) =~= seq!['=']);
        assert(keyval_render(kv) =~= v@.subrange(pos as int, p as int));
    }
    Some((kv, p))
}

/// A table header: `[` or `[[`, dotted keys with their whitespace, then
/// the matching `]` or `]]`.
#[verifier::rlimit(50)]
pub fn parse_table(v: &Vec<char>, pos: usize) -> (r: Option<(TableNode, usize)>)
    requires
        pos <= v@.len(),
    ensures
        r matches Some(t) ==> pos < t.1 <= v@.len() && table_render(t.0) == v@.subrange(
            pos as int,
            t.1 as int,
        ) && table_stop(v@, pos as int) == Option::Some(t.1 as int),
        r is None ==> table_stop(v@, pos as int) is None,
{
    if !(pos < v.len() && v[pos] == '[') {
        return None;
    }
    let aot = pos + 1 < v.len() && v[pos + 1] == '[';
    let open_end = if aot {
        pos + 2
    } else {
        pos + 1
    };
    let (ws1, q0) = parse_ws(v, open_end);
    let (first_key, mut q) = match parse_key(v, q0) {
        Some(t) => t,
        None => {
            return None;
        },
    };
    let mut subkeys: Vec<TableSeg> = Vec::new();
    loop
        invariant
            pos < q <= v@.len(),
            v@.subrange(pos as int, q as int) =~= (if aot {
                seq!['[', '[']
            } else {
                seq!['[']
            }) + ws1@ + first_key@ + table_segs_text(subkeys@, 0),
            table_stop(v@, pos as int) == table_tail(v@, q as int, aot),
        decreases v@.len() - q,
    {
        let (sw1, q2) = parse_ws(v, q);
        if q2 < v.len() && v[q2] == '.' {
            let (sw2, q3) = parse_ws(v, q2 + 1);
            let (key, q4) = match parse_key(v, q3) {
                Some(t) => t,
                None => {
                    return None;
                },
            };
            let ghost old_segs = subkeys@;
            let seg = TableSeg { ws1: sw1, ws2: sw2, key };
            proof {
                lemma_table_segs_push(old_segs, seg, 0);
            }
            subkeys.push(seg);
            proof {
                assert(v@.subrange(pos as int, q4 as int) =~= v@.subrange(pos as int, q as int)
                    + v@.subrange(q as int, q2 as int) + v@.subrange(q2 as int, q2 + 1 as int)
                    + v@.subrange(q2 + 1 as int, q3 as int) + v@.subrange(q3 as int, q4 as int));
                assert(v@.subrange(q2 as int, q2 + 1 as int) =~= seq!['.']);
            }
            q = q4;
        } else if aot {
            if q2 < v.len() - 1 && q2 + 1 < v.len() && v[q2] == ']' && v[q2 + 1] == ']' {
                let node = TableNode { aot, ws1, first_key, subkeys, ws2: sw1 };
                proof {
                    assert(table_render(node) =~= v@.subrange(pos as int, q2 + 2 as int));
                }
                return Some((node, q2 + 2));
            } else {
                return None;
            }
        } else {
            if q2 < v.len() && v[q2] == ']' {
                let node = TableNode { aot, ws1, first_key, subkeys, ws2: sw1 };
                proof {
                    assert(table_render(node) =~= v@.subrange(pos as int, q2 + 1 as int));
                }
                return Some((node, q2 + 1));
            } else {
                return None;
            }
        }
    }
}

/// An expression: leading whitespace, then a table header, a key-value
/// pair, a comment, or nothing; a header or pair may carry trailing
/// whitespace and a comment. Always succeeds, possibly consuming only
/// whitespace.
#[verifier::rlimit(50)]
pub fn parse_expression(v: &Vec<char>, pos: usize) -> (r: (Expression, usize))
    requires
        pos <= v@.len(),
    ensures
        pos <= r.1 <= v@.len(),
        expr_render(r.0) == v@.subrange(pos as int, r.1 as int),
        r.1 as int == expr_stop(v@, pos as int),
{
    let (ws1, q) = parse_ws(v, pos);
    match parse_table(v, q) {
        Some((t, q2)) => {
            let (ws2, q3) = parse_ws(v, q2);
            match parse_comment(v, q3) {
                Some((c, q4)) => {
                    let e = Expression {
                        ws1,
                        ws2,
                        keyval: None,
                        table: Some(t),
                        comment: Some(c),
                    };
                    proof {
                        assert(expr_render(e) =~= v@.subrange(pos as int, q4 as int));
                    }
                    return (e, q4);
                },
                None => {
                    let e = Expression { ws1, ws2, keyval: None, table: Some(t), comment: None };
                    proof {
                        assert(expr_render(e) =~= v@.subrange(pos as int, q3 as int));
                    }
                    return (e, q3);
                },
            }
        },
        None => {},
    }
    match parse_keyval(v, q) {
        Some((kv, q2)) => {
            let (ws2, q3) = parse_ws(v, q2);
            match parse_comment(v, q3) {
                Some((c, q4)) => {
                    let e = Expression {
                        ws1,
                        ws2,
                        keyval: Some(kv),
                        table: None,
                        comment: Some(c),
                    };
                    proof {
                        assert(expr_render(e) =~= v@.subrange(pos as int, q4 as int));
                    }
                    return (e, q4);
                },
                None => {
                    let e = Expression { ws1, ws2, keyval: Some(kv), table: None, comment: None };
                    proof {
                        assert(expr_render(e) =~= v@.subrange(pos as int, q3 as int));
                    }
                    return (e, q3);
                },
            }
        },
        None => {},
    }
    match parse_comment(v, q) {
        Some((c, q2)) => {
            let e = Expression {
                ws1,
                ws2: String::new(),
                keyval: None,
                table: None,
                comment: Some(c),
            };
            proof {
                assert(expr_render(e) =~= v@.subrange(pos as int, q2 as int));
            }
            (e, q2)
        },
        None => {
            let e = Expression {
                ws1,
                ws2: String::new(),
                keyval: None,
                table: None,
                comment: None,
            };
            proof {
                assert(expr_render(e) =~= v@.subrange(pos as int, q as int));
            }
            (e, q)
        },
    }
}

/// The whole document: an expression, then newline-separated expressions,
/// as far as the grammar matches. Returns the expressions and the position
/// parsing stopped at; rendering the expressions reproduces the consumed
/// prefix exactly.
pub fn parse_document(v: &Vec<char>) -> (r: (Vec<NLExpression>, usize))
    ensures
        r.1 <= v@.len(),
        doc_render(r.0@) == v@.subrange(0, r.1 as int),
        r.0@.len() >= 1,
        r.1 as int == doc_stop(v@),
{
    let mut exprs: Vec<NLExpression> = Vec::new();
    let (e0, p0) = parse_expression(v, 0);
    let first = NLExpression { nl: String::new(), expr: e0 };
    proof {
        lemma_doc_push(exprs@, first, 0);
    }
    exprs.push(first);
    let mut p = p0;
    proof {
        assert(doc_render(exprs@) =~= v@.subrange(0, p as int));
    }
    loop
        invariant
            p <= v@.len(),
            exprs@.len() >= 1,
            doc_render(exprs@) =~= v@.subrange(0, p as int),
            doc_stop(v@) == doc_tail(v@, p as int),
        decreases v@.len() - p,
    {
        match parse_newline(v, p) {
            Some((nl, p1)) => {
                let (e, p2) = parse_expression(v, p1);
                let ghost old_exprs = exprs@;
                let nle = NLExpression { nl, expr: e };
                proof {
                    lemma_doc_push(old_exprs, nle, 0);
                }
                exprs.push(nle);
                proof {
                    assert(v@.subrange(0, p2 as int) =~= v@.subrange(0, p as int) + v@.subrange(
                        p as int,
                        p1 as int,
                    ) + v@.subrange(p1 as int, p2 as int));
                    assert(doc_render(exprs@) =~= v@.subrange(0, p2 as int));
                }
                p = p2;
            },
            None => {
                return (exprs, p);
            },
        }
    }
}

} // verus!
