//! A format-preserving TOML parser, document model, and mutator.
//!
//! Parsing a document keeps every byte of the original text: whitespace,
//! comments, separators, and the exact lexical form of every value. Values can
//! be read, replaced and enumerated by key path, and the document can be
//! rendered back to text that differs from the input only where a value was
//! deliberately changed.
//!
//! Keys address values with dot-separated name segments and bracketed
//! positions, exactly as the index records them: `table.key`,
//! `"quoted key"`, `arr[2]`, `aot[0].sub.key`. A key that does not match
//! an indexed value — the empty key and any malformed path included — is
//! reported as absent, never as an error.

use vstd::prelude::*;

pub mod ast;
pub mod engine;
pub mod grammar;
mod index;
pub mod model;
mod lex;
mod text;
pub mod types;

use crate::ast::{doc_render, nav, vnode_value_matches, Expression, KeyVal, NLExpression, VNode};
use crate::engine::{
    find_child_entry, find_entry, lemma_find_concat, lemma_find_none_when_absent, nav_exec,
    reformats, remove_sub_children, remove_sub_entries, set_path, set_path_rel, spec_find,
    spec_find_child, vnode_value, IndexEntry,
};
use crate::grammar::{doc_stop, parse_document};
use crate::index::{build_index, copy_path, register_children};
use crate::text::{capture, str_to_chars};
use crate::types::{children_eq, Children, ParseError, ParseResult, Value};

verus! {

/// A parser, manipulator and outputter of TOML documents: the parsed
/// expressions together with the key index and children map built from
/// them.
pub struct TOMLParser {
    exprs: Vec<NLExpression>,
    index: Vec<IndexEntry>,
    children: Vec<(String, Children)>,
    tables: Vec<String>,
}

impl TOMLParser {
    /// The parsed expressions.
    pub closed spec fn spec_doc(&self) -> Seq<NLExpression> {
        self.exprs@
    }

    /// The key index.
    pub closed spec fn spec_index(&self) -> Seq<IndexEntry> {
        self.index@
    }

    /// The children map.
    pub closed spec fn spec_children(&self) -> Seq<(String, Children)> {
        self.children@
    }

    /// The node addressed by `key`: the first index entry with that key,
    /// navigated from its expression's value. The empty key addresses
    /// nothing.
    pub open spec fn spec_entry_node(&self, key: Seq<char>) -> Option<VNode> {
        if key.len() == 0 {
            Option::None
        } else {
            match spec_find(self.spec_index(), key) {
                Option::Some(e) => if e.expr < self.spec_doc().len() {
                    match self.spec_doc()[e.expr as int].expr.keyval {
                        Option::Some(kv) => nav(kv.val, e.path@, 0),
                        Option::None => Option::None,
                    }
                } else {
                    Option::None
                },
                Option::None => Option::None,
            }
        }
    }

    /// An empty parser, holding no document.
    pub fn new() -> (r: TOMLParser)
        ensures
            r.spec_doc().len() == 0,
            r.spec_index().len() == 0,
            r.spec_children().len() == 0,
    {
        TOMLParser { exprs: Vec::new(), index: Vec::new(), children: Vec::new(), tables: Vec::new() }
    }

    /// Parses `input` as a TOML document, replacing whatever the parser
    /// held. The parser is consumed and returned together with the result.
    ///
    /// How far the grammar reaches is pinned by the document scanner
    /// `doc_stop`: a full or full-with-errors result comes exactly when
    /// the scanner consumes the whole input, and rendering the document
    /// then reproduces the input byte for byte. When the scanner stalls
    /// part way, the consumed prefix renders back exactly and the
    /// remainder is returned with the 1-based line the parse stopped on;
    /// column reporting is not implemented and is always 0. A failure
    /// comes exactly when the scanner consumes nothing of a nonempty
    /// input, and the parser then holds an empty document.
    ///
    /// What the parse indexes is pinned by the build model `m_build`: the
    /// key index, the children map and the collected error list all equal
    /// the model's walk over the parsed expressions, and the result is
    /// error-free (`Full`, `Partial`) exactly when that walk collects no
    /// errors.
    pub fn parse(self, input: &str) -> (r: (TOMLParser, ParseResult))
        ensures
            (r.1 is Full || r.1 is FullError) <==> doc_stop(input@) == input@.len(),
            r.1 is Failure <==> doc_stop(input@) == 0 && input@.len() > 0,
            r.1 matches ParseResult::Partial(rem, line, col) ==> rem@ == input@.subrange(
                doc_stop(input@),
                input@.len() as int,
            ),
            r.1 matches ParseResult::PartialError(rem, line, col, errs) ==> rem@
                == input@.subrange(doc_stop(input@), input@.len() as int),
            r.1 is Full || r.1 is FullError ==> doc_render(r.0.spec_doc()) == input@,
            r.1 matches ParseResult::Partial(rem, line, col) ==> doc_render(r.0.spec_doc()) + rem@
                == input@ && rem@.len() > 0 && col == 0 && line as int
                == crate::text::newline_count(doc_render(r.0.spec_doc())) + 1,
            r.1 matches ParseResult::PartialError(rem, line, col, errs) ==> doc_render(
                r.0.spec_doc(),
            ) + rem@ == input@ && rem@.len() > 0 && col == 0 && errs@.len() > 0 && line as int
                == crate::text::newline_count(doc_render(r.0.spec_doc())) + 1,
            r.1 matches ParseResult::FullError(errs) ==> errs@.len() > 0 && (forall|j: int|
                0 <= j < errs@.len() ==> crate::types::error_col(#[trigger] errs@[j]) == 0),
            r.1 matches ParseResult::PartialError(rem2, l2, c2, errs) ==> (forall|j: int|
                0 <= j < errs@.len() ==> crate::types::error_col(#[trigger] errs@[j]) == 0),
            r.1 matches ParseResult::Failure(l, c) ==> l == 1 && c == 0,
            r.1 is Failure ==> r.0.spec_doc().len() == 0 && input@.len() > 0
                && r.0.spec_index().len() == 0 && r.0.spec_children().len() == 0,
            !(r.1 is Failure) ==> crate::model::m_of_index(r.0.spec_index())
                == crate::model::m_build(r.0.spec_doc()).index && crate::model::m_of_chmap(
                r.0.spec_children(),
            ) == crate::model::m_build(r.0.spec_doc()).children,
            (r.1 is Full || (r.1 matches ParseResult::Partial(_, _, _))) ==> crate::model::m_build(
                r.0.spec_doc(),
            ).errors.len() == 0,
            r.1 matches ParseResult::FullError(errs) ==> crate::model::m_of_errors(errs@)
                == crate::model::m_build(r.0.spec_doc()).errors,
            r.1 matches ParseResult::PartialError(rem3, l3, c3, errs) ==> crate::model::m_of_errors(
                errs@,
            ) == crate::model::m_build(r.0.spec_doc()).errors,
    {
        let chars = str_to_chars(input);
        let (exprs, p) = parse_document(&chars);
        if p == chars.len() {
            proof {
                assert(chars@.subrange(0, p as int) =~= input@);
            }
            let (index, children, tables, errors) = build_index(&exprs);
            proof {
                assert(crate::model::m_of_errors(errors@).len() == errors@.len());
            }
            let parser = TOMLParser { exprs, index, children, tables };
            if errors.len() == 0 {
                (parser, ParseResult::Full)
            } else {
                (parser, ParseResult::FullError(errors))
            }
        } else if p == 0 {
            let parser = TOMLParser {
                exprs: Vec::new(),
                index: Vec::new(),
                children: Vec::new(),
                tables: Vec::new(),
            };
            (parser, ParseResult::Failure(1, 0))
        } else {
            let (index, children, tables, errors) = build_index(&exprs);
            proof {
                assert(crate::model::m_of_errors(errors@).len() == errors@.len());
            }
            let rem = capture(&chars, p, chars.len());
            let prefix = capture(&chars, 0, p);
            let line = line_of_prefix(&prefix);
            let parser = TOMLParser { exprs, index, children, tables };
            proof {
                crate::text::lemma_subrange_split(chars@, 0, p as int, chars@.len() as int);
                assert(chars@.subrange(0, chars@.len() as int) =~= input@);
            }
            if errors.len() == 0 {
                (parser, ParseResult::Partial(rem, line, 0))
            } else {
                (parser, ParseResult::PartialError(rem, line, 0, errors))
            }
        }
    }

    /// The value at `key`, or `None` if the key addresses nothing.
    pub fn get_value(&self, key: &str) -> (r: Option<Value>)
        ensures
            match self.spec_entry_node(key@) {
                Option::Some(n) => r matches Option::Some(v) && vnode_value_matches(n, v),
                Option::None => r is None,
            },
    {
        let key_s = String::from_str(key);
        if key_s.as_str().is_empty() {
            return None;
        }
        let i = match find_entry(&self.index, &key_s) {
            Some(i) => i,
            None => {
                return None;
            },
        };
        let expr_i = self.index[i].expr;
        if expr_i >= self.exprs.len() {
            return None;
        }
        match &self.exprs[expr_i].expr.keyval {
            Some(kv) => match nav_exec(&kv.val, &self.index[i].path, 0) {
                Some(node) => Some(vnode_value(node)),
                None => None,
            },
            None => None,
        }
    }

    /// Replaces the value at `key` with `val`; returns whether the key
    /// addressed a value. No new keys are ever created.
    ///
    /// On success the document is unchanged except at the addressed node:
    /// a same-shape replacement keeps every byte of formatting and changes
    /// value text only, and a shape-changing replacement rebuilds the
    /// addressed container in canonical form and drops the line's comment,
    /// since the reformatted container shares that line. Reading the key
    /// afterwards yields the new value; every key outside the mutated one
    /// resolves in the index and the children map exactly as before, and
    /// after a shape change the children recorded under the key describe
    /// the new container.
    pub fn set_value(&mut self, key: &str, val: Value) -> (r: bool)
        ensures
            r == (old(self).spec_entry_node(key@) is Some),
            !r ==> *final(self) == *old(self),
            r ==> ({
                let e = spec_find(old(self).spec_index(), key@)->Some_0;
                let old_doc = old(self).spec_doc();
                let new_doc = final(self).spec_doc();
                let old_kv = old_doc[e.expr as int].expr.keyval->Some_0;
                &&& new_doc.len() == old_doc.len()
                &&& (forall|j: int|
                    0 <= j < old_doc.len() && j != e.expr ==> #[trigger] new_doc[j] == old_doc[j])
                &&& new_doc[e.expr as int].nl == old_doc[e.expr as int].nl
                &&& new_doc[e.expr as int].expr.ws1 == old_doc[e.expr as int].expr.ws1
                &&& new_doc[e.expr as int].expr.ws2 == old_doc[e.expr as int].expr.ws2
                &&& new_doc[e.expr as int].expr.table == old_doc[e.expr as int].expr.table
                &&& new_doc[e.expr as int].expr.keyval matches Option::Some(kv2) && kv2.key
                    == old_kv.key && kv2.kws1 == old_kv.kws1 && kv2.kws2 == old_kv.kws2
                    && set_path_rel(old_kv.val, e.path@, 0, val, kv2.val)
                &&& ({
                    let n0 = old(self).spec_entry_node(key@)->Some_0;
                    if reformats(n0, val) {
                        new_doc[e.expr as int].expr.comment is None
                    } else {
                        new_doc[e.expr as int].expr.comment == old_doc[e.expr as int].expr.comment
                    }
                })
            }),
            r ==> (final(self).spec_entry_node(key@) matches Option::Some(n2)
                && vnode_value_matches(n2, val)),
            r ==> (forall|k: Seq<char>|
                !crate::engine::key_within(k, key@) ==> spec_find(final(self).spec_index(), k)
                    == spec_find(old(self).spec_index(), k) && spec_find_child(
                    final(self).spec_children(),
                    k,
                ) == spec_find_child(old(self).spec_children(), k)),
            r && reformats(old(self).spec_entry_node(key@)->Some_0, val) ==> ({
                let n2 = final(self).spec_entry_node(key@)->Some_0;
                match n2 {
                    VNode::Arr(a) => spec_find_child(final(self).spec_children(), key@)
                        matches Option::Some(Children::Count(cn)) && cn == a.items@.len(),
                    VNode::Inline(t) => spec_find_child(final(self).spec_children(), key@)
                        matches Option::Some(Children::Keys(ks)),
                    VNode::Scalar(sn) => spec_find_child(final(self).spec_children(), key@)
                        is None,
                }
            }),
    {
        let key_s = String::from_str(key);
        if key_s.as_str().is_empty() {
            return false;
        }
        let i = match find_entry(&self.index, &key_s) {
            Some(i) => i,
            None => {
                return false;
            },
        };
        let expr_i = self.index[i].expr;
        let path = copy_path(&self.index[i].path);
        if expr_i >= self.exprs.len() {
            return false;
        }
        let nav_ok = match &self.exprs[expr_i].expr.keyval {
            Some(kv) => match nav_exec(&kv.val, &path, 0) {
                Some(_) => true,
                None => false,
            },
            None => false,
        };
        if !nav_ok {
            return false;
        }
        let ghost old_exprs = self.exprs@;
        let e = self.exprs.remove(expr_i);
        let nl = e.nl;
        let ex = e.expr;
        let kv = match ex.keyval {
            Some(kv) => kv,
            None => vstd::pervasive::unreached(),
        };
        let (new_val, rf) = set_path(kv.val, &path, 0, val);
        let drop_comment = rf;
        let new_expr = Expression {
            ws1: ex.ws1,
            ws2: ex.ws2,
            keyval: Some(KeyVal { key: kv.key, kws1: kv.kws1, kws2: kv.kws2, val: new_val }),
            table: ex.table,
            comment: if drop_comment {
                None
            } else {
                ex.comment
            },
        };
        self.exprs.insert(expr_i, NLExpression { nl, expr: new_expr });
        proof {
            assert(self.exprs@ =~= old_exprs.update(expr_i as int, self.exprs@[expr_i as int]));
        }
        let ghost children_before = self.children@;
        let ghost index_before = self.index@;
        if rf {
            remove_sub_entries(&mut self.index, &key_s);
            remove_sub_children(&mut self.children, &key_s);
            let ghost index_removed = self.index@;
            let ghost children_removed = self.children@;
            let mut scratch: Vec<ParseError> = Vec::new();
            match &self.exprs[expr_i].expr.keyval {
                Some(kv2) => {
                    match nav_exec(&kv2.val, &path, 0) {
                        Some(node) => {
                            register_children(
                                &self.exprs,
                                &mut self.index,
                                &mut self.children,
                                &self.tables,
                                &mut scratch,
                                &key_s,
                                expr_i,
                                &path,
                                node,
                            );
                        },
                        None => {
                            // unreachable: the replacement was just navigated
                            proof {
                                assert(false);
                            }
                        },
                    }
                },
                None => {
                    // unreachable: the pair was just rebuilt with a value
                    proof {
                        assert(false);
                    }
                },
            }
            proof {
                assert(!crate::engine::is_sub_key(key_s@, key_s@));
                assert(spec_find(index_removed, key_s@) == spec_find(old(self).spec_index(), key_s@));
                let added = self.index@.subrange(
                    index_removed.len() as int,
                    self.index@.len() as int,
                );
                assert(self.index@ =~= index_removed + added);
                lemma_find_concat(index_removed, added, key_s@);
                assert forall|k: Seq<char>| !crate::engine::key_within(k, key_s@) implies
                    spec_find(self.index@, k) == spec_find(index_before, k) && spec_find_child(
                    self.children@,
                    k,
                ) == spec_find_child(children_before, k) by {
                    assert(spec_find(index_removed, k) == spec_find(index_before, k));
                    assert forall|j: int| 0 <= j < added.len() implies (#[trigger] added[j]).key@
                        != k by {
                        assert(added[j] == self.index@[index_removed.len() + j]);
                        assert(crate::engine::is_sub_key(added[j].key@, key_s@));
                    }
                    lemma_find_none_when_absent(added, k);
                    lemma_find_concat(index_removed, added, k);
                    assert(spec_find_child(children_removed, k) == spec_find_child(
                        children_before,
                        k,
                    ));
                    assert(spec_find_child(self.children@, k) == spec_find_child(
                        children_removed,
                        k,
                    ));
                }
            }
        }
        true
    }

    /// The child keys of `key`: a count for positionally indexed
    /// containers (arrays and arrays of tables), the ordered subkey names
    /// for name-indexed ones (tables and inline tables); `None` when the
    /// key addresses a scalar or nothing at all.
    pub fn get_children(&self, key: &str) -> (r: Option<Children>)
        ensures
            match spec_find_child(self.spec_children(), key@) {
                Option::Some(c) => r matches Option::Some(c2) && children_eq(c2, c),
                Option::None => r is None,
            },
    {
        let key_s = String::from_str(key);
        let i = match find_child_entry(&self.children, &key_s) {
            Some(i) => i,
            None => {
                return None;
            },
        };
        match &self.children[i].1 {
            Children::Count(c) => Some(Children::Count(*c)),
            Children::Keys(ks) => Some(Children::Keys(copy_keys(ks))),
        }
    }

    /// The document's full text: every byte as parsed, except where a
    /// value was changed.
    pub fn render(&self) -> (r: String)
        ensures
            r@ == doc_render(self.spec_doc()),
    {
        crate::ast::render_doc(&self.exprs)
    }
}

impl Default for TOMLParser {
    fn default() -> (r: Self)
        ensures
            r.spec_doc().len() == 0,
            r.spec_index().len() == 0,
            r.spec_children().len() == 0,
    {
        TOMLParser::new()
    }
}

/// A key resolves in a parser's index exactly as it resolves in the
/// model index; with `parse`'s guarantee that the index equals
/// `m_build(doc).index`, this ties `get_value` and `set_value` key
/// resolution to the parsed document alone.
pub proof fn lemma_index_lookup_model(p: &TOMLParser, k: Seq<char>)
    ensures
        spec_find(p.spec_index(), k) is Some <==> crate::model::m_find(
            crate::model::m_of_index(p.spec_index()),
            k,
        ) is Some,
        spec_find(p.spec_index(), k) matches Option::Some(e) ==> crate::model::m_find(
            crate::model::m_of_index(p.spec_index()),
            k,
        ) == Option::Some(crate::model::m_of_entry(e)),
{
    crate::model::lemma_m_find(p.spec_index(), k);
}

/// Reading a key back after a successful write yields the written value:
/// whenever `set_value` stored `v` under a key, any value `w` that
/// `get_value` reports for that key equals `v` up to string views. This
/// holds because both calls speak of the one node the key addresses, and a
/// node determines its value.
pub proof fn lemma_get_after_set(p: TOMLParser, key: Seq<char>, v: Value, w: Value)
    requires
        p.spec_entry_node(key) matches Option::Some(n) && vnode_value_matches(n, v)
            && vnode_value_matches(n, w),
    ensures
        crate::types::value_eq(v, w),
{
    let n = p.spec_entry_node(key)->Some_0;
    crate::ast::lemma_matches_functional(n, v, w);
}

/// A copy of a list of key names, by view.
fn copy_keys(ks: &Vec<String>) -> (r: Vec<String>)
    ensures
        r@.len() == ks@.len(),
        forall|i: int| 0 <= i < ks@.len() ==> (#[trigger] r@[i])@ == ks@[i]@,
{
    let mut r: Vec<String> = Vec::new();
    let n = ks.len();
    for i in 0..n
        invariant
            n == ks@.len(),
            r@.len() == i,
            forall|j: int| 0 <= j < i ==> (#[trigger] r@[j])@ == ks@[j]@,
        decreases n - i,
    {
        r.push(ks[i].clone());
    }
    r
}

/// The 1-based line a parse stopped on: one more than the newlines in the
/// consumed prefix.
fn line_of_prefix(prefix: &String) -> (r: usize)
    requires
        prefix@.len() < usize::MAX,
    ensures
        r as int == crate::text::newline_count(prefix@) + 1,
{
    let v = str_to_chars(prefix.as_str());
    let n = v.len();
    let mut c: usize = 0;
    for i in 0..n
        invariant
            n == v@.len(),
            v@ == prefix@,
            c <= i,
            c as int == crate::text::newline_count(prefix@.subrange(0, i as int)),
        decreases n - i,
    {
        proof {
            assert(prefix@.subrange(0, i + 1 as int).drop_last() =~= prefix@.subrange(0, i as int));
        }
        if v[i] == '\n' {
            c += 1;
        }
    }
    proof {
        assert(prefix@.subrange(0, n as int) =~= prefix@);
        crate::text::lemma_newline_count_bound(prefix@);
    }
    c + 1
}

} // verus!
