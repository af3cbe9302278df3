//! A view-level model of the key-index build: ghost mirrors of the index,
//! children map, table list and error list, and spec functions that walk a
//! parsed document exactly as the executable build does. The build's
//! contract equates its result with this model, so what a parse indexes,
//! which children it records and which errors it collects are all pinned
//! by the document alone.

use vstd::prelude::*;

use crate::ast::{expr_render, NLExpression, TableNode, VNode};
use crate::types::{
    datetime_render, spec_combine_keys, spec_combine_keys_index, spec_valid_datetime, Children,
    ParseError, Value,
};

verus! {

/// One index entry, by view: the full key, the expression holding the
/// value, and the container path to the node.
pub struct MEntry {
    pub key: Seq<char>,
    pub expr: int,
    pub path: Seq<usize>,
}

/// A children record, by view.
pub enum MChildren {
    Count(int),
    Keys(Seq<Seq<char>>),
}

/// A collected error, by view. The duplicate-key payload value and the
/// invalid-table key list are not modelled; everything else is.
pub enum MError {
    MixedArray(Seq<char>, int),
    DuplicateKey(Seq<char>, int),
    InvalidTable(Seq<char>, int),
    InvalidDateTime(Seq<char>, int, Seq<char>),
    Other,
}

/// The whole build state, by view.
pub struct MState {
    pub index: Seq<MEntry>,
    pub children: Seq<(Seq<char>, MChildren)>,
    pub tables: Seq<Seq<char>>,
    pub errors: Seq<MError>,
}

// --- views of the executable state ------------------------------------------

pub open spec fn m_of_entry(e: crate::engine::IndexEntry) -> MEntry {
    MEntry { key: e.key@, expr: e.expr as int, path: e.path@ }
}

pub open spec fn m_of_index(s: Seq<crate::engine::IndexEntry>) -> Seq<MEntry> {
    Seq::new(s.len(), |i: int| m_of_entry(s[i]))
}

pub open spec fn m_of_children(c: Children) -> MChildren {
    match c {
        Children::Count(n) => MChildren::Count(n as int),
        Children::Keys(ks) => MChildren::Keys(m_of_tables(ks@)),
    }
}

pub open spec fn m_of_chmap(s: Seq<(String, Children)>) -> Seq<(Seq<char>, MChildren)> {
    Seq::new(s.len(), |i: int| (s[i].0@, m_of_children(s[i].1)))
}

pub open spec fn m_of_tables(s: Seq<String>) -> Seq<Seq<char>> {
    Seq::new(s.len(), |i: int| s[i]@)
}

pub open spec fn m_of_error(e: ParseError) -> MError {
    match e {
        ParseError::MixedArray(k, l, _) => MError::MixedArray(k@, l as int),
        ParseError::DuplicateKey(k, l, _, _) => MError::DuplicateKey(k@, l as int),
        ParseError::InvalidTable(k, l, _, _) => MError::InvalidTable(k@, l as int),
        ParseError::InvalidDateTime(k, l, _, t) => MError::InvalidDateTime(k@, l as int, t@),
        _ => MError::Other,
    }
}

pub open spec fn m_of_errors(s: Seq<ParseError>) -> Seq<MError> {
    Seq::new(s.len(), |i: int| m_of_error(s[i]))
}

pub open spec fn m_of_state(
    index: Seq<crate::engine::IndexEntry>,
    children: Seq<(String, Children)>,
    tables: Seq<String>,
    errors: Seq<ParseError>,
) -> MState {
    MState {
        index: m_of_index(index),
        children: m_of_chmap(children),
        tables: m_of_tables(tables),
        errors: m_of_errors(errors),
    }
}

// --- lookups over the model --------------------------------------------------

/// The first model entry under `key`.
pub open spec fn m_find(s: Seq<MEntry>, key: Seq<char>) -> Option<MEntry>
    decreases s.len(),
{
    if s.len() == 0 {
        Option::None
    } else if s[0].key == key {
        Option::Some(s[0])
    } else {
        m_find(s.drop_first(), key)
    }
}

/// The position of the first model children entry under `key`.
pub open spec fn m_fc_idx(s: Seq<(Seq<char>, MChildren)>, key: Seq<char>) -> Option<int>
    decreases s.len(),
{
    if s.len() == 0 {
        Option::None
    } else if s[0].0 == key {
        Option::Some(0)
    } else {
        match m_fc_idx(s.drop_first(), key) {
            Option::Some(i) => Option::Some(i + 1),
            Option::None => Option::None,
        }
    }
}

/// The first model children record under `key`.
pub open spec fn m_find_child(s: Seq<(Seq<char>, MChildren)>, key: Seq<char>) -> Option<MChildren> {
    match m_fc_idx(s, key) {
        Option::Some(i) => Option::Some(s[i].1),
        Option::None => Option::None,
    }
}

/// Whether the model table list holds `key`.
pub open spec fn m_contains(s: Seq<Seq<char>>, key: Seq<char>) -> bool {
    exists|i: int| 0 <= i < s.len() && s[i] == key
}

/// Whether the model key list holds `name`.
pub open spec fn m_keys_contains(ks: Seq<Seq<char>>, name: Seq<char>) -> bool {
    exists|i: int| 0 <= i < ks.len() && ks[i] == name
}

/// The recorded element count under `key`, if a positional record stands
/// there.
pub open spec fn m_child_count(s: Seq<(Seq<char>, MChildren)>, key: Seq<char>) -> Option<int> {
    match m_find_child(s, key) {
        Option::Some(MChildren::Count(n)) => Option::Some(n),
        _ => Option::None,
    }
}

// --- updates over the model --------------------------------------------------

/// Adds `name` to the children recorded under `parent`, once.
pub open spec fn m_child_add(
    s: Seq<(Seq<char>, MChildren)>,
    parent: Seq<char>,
    name: Seq<char>,
) -> Seq<(Seq<char>, MChildren)> {
    match m_fc_idx(s, parent) {
        Option::Some(i) => match s[i].1 {
            MChildren::Keys(ks) => s.update(
                i,
                (
                    s[i].0,
                    MChildren::Keys(
                        if m_keys_contains(ks, name) {
                            ks
                        } else {
                            ks.push(name)
                        },
                    ),
                ),
            ),
            MChildren::Count(n) => s.update(i, (s[i].0, MChildren::Count(n))),
        },
        Option::None => s.push((parent, MChildren::Keys(seq![name]))),
    }
}

/// Replaces or inserts the children recorded under `key`.
pub open spec fn m_child_set(
    s: Seq<(Seq<char>, MChildren)>,
    key: Seq<char>,
    c: MChildren,
) -> Seq<(Seq<char>, MChildren)> {
    match m_fc_idx(s, key) {
        Option::Some(i) => s.update(i, (s[i].0, c)),
        Option::None => s.push((key, c)),
    }
}

/// The coarse kind of a node's value, for mixed-array detection.
pub open spec fn m_node_kind(n: VNode) -> int {
    match n {
        VNode::Scalar(sn) => match sn.val {
            Value::Integer(_) => 0,
            Value::Float(_) => 1,
            Value::Boolean(_) => 2,
            Value::DateTime(_) => 3,
            Value::String(_, _) => 4,
            Value::Array(_) => 5,
            Value::InlineTable(_) => 6,
        },
        VNode::Arr(_) => 5,
        VNode::Inline(_) => 6,
    }
}

/// `a + b`, stopping at the largest representable line number.
pub open spec fn m_sat(a: int, b: int) -> int {
    if a <= usize::MAX - b {
        a + b
    } else {
        usize::MAX as int
    }
}

// --- registration ------------------------------------------------------------

/// Registers one value under `full`, then its children recursively: the
/// model of the executable registration, step for step. Returns the new
/// state and whether the key was inserted (false on a duplicate).
pub open spec fn m_register(
    st: MState,
    full: Seq<char>,
    expr: int,
    path: Seq<usize>,
    node: VNode,
    line: int,
) -> (MState, bool)
    decreases node, 1int,
{
    if full.len() == 0 {
        (st, false)
    } else if m_find(st.index, full) is Some || m_contains(st.tables, full) || m_find_child(
        st.children,
        full,
    ) is Some {
        (
            MState { errors: st.errors.push(MError::DuplicateKey(full, line)), ..st },
            false,
        )
    } else {
        let st1 = MState {
            index: st.index.push(MEntry { key: full, expr, path }),
            ..st
        };
        let st2 = match node {
            VNode::Scalar(sn) => match sn.val {
                Value::DateTime(dt) => if !spec_valid_datetime(dt) {
                    MState {
                        errors: st1.errors.push(
                            MError::InvalidDateTime(full, line, datetime_render(dt)),
                        ),
                        ..st1
                    }
                } else {
                    st1
                },
                _ => st1,
            },
            VNode::Arr(a) => {
                let stc = MState {
                    children: m_child_set(
                        st1.children,
                        full,
                        MChildren::Count(a.items@.len() as int),
                    ),
                    ..st1
                };
                let mixed = a.items@.len() > 0 && (exists|j: int|
                    1 <= j < a.items@.len() && m_node_kind(#[trigger] a.items@[j].val)
                        != m_node_kind(a.items@[0].val));
                let stm = if mixed {
                    MState { errors: stc.errors.push(MError::MixedArray(full, line)), ..stc }
                } else {
                    stc
                };
                m_register_arr(stm, full, expr, path, a.items@, 0, line)
            },
            VNode::Inline(t) => {
                let stc = MState {
                    children: m_child_set(st1.children, full, MChildren::Keys(Seq::empty())),
                    ..st1
                };
                m_register_inline(stc, full, expr, path, t.items@, 0, line)
            },
        };
        (st2, true)
    }
}

/// Registers an array's elements from index `j` on.
pub open spec fn m_register_arr(
    st: MState,
    full: Seq<char>,
    expr: int,
    path: Seq<usize>,
    items: Seq<crate::ast::ArrayItem>,
    j: int,
    line: int,
) -> MState
    decreases items, items.len() - j, 0int,
{
    if j < 0 || j >= items.len() {
        st
    } else {
        let child_key = spec_combine_keys_index(full, j as nat);
        let st2 = m_register(st, child_key, expr, path.push(j as usize), items[j].val, line).0;
        m_register_arr(st2, full, expr, path, items, j + 1, line)
    }
}

/// Registers an inline table's pairs from index `j` on.
pub open spec fn m_register_inline(
    st: MState,
    full: Seq<char>,
    expr: int,
    path: Seq<usize>,
    items: Seq<crate::ast::InlineItem>,
    j: int,
    line: int,
) -> MState
    decreases items, items.len() - j, 0int,
{
    if j < 0 || j >= items.len() {
        st
    } else {
        let child_key = spec_combine_keys(full, items[j].key@);
        let (st2, ok) = m_register(st, child_key, expr, path.push(j as usize), items[j].val, line);
        let st3 = if ok {
            MState { children: m_child_add(st2.children, full, items[j].key@), ..st2 }
        } else {
            st2
        };
        m_register_inline(st3, full, expr, path, items, j + 1, line)
    }
}

// --- table headers -----------------------------------------------------------

/// The written segments of a table header, first key included.
pub open spec fn m_segs(t: TableNode) -> Seq<Seq<char>> {
    Seq::new(
        t.subkeys@.len() + 1,
        |i: int|
            if i == 0 {
                t.first_key@
            } else {
                t.subkeys@[i - 1].key@
            },
    )
}

/// Resolves one table header segment by segment: intermediate segments
/// naming an array of tables refer to its most recent element; the last
/// segment declares the table or appends an array-of-tables element, or
/// reports it invalid when the key is already taken. Returns the new
/// state and the table path now in force.
pub open spec fn m_table_steps(
    st: MState,
    segs: Seq<Seq<char>>,
    j: int,
    path: Seq<char>,
    aot: bool,
    line: int,
) -> (MState, Seq<char>)
    decreases segs.len() - j,
{
    if j < 0 || j >= segs.len() {
        (st, path)
    } else {
        let candidate = spec_combine_keys(path, segs[j]);
        let st1 = MState { children: m_child_add(st.children, path, segs[j]), ..st };
        if j + 1 < segs.len() {
            let next = match m_child_count(st1.children, candidate) {
                Option::Some(c) => if c >= 1 {
                    spec_combine_keys_index(candidate, (c - 1) as nat)
                } else {
                    candidate
                },
                Option::None => candidate,
            };
            m_table_steps(st1, segs, j + 1, next, aot, line)
        } else if aot {
            let taken = m_find(st1.index, candidate) is Some || m_contains(st1.tables, candidate)
                || (match m_find_child(st1.children, candidate) {
                Option::Some(MChildren::Keys(_)) => true,
                _ => false,
            });
            if taken {
                (
                    MState {
                        errors: st1.errors.push(MError::InvalidTable(candidate, line)),
                        ..st1
                    },
                    candidate,
                )
            } else {
                let c = match m_child_count(st1.children, candidate) {
                    Option::Some(c) => c,
                    Option::None => 0,
                };
                let st2 = MState {
                    children: m_child_set(st1.children, candidate, MChildren::Count(m_sat(c, 1))),
                    ..st1
                };
                let elem = spec_combine_keys_index(candidate, c as nat);
                let st3 = if m_fc_idx(st2.children, elem) is Some {
                    st2
                } else {
                    MState {
                        children: st2.children.push((elem, MChildren::Keys(Seq::empty()))),
                        ..st2
                    }
                };
                (st3, elem)
            }
        } else {
            let taken = m_find(st1.index, candidate) is Some || m_contains(st1.tables, candidate)
                || (match m_find_child(st1.children, candidate) {
                Option::Some(MChildren::Count(_)) => true,
                _ => false,
            });
            if taken {
                (
                    MState {
                        errors: st1.errors.push(MError::InvalidTable(candidate, line)),
                        ..st1
                    },
                    candidate,
                )
            } else {
                let st2 = MState { tables: st1.tables.push(candidate), ..st1 };
                let st3 = if m_fc_idx(st2.children, candidate) is Some {
                    st2
                } else {
                    MState {
                        children: st2.children.push((candidate, MChildren::Keys(Seq::empty()))),
                        ..st2
                    }
                };
                (st3, candidate)
            }
        }
    }
}

// --- the whole walk ----------------------------------------------------------

/// Walks the expressions from `i` on, carrying the state, the table path
/// in force and the 1-based line.
pub open spec fn m_build_from(
    doc: Seq<NLExpression>,
    i: int,
    st: MState,
    cur: Seq<char>,
    line: int,
) -> MState
    decreases doc.len() - i,
{
    if i < 0 || i >= doc.len() {
        st
    } else {
        let line1 = m_sat(line, crate::text::newline_count(doc[i].nl@));
        let (st1, cur1) = match doc[i].expr.table {
            Option::Some(t) => m_table_steps(st, m_segs(t), 0, Seq::empty(), t.aot, line1),
            Option::None => match doc[i].expr.keyval {
                Option::Some(kv) => {
                    let full = spec_combine_keys(cur, kv.key@);
                    let (st2, ok) = m_register(st, full, i, Seq::empty(), kv.val, line1);
                    let st3 = if ok {
                        MState { children: m_child_add(st2.children, cur, kv.key@), ..st2 }
                    } else {
                        st2
                    };
                    (st3, cur)
                },
                Option::None => (st, cur),
            },
        };
        let line2 = m_sat(line1, crate::text::newline_count(expr_render(doc[i].expr)));
        m_build_from(doc, i + 1, st1, cur1, line2)
    }
}

/// The empty build state.
pub open spec fn m_empty() -> MState {
    MState { index: Seq::empty(), children: Seq::empty(), tables: Seq::empty(), errors: Seq::empty() }
}

/// The index, children map, table list and error list the build computes
/// for a parsed document.
pub open spec fn m_build(doc: Seq<NLExpression>) -> MState {
    m_build_from(doc, 0, m_empty(), Seq::empty(), 1)
}

// --- bridges between the executable state and its model ----------------------

/// Finding a key in the model index is finding it in the real one.
pub proof fn lemma_m_find(s: Seq<crate::engine::IndexEntry>, k: Seq<char>)
    ensures
        m_find(m_of_index(s), k) == (match crate::engine::spec_find(s, k) {
            Option::Some(e) => Option::Some(m_of_entry(e)),
            Option::None => Option::None::<MEntry>,
        }),
    decreases s.len(),
{
    if s.len() > 0 {
        lemma_m_find(s.drop_first(), k);
        assert(m_of_index(s).drop_first() =~= m_of_index(s.drop_first()));
        assert(m_of_index(s)[0] == m_of_entry(s[0]));
    } else {
        assert(m_of_index(s) =~= Seq::<MEntry>::empty());
    }
}

/// A found position is in range and holds the key.
pub proof fn lemma_m_fc_idx_bound(s: Seq<(Seq<char>, MChildren)>, k: Seq<char>)
    ensures
        m_fc_idx(s, k) matches Option::Some(i) ==> 0 <= i < s.len() && s[i].0 == k,
    decreases s.len(),
{
    if s.len() > 0 && s[0].0 != k {
        lemma_m_fc_idx_bound(s.drop_first(), k);
    }
}

/// Finding a children record in the model map is finding it in the real
/// one.
pub proof fn lemma_m_find_child(s: Seq<(String, Children)>, k: Seq<char>)
    ensures
        m_find_child(m_of_chmap(s), k) == (match crate::engine::spec_find_child(s, k) {
            Option::Some(c) => Option::Some(m_of_children(c)),
            Option::None => Option::None::<MChildren>,
        }),
    decreases s.len(),
{
    if s.len() > 0 {
        lemma_m_find_child(s.drop_first(), k);
        lemma_m_fc_idx_bound(m_of_chmap(s.drop_first()), k);
        lemma_m_fc_idx_bound(m_of_chmap(s), k);
        assert(m_of_chmap(s).drop_first() =~= m_of_chmap(s.drop_first()));
        assert(m_of_chmap(s)[0] == (s[0].0@, m_of_children(s[0].1)));
        if s[0].0@ != k {
            match m_fc_idx(m_of_chmap(s.drop_first()), k) {
                Option::Some(i) => {
                    assert(m_of_chmap(s)[i + 1] == m_of_chmap(s.drop_first())[i]);
                },
                Option::None => {},
            }
        }
    } else {
        assert(m_of_chmap(s) =~= Seq::<(Seq<char>, MChildren)>::empty());
    }
}

/// The first-match position in the model map is the first-match position
/// in the real one.
pub proof fn lemma_m_fc_idx_first(s: Seq<(String, Children)>, k: Seq<char>, i: int)
    requires
        0 <= i < s.len(),
        s[i].0@ == k,
        forall|j: int| 0 <= j < i ==> (#[trigger] s[j]).0@ != k,
    ensures
        m_fc_idx(m_of_chmap(s), k) == Option::Some(i),
    decreases i,
{
    assert(m_of_chmap(s)[0] == (s[0].0@, m_of_children(s[0].1)));
    if i == 0 {
    } else {
        lemma_m_fc_idx_first(s.drop_first(), k, i - 1);
        assert(m_of_chmap(s).drop_first() =~= m_of_chmap(s.drop_first()));
    }
}

/// A key absent from the real map is absent from the model map.
pub proof fn lemma_m_fc_idx_none(s: Seq<(String, Children)>, k: Seq<char>)
    requires
        crate::engine::spec_find_child(s, k) is None,
    ensures
        m_fc_idx(m_of_chmap(s), k) is None,
    decreases s.len(),
{
    if s.len() > 0 {
        lemma_m_fc_idx_none(s.drop_first(), k);
        assert(m_of_chmap(s).drop_first() =~= m_of_chmap(s.drop_first()));
        assert(m_of_chmap(s)[0] == (s[0].0@, m_of_children(s[0].1)));
    } else {
        assert(m_of_chmap(s) =~= Seq::<(Seq<char>, MChildren)>::empty());
    }
}

/// Pushing an entry commutes with taking views.
pub proof fn lemma_m_of_index_push(s: Seq<crate::engine::IndexEntry>, e: crate::engine::IndexEntry)
    ensures
        m_of_index(s.push(e)) == m_of_index(s).push(m_of_entry(e)),
{
    assert(m_of_index(s.push(e)) =~= m_of_index(s).push(m_of_entry(e)));
}

/// Pushing a children record commutes with taking views.
pub proof fn lemma_m_of_chmap_push(s: Seq<(String, Children)>, e: (String, Children))
    ensures
        m_of_chmap(s.push(e)) == m_of_chmap(s).push((e.0@, m_of_children(e.1))),
{
    assert(m_of_chmap(s.push(e)) =~= m_of_chmap(s).push((e.0@, m_of_children(e.1))));
}

/// Updating a children record commutes with taking views.
pub proof fn lemma_m_of_chmap_update(s: Seq<(String, Children)>, i: int, e: (String, Children))
    requires
        0 <= i < s.len(),
    ensures
        m_of_chmap(s.update(i, e)) == m_of_chmap(s).update(i, (e.0@, m_of_children(e.1))),
{
    assert(m_of_chmap(s.update(i, e)) =~= m_of_chmap(s).update(i, (e.0@, m_of_children(e.1))));
}

/// Pushing an error commutes with taking views.
pub proof fn lemma_m_of_errors_push(s: Seq<ParseError>, e: ParseError)
    ensures
        m_of_errors(s.push(e)) == m_of_errors(s).push(m_of_error(e)),
{
    assert(m_of_errors(s.push(e)) =~= m_of_errors(s).push(m_of_error(e)));
}

/// Pushing a name commutes with taking views.
pub proof fn lemma_m_of_tables_push(s: Seq<String>, e: String)
    ensures
        m_of_tables(s.push(e)) == m_of_tables(s).push(e@),
{
    assert(m_of_tables(s.push(e)) =~= m_of_tables(s).push(e@));
}

/// Membership in the model table list is membership in the real one.
pub proof fn lemma_m_contains(s: Seq<String>, k: Seq<char>)
    ensures
        m_contains(m_of_tables(s), k) == (exists|i: int|
            0 <= i < s.len() && (#[trigger] s[i])@ == k),
{
    if exists|i: int| 0 <= i < s.len() && (#[trigger] s[i])@ == k {
        let i = choose|i: int| 0 <= i < s.len() && (#[trigger] s[i])@ == k;
        assert(m_of_tables(s)[i] == s[i]@);
    }
    if m_contains(m_of_tables(s), k) {
        let i = choose|i: int| 0 <= i < m_of_tables(s).len() && m_of_tables(s)[i] == k;
        assert(s[i]@ == k);
    }
}

} // verus!
