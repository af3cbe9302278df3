//! Building the key index: one walk over the parsed expressions registers
//! every addressable value under its full key, records each container's
//! children, resolves table headers (arrays of tables included), and
//! collects the recoverable errors.

use vstd::prelude::*;

use crate::ast::{NLExpression, VNode};
use crate::engine::{
    find_child_entry, find_entry, is_sub_key, key_within, lemma_combine_index_sub,
    lemma_combine_sub, lemma_find_child_concat, lemma_find_child_update, lemma_find_child_update_hit,
    lemma_sub_key_trans,
    lemma_sub_key_trans_opt,
    nav_exec, spec_find_child, vnode_value, IndexEntry,
};
use crate::model::{
    lemma_m_fc_idx_first, lemma_m_fc_idx_none, lemma_m_find, lemma_m_find_child, lemma_m_contains,
    lemma_m_of_chmap_push, lemma_m_of_chmap_update, lemma_m_of_errors_push, lemma_m_of_index_push,
    lemma_m_of_tables_push, m_child_add, m_child_count, m_child_set, m_contains, m_find,
    m_find_child, m_node_kind, m_of_children, m_of_chmap, m_of_entry, m_of_error, m_of_errors,
    m_of_index, m_of_state, m_of_tables, m_register, m_register_arr, m_register_inline, m_sat,
    MChildren, MEntry, MError, MState,
};
use crate::types::{Children, ParseError, Value};

verus! {

/// Whether the list holds a string with this view.
fn contains_string(v: &Vec<String>, s: &String) -> (b: bool)
    ensures
        b == (exists|i: int| 0 <= i < v@.len() && (#[trigger] v@[i])@ == s@),
{
    let n = v.len();
    for i in 0..n
        invariant
            n == v@.len(),
            forall|j: int| 0 <= j < i ==> (#[trigger] v@[j])@ != s@,
        decreases n - i,
    {
        if v[i] == *s {
            return true;
        }
    }
    false
}

/// Adds `name` to the children recorded under `parent`, once; no other
/// name's children change, and a name-indexed entry stays name-indexed.
fn child_add(children: &mut Vec<(String, Children)>, parent: &String, name: &String)
    ensures
        forall|k: Seq<char>|
            k != parent@ ==> spec_find_child(final(children)@, k) == spec_find_child(
                old(children)@,
                k,
            ),
        spec_find_child(old(children)@, parent@) matches Option::Some(Children::Keys(ks0))
            ==> spec_find_child(final(children)@, parent@) matches Option::Some(
            Children::Keys(ks1),
        ),
        m_of_chmap(final(children)@) == m_child_add(m_of_chmap(old(children)@), parent@, name@),
{
    let ghost orig = children@;
    match find_child_entry(children, parent) {
        Some(i) => {
            let entry = children.remove(i);
            let ghost key0 = entry.0;
            let ghost c0 = entry.1;
            match entry.1 {
                Children::Keys(mut ks) => {
                    let ghost ks_orig = ks@;
                    if !contains_string(&ks, name) {
                        ks.push(name.clone());
                        proof {
                            lemma_m_of_tables_push(ks_orig, ks@.last());
                        }
                    }
                    proof {
                        lemma_m_contains(ks_orig, name@);
                    }
                    children.insert(i, (entry.0, Children::Keys(ks)));
                },
                other => {
                    children.insert(i, (entry.0, other));
                },
            }
            proof {
                assert(children@ =~= orig.update(i as int, children@[i as int]));
                assert(children@[i as int].0 == key0);
                lemma_find_child_update_hit(orig, i as int, children@[i as int]);
                assert forall|k: Seq<char>| k != parent@ implies spec_find_child(children@, k)
                    == spec_find_child(orig, k) by {
                    lemma_find_child_update(orig, i as int, children@[i as int], k);
                }
                lemma_m_fc_idx_first(orig, parent@, i as int);
                lemma_m_of_chmap_update(orig, i as int, children@[i as int]);
                assert(m_of_chmap(orig)[i as int] == (orig[i as int].0@, m_of_children(c0)));
                assert(m_of_chmap(children@) =~= m_child_add(m_of_chmap(orig), parent@, name@));
            }
        },
        None => {
            let mut ks: Vec<String> = Vec::new();
            ks.push(name.clone());
            children.push((parent.clone(), Children::Keys(ks)));
            proof {
                let e = children@.last();
                assert(e.0@ == parent@);
                assert(children@ =~= orig + seq![e]);
                assert forall|k: Seq<char>| k != parent@ implies spec_find_child(children@, k)
                    == spec_find_child(orig, k) by {
                    lemma_find_child_concat(orig, seq![e], k);
                    assert(seq![e][0] == e);
                    assert(seq![e].drop_first() =~= Seq::<(String, Children)>::empty());
                    assert(spec_find_child(Seq::<(String, Children)>::empty(), k) is None);
                    assert(spec_find_child(seq![e], k) is None);
                    assert(spec_find_child(children@, k) == spec_find_child(orig + seq![e], k));
                }
                lemma_m_fc_idx_none(orig, parent@);
                lemma_m_of_chmap_push(orig, e);
                assert(m_of_children(e.1) == MChildren::Keys(m_of_tables(e.1->Keys_0@)));
                assert(m_of_tables(e.1->Keys_0@) =~= seq![name@]);
                assert(m_of_chmap(children@) =~= m_child_add(m_of_chmap(orig), parent@, name@));
            }
        },
    }
}

/// The recorded element count under `key`, if a positional container is
/// recorded there.
fn child_count(children: &Vec<(String, Children)>, key: &String) -> (r: Option<usize>)
    ensures
        match r {
            Option::Some(n) => m_child_count(m_of_chmap(children@), key@) == Option::Some(n as int),
            Option::None => m_child_count(m_of_chmap(children@), key@) is None,
        },
{
    proof {
        lemma_m_find_child(children@, key@);
    }
    match find_child_entry(children, key) {
        Some(i) => match &children[i].1 {
            Children::Count(n) => Some(*n),
            Children::Keys(_) => None,
        },
        None => None,
    }
}

/// Replaces or inserts the children recorded under `key`, which the
/// lookup then reports; no other name's children change.
fn child_set(children: &mut Vec<(String, Children)>, key: &String, c: Children)
    ensures
        forall|k: Seq<char>|
            k != key@ ==> spec_find_child(final(children)@, k) == spec_find_child(
                old(children)@,
                k,
            ),
        spec_find_child(final(children)@, key@) == Option::Some(c),
        m_of_chmap(final(children)@) == m_child_set(m_of_chmap(old(children)@), key@, m_of_children(c)),
{
    let ghost orig = children@;
    match find_child_entry(children, key) {
        Some(i) => {
            let entry = children.remove(i);
            children.insert(i, (entry.0, c));
            proof {
                assert(children@ =~= orig.update(i as int, children@[i as int]));
                assert(children@[i as int].1 == c);
                lemma_find_child_update_hit(orig, i as int, children@[i as int]);
                assert forall|k: Seq<char>| k != key@ implies spec_find_child(children@, k)
                    == spec_find_child(orig, k) by {
                    lemma_find_child_update(orig, i as int, children@[i as int], k);
                }
                lemma_m_fc_idx_first(orig, key@, i as int);
                lemma_m_of_chmap_update(orig, i as int, children@[i as int]);
                assert(m_of_chmap(orig)[i as int].0 == orig[i as int].0@);
                assert(m_of_chmap(children@) =~= m_child_set(
                    m_of_chmap(orig),
                    key@,
                    m_of_children(c),
                ));
            }
        },
        None => {
            children.push((key.clone(), c));
            proof {
                let e = children@.last();
                assert(e.0@ == key@);
                assert(e.1 == c);
                assert(children@ =~= orig + seq![e]);
                lemma_find_child_concat(orig, seq![e], key@);
                assert(seq![e][0] == e);
                assert(spec_find_child(seq![e], key@) == Option::Some(c));
                assert forall|k: Seq<char>| k != key@ implies spec_find_child(children@, k)
                    == spec_find_child(orig, k) by {
                    lemma_find_child_concat(orig, seq![e], k);
                    assert(seq![e][0] == e);
                    assert(seq![e].drop_first() =~= Seq::<(String, Children)>::empty());
                    assert(spec_find_child(Seq::<(String, Children)>::empty(), k) is None);
                    assert(spec_find_child(seq![e], k) is None);
                    assert(spec_find_child(children@, k) == spec_find_child(orig + seq![e], k));
                }
                lemma_m_fc_idx_none(orig, key@);
                lemma_m_of_chmap_push(orig, e);
                assert(m_of_chmap(children@) =~= m_child_set(
                    m_of_chmap(orig),
                    key@,
                    m_of_children(c),
                ));
            }
        },
    }
}

/// A copy of a container path.
pub fn copy_path(p: &Vec<usize>) -> (r: Vec<usize>)
    ensures
        r@ == p@,
{
    let mut r: Vec<usize> = Vec::new();
    let n = p.len();
    for i in 0..n
        invariant
            n == p@.len(),
            r@ == p@.subrange(0, i as int),
        decreases n - i,
    {
        r.push(p[i]);
        proof {
            assert(r@ =~= p@.subrange(0, i + 1 as int));
        }
    }
    proof {
        assert(r@ =~= p@);
    }
    r
}

/// A coarse classification of a node's value kind, used to detect mixed
/// arrays: integers, floats, booleans, date-times, strings, arrays and
/// inline tables each count as one kind.
fn node_kind(n: &VNode) -> (k: u8)
    ensures
        k as int == m_node_kind(*n),
{
    match n {
        VNode::Scalar(sn) => match &sn.val {
            Value::Integer(_) => 0,
            Value::Float(_) => 1,
            Value::Boolean(_) => 2,
            Value::DateTime(_) => 3,
            Value::String(_, _) => 4,
            Value::Array(_) => 5,
            Value::InlineTable(_) => 6,
        },
        VNode::Arr(_) => 5,
        VNode::Inline(_) => 6,
    }
}

/// The value recorded at an index entry, read from the expressions.
pub fn value_at(exprs: &Vec<NLExpression>, entry_expr: usize, entry_path: &Vec<usize>) -> (r:
    Option<Value>) {
    if entry_expr >= exprs.len() {
        return None;
    }
    match &exprs[entry_expr].expr.keyval {
        Some(kv) => match nav_exec(&kv.val, entry_path, 0) {
            Some(node) => Some(vnode_value(node)),
            None => None,
        },
        None => None,
    }
}

/// Registers the value under `full`, then its children under their own
/// keys, recursively. A key already taken by a value, a table or a
/// container is reported as a duplicate and the first occurrence kept.
/// Every entry this adds is `full` itself or a key inside it, appended
/// after the existing entries.
#[verifier::loop_isolation(false)]
pub fn register_value(
    exprs: &Vec<NLExpression>,
    index: &mut Vec<IndexEntry>,
    children: &mut Vec<(String, Children)>,
    tables: &Vec<String>,
    errors: &mut Vec<ParseError>,
    full: String,
    expr_i: usize,
    path: Vec<usize>,
    node: &VNode,
    line: usize,
) -> (inserted: bool)
    ensures
        old(index)@.len() <= final(index)@.len(),
        final(index)@.subrange(0, old(index)@.len() as int) == old(index)@,
        forall|j: int|
            old(index)@.len() <= j < final(index)@.len() ==> key_within(
                (#[trigger] final(index)@[j]).key@,
                full@,
            ),
        forall|k: Seq<char>|
            !key_within(k, full@) ==> spec_find_child(final(children)@, k) == spec_find_child(
                old(children)@,
                k,
            ),
        old(errors)@.len() <= final(errors)@.len(),
        final(errors)@.subrange(0, old(errors)@.len() as int) == old(errors)@,
        forall|j: int|
            old(errors)@.len() <= j < final(errors)@.len() ==> crate::types::error_col(
                #[trigger] final(errors)@[j],
            ) == 0,
        m_of_state(final(index)@, final(children)@, tables@, final(errors)@) == m_register(
            m_of_state(old(index)@, old(children)@, tables@, old(errors)@),
            full@,
            expr_i as int,
            path@,
            *node,
            line as int,
        ).0,
        inserted == m_register(
            m_of_state(old(index)@, old(children)@, tables@, old(errors)@),
            full@,
            expr_i as int,
            path@,
            *node,
            line as int,
        ).1,
    decreases *node,
{
    let ghost errs0 = errors@;
    let ghost st0 = m_of_state(index@, children@, tables@, errors@);
    if full.as_str().is_empty() {
        return false;
    }
    let dup = match find_entry(index, &full) {
        Some(_) => true,
        None => contains_string(tables, &full) || match find_child_entry(children, &full) {
            Some(_) => true,
            None => false,
        },
    };
    proof {
        lemma_m_find(index@, full@);
        lemma_m_contains(tables@, full@);
        lemma_m_find_child(children@, full@);
        assert(dup == (m_find(st0.index, full@) is Some || m_contains(st0.tables, full@)
            || m_find_child(st0.children, full@) is Some));
    }
    if dup {
        let existing: Value = match find_entry(index, &full) {
            Some(i) => {
                let p = copy_path(&index[i].path);
                let e = index[i].expr;
                match value_at(exprs, e, &p) {
                    Some(v) => v,
                    None => vnode_value(node),
                }
            },
            None => vnode_value(node),
        };
        errors.push(ParseError::DuplicateKey(full, line, 0, existing));
        proof {
            assert(final(index)@.subrange(0, old(index)@.len() as int) =~= old(index)@);
            assert(errors@.subrange(0, errs0.len() as int) =~= errs0);
            let e = errors@.last();
            assert(errors@ =~= errs0.push(e));
            lemma_m_of_errors_push(errs0, e);
            assert(m_of_error(e) == MError::DuplicateKey(full@, line as int));
            assert(m_of_state(index@, children@, tables@, errors@) == m_register(
                st0,
                full@,
                expr_i as int,
                path@,
                *node,
                line as int,
            ).0);
        }
        return false;
    }
    let ghost len0 = index@.len();
    index.push(IndexEntry { key: full.clone(), expr: expr_i, path: copy_path(&path) });
    let ghost st1m = MState {
        index: st0.index.push(MEntry { key: full@, expr: expr_i as int, path: path@ }),
        ..st0
    };
    proof {
        assert(index@.subrange(0, len0 as int) =~= old(index)@);
        let en = index@.last();
        assert(index@ =~= old(index)@.push(en));
        lemma_m_of_index_push(old(index)@, en);
        assert(m_of_entry(en) == MEntry { key: full@, expr: expr_i as int, path: path@ });
        assert(m_of_state(index@, children@, tables@, errors@) == st1m);
    }
    match node {
        VNode::Scalar(sn) => {
            match &sn.val {
                Value::DateTime(dt) => {
                    if !dt.validate() {
                        let ghost errs_pre = errors@;
                        errors.push(
                            ParseError::InvalidDateTime(full.clone(), line, 0, dt.render()),
                        );
                        proof {
                            let e = errors@.last();
                            assert(errors@ =~= errs_pre.push(e));
                            lemma_m_of_errors_push(errs_pre, e);
                            assert(m_of_error(e) == MError::InvalidDateTime(
                                full@,
                                line as int,
                                crate::types::datetime_render(*dt),
                            ));
                        }
                    }
                },
                _ => {},
            }
            proof {
                assert(m_of_state(index@, children@, tables@, errors@) == m_register(
                    st0,
                    full@,
                    expr_i as int,
                    path@,
                    *node,
                    line as int,
                ).0);
            }
        },
        VNode::Arr(a) => {
            let ghost ch0 = children@;
            child_set(children, &full, Children::Count(a.items.len()));
            proof {
                assert(m_of_children(Children::Count(a.items.len())) == MChildren::Count(
                    a.items@.len() as int,
                ));
            }
            let ghost mixed_model = a.items@.len() > 0 && (exists|j2: int|
                1 <= j2 < a.items@.len() && m_node_kind(#[trigger] a.items@[j2].val)
                    != m_node_kind(a.items@[0].val));
            if a.items.len() > 0 {
                let k0 = node_kind(&a.items[0].val);
                let m = a.items.len();
                let mut mixed = false;
                for j in 1..m
                    invariant
                        m == a.items@.len(),
                        k0 as int == m_node_kind(a.items@[0].val),
                        mixed == (exists|j2: int|
                            1 <= j2 < j && m_node_kind(#[trigger] a.items@[j2].val)
                                != m_node_kind(a.items@[0].val)),
                    decreases m - j,
                {
                    if node_kind(&a.items[j].val) != k0 {
                        mixed = true;
                    }
                }
                proof {
                    assert(mixed == mixed_model);
                }
                if mixed {
                    let ghost errs_pre = errors@;
                    errors.push(ParseError::MixedArray(full.clone(), line, 0));
                    proof {
                        let e = errors@.last();
                        assert(errors@ =~= errs_pre.push(e));
                        lemma_m_of_errors_push(errs_pre, e);
                        assert(m_of_error(e) == MError::MixedArray(full@, line as int));
                    }
                }
            } else {
                proof {
                    assert(!mixed_model);
                }
            }
            let ghost st_arr = m_of_state(index@, children@, tables@, errors@);
            let m = a.items.len();
            let mut j: usize = 0;
            while j < m
                invariant
                    m == a.items@.len(),
                    0 <= j <= m,
                    m_register_arr(
                        st_arr,
                        full@,
                        expr_i as int,
                        path@,
                        a.items@,
                        0,
                        line as int,
                    ) == m_register_arr(
                        m_of_state(index@, children@, tables@, errors@),
                        full@,
                        expr_i as int,
                        path@,
                        a.items@,
                        j as int,
                        line as int,
                    ),
                    len0 <= index@.len(),
                    index@.subrange(0, len0 as int) == old(index)@,
                    forall|q: int|
                        len0 <= q < index@.len() ==> key_within(
                            (#[trigger] index@[q]).key@,
                            full@,
                        ),
                    forall|k: Seq<char>|
                        !key_within(k, full@) ==> spec_find_child(children@, k)
                            == spec_find_child(ch0, k),
                    errs0.len() <= errors@.len(),
                    errors@.subrange(0, errs0.len() as int) == errs0,
                    forall|j2: int|
                        errs0.len() <= j2 < errors@.len() ==> crate::types::error_col(
                            #[trigger] errors@[j2],
                        ) == 0,
                decreases m - j,
            {
                proof {
                    assert(decreases_to!(*node => node->Arr_0));
                    assert(decreases_to!(node->Arr_0 => node->Arr_0.items));
                    assert(decreases_to!(node->Arr_0.items => node->Arr_0.items@));
                    assert(decreases_to!(node->Arr_0.items@ => node->Arr_0.items@[j as int]));
                    assert(decreases_to!(node->Arr_0.items@[j as int] => node->Arr_0.items@[j as int].val));
                    assert(decreases_to!(*node => a.items@[j as int].val));
                }
                let child_key = Children::combine_keys_index(full.as_str(), j);
                let ghost ch_pre = children@;
                let ghost st_pre = m_of_state(index@, children@, tables@, errors@);
                let mut p2 = copy_path(&path);
                p2.push(j);
                proof {
                    assert(p2@ =~= path@.push(j));
                }
                let ghost len_before = index@.len();
                let ghost errs_before = errors@;
                register_value(
                    exprs,
                    index,
                    children,
                    tables,
                    errors,
                    child_key,
                    expr_i,
                    p2,
                    &a.items[j].val,
                    line,
                );
                proof {
                    assert(m_of_state(index@, children@, tables@, errors@) == m_register(
                        st_pre,
                        crate::types::spec_combine_keys_index(full@, j as nat),
                        expr_i as int,
                        path@.push(j),
                        a.items@[j as int].val,
                        line as int,
                    ).0);
                    assert(m_register_arr(
                        st_pre,
                        full@,
                        expr_i as int,
                        path@,
                        a.items@,
                        j as int,
                        line as int,
                    ) == m_register_arr(
                        m_of_state(index@, children@, tables@, errors@),
                        full@,
                        expr_i as int,
                        path@,
                        a.items@,
                        j + 1 as int,
                        line as int,
                    ));
                    lemma_combine_index_sub(full@, j as nat);
                    assert forall|k: Seq<char>| !key_within(k, full@) implies spec_find_child(
                        children@,
                        k,
                    ) == spec_find_child(ch_pre, k) by {
                        lemma_sub_key_trans_opt(
                            k,
                            crate::types::spec_combine_keys_index(full@, j as nat),
                            full@,
                        );
                    }
                    assert(index@.subrange(0, len0 as int) =~= index@.subrange(
                        0,
                        len_before as int,
                    ).subrange(0, len0 as int));
                    assert(errors@.subrange(0, errs0.len() as int) =~= errors@.subrange(
                        0,
                        errs_before.len() as int,
                    ).subrange(0, errs0.len() as int));
                    assert forall|j2: int|
                        errs0.len() <= j2 < errors@.len() implies crate::types::error_col(
                        #[trigger] errors@[j2],
                    ) == 0 by {
                        if j2 < errs_before.len() {
                            assert(errors@[j2] == errors@.subrange(
                                0,
                                errs_before.len() as int,
                            )[j2]);
                            assert(errors@[j2] == errs_before[j2]);
                        }
                    }
                    assert forall|q: int|
                        len0 <= q < index@.len() implies key_within(
                        (#[trigger] index@[q]).key@,
                        full@,
                    ) by {
                        if q >= len_before {
                            lemma_sub_key_trans(
                                index@[q].key@,
                                crate::types::spec_combine_keys_index(full@, j as nat),
                                full@,
                            );
                        } else {
                            assert(index@[q] == index@.subrange(0, len_before as int)[q]);
                        }
                    }
                }
                j += 1;
            }
            proof {
                assert(m_register_arr(
                    m_of_state(index@, children@, tables@, errors@),
                    full@,
                    expr_i as int,
                    path@,
                    a.items@,
                    m as int,
                    line as int,
                ) == m_of_state(index@, children@, tables@, errors@));
                assert(m_of_state(index@, children@, tables@, errors@) == m_register(
                    st0,
                    full@,
                    expr_i as int,
                    path@,
                    *node,
                    line as int,
                ).0);
            }
        },
        VNode::Inline(t) => {
            let ghost ch0 = children@;
            let c_init = Children::Keys(Vec::new());
            let ghost c_init0 = c_init;
            child_set(children, &full, c_init);
            proof {
                assert(m_of_children(c_init0) == MChildren::Keys(Seq::<Seq<char>>::empty())) by {
                    assert(m_of_tables(c_init0->Keys_0@) =~= Seq::<Seq<char>>::empty());
                }
            }
            let ghost st_inl = m_of_state(index@, children@, tables@, errors@);
            let m = t.items.len();
            let mut j: usize = 0;
            while j < m
                invariant
                    m == t.items@.len(),
                    0 <= j <= m,
                    m_register_inline(
                        st_inl,
                        full@,
                        expr_i as int,
                        path@,
                        t.items@,
                        0,
                        line as int,
                    ) == m_register_inline(
                        m_of_state(index@, children@, tables@, errors@),
                        full@,
                        expr_i as int,
                        path@,
                        t.items@,
                        j as int,
                        line as int,
                    ),
                    len0 <= index@.len(),
                    index@.subrange(0, len0 as int) == old(index)@,
                    forall|q: int|
                        len0 <= q < index@.len() ==> key_within(
                            (#[trigger] index@[q]).key@,
                            full@,
                        ),
                    forall|k: Seq<char>|
                        !key_within(k, full@) ==> spec_find_child(children@, k)
                            == spec_find_child(ch0, k),
                    errs0.len() <= errors@.len(),
                    errors@.subrange(0, errs0.len() as int) == errs0,
                    forall|j2: int|
                        errs0.len() <= j2 < errors@.len() ==> crate::types::error_col(
                            #[trigger] errors@[j2],
                        ) == 0,
                decreases m - j,
            {
                proof {
                    assert(decreases_to!(*node => node->Inline_0));
                    assert(decreases_to!(node->Inline_0 => node->Inline_0.items));
                    assert(decreases_to!(node->Inline_0.items => node->Inline_0.items@));
                    assert(decreases_to!(node->Inline_0.items@ => node->Inline_0.items@[j as int]));
                    assert(decreases_to!(node->Inline_0.items@[j as int] => node->Inline_0.items@[j as int].val));
                    assert(decreases_to!(*node => t.items@[j as int].val));
                }
                let child_key = Children::combine_keys(full.as_str(), t.items[j].key.as_str());
                let ghost ch_pre = children@;
                let ghost st_pre = m_of_state(index@, children@, tables@, errors@);
                let mut p2 = copy_path(&path);
                p2.push(j);
                proof {
                    assert(p2@ =~= path@.push(j));
                }
                let ghost len_before = index@.len();
                let ghost errs_before = errors@;
                let ok = register_value(
                    exprs,
                    index,
                    children,
                    tables,
                    errors,
                    child_key,
                    expr_i,
                    p2,
                    &t.items[j].val,
                    line,
                );
                let ghost ch_mid = children@;
                let ghost st_mid = m_of_state(index@, children@, tables@, errors@);
                if ok {
                    child_add(children, &full, &t.items[j].key);
                }
                proof {
                    assert(st_mid == m_register(
                        st_pre,
                        crate::types::spec_combine_keys(full@, t.items@[j as int].key@),
                        expr_i as int,
                        path@.push(j),
                        t.items@[j as int].val,
                        line as int,
                    ).0);
                    assert(ok == m_register(
                        st_pre,
                        crate::types::spec_combine_keys(full@, t.items@[j as int].key@),
                        expr_i as int,
                        path@.push(j),
                        t.items@[j as int].val,
                        line as int,
                    ).1);
                    if ok {
                        assert(m_of_chmap(children@) == m_child_add(
                            st_mid.children,
                            full@,
                            t.items@[j as int].key@,
                        ));
                    }
                    assert(m_register_inline(
                        st_pre,
                        full@,
                        expr_i as int,
                        path@,
                        t.items@,
                        j as int,
                        line as int,
                    ) == m_register_inline(
                        m_of_state(index@, children@, tables@, errors@),
                        full@,
                        expr_i as int,
                        path@,
                        t.items@,
                        j + 1 as int,
                        line as int,
                    ));
                    if full@.len() > 0 {
                        lemma_combine_sub(full@, t.items@[j as int].key@);
                    }
                    assert forall|k: Seq<char>| !key_within(k, full@) implies spec_find_child(
                        children@,
                        k,
                    ) == spec_find_child(ch_pre, k) by {
                        if full@.len() > 0 {
                            lemma_sub_key_trans_opt(
                                k,
                                crate::types::spec_combine_keys(full@, t.items@[j as int].key@),
                                full@,
                            );
                        }
                        assert(spec_find_child(ch_mid, k) == spec_find_child(ch_pre, k));
                    }
                    assert(index@.subrange(0, len0 as int) =~= index@.subrange(
                        0,
                        len_before as int,
                    ).subrange(0, len0 as int));
                    assert(errors@.subrange(0, errs0.len() as int) =~= errors@.subrange(
                        0,
                        errs_before.len() as int,
                    ).subrange(0, errs0.len() as int));
                    assert forall|j2: int|
                        errs0.len() <= j2 < errors@.len() implies crate::types::error_col(
                        #[trigger] errors@[j2],
                    ) == 0 by {
                        if j2 < errs_before.len() {
                            assert(errors@[j2] == errors@.subrange(
                                0,
                                errs_before.len() as int,
                            )[j2]);
                            assert(errors@[j2] == errs_before[j2]);
                        }
                    }
                    assert forall|q: int|
                        len0 <= q < index@.len() implies key_within(
                        (#[trigger] index@[q]).key@,
                        full@,
                    ) by {
                        if q >= len_before {
                            if full@.len() > 0 {
                                lemma_sub_key_trans(
                                    index@[q].key@,
                                    crate::types::spec_combine_keys(
                                        full@,
                                        t.items@[j as int].key@,
                                    ),
                                    full@,
                                );
                            }
                        } else {
                            assert(index@[q] == index@.subrange(0, len_before as int)[q]);
                        }
                    }
                }
                j += 1;
            }
            proof {
                assert(m_register_inline(
                    m_of_state(index@, children@, tables@, errors@),
                    full@,
                    expr_i as int,
                    path@,
                    t.items@,
                    m as int,
                    line as int,
                ) == m_of_state(index@, children@, tables@, errors@));
                assert(m_of_state(index@, children@, tables@, errors@) == m_register(
                    st0,
                    full@,
                    expr_i as int,
                    path@,
                    *node,
                    line as int,
                ).0);
            }
        },
    }
    true
}

/// Re-registers the children of the node now standing at `base`: its
/// element count or key list, and an index entry for every nested value.
/// Every index entry this adds addresses something strictly inside
/// `base`, appended after the existing entries. Afterwards the children
/// recorded under `base` describe the node: an element count for an
/// array, a key list for an inline table, nothing for a scalar.
#[verifier::loop_isolation(false)]
pub fn register_children(
    exprs: &Vec<NLExpression>,
    index: &mut Vec<IndexEntry>,
    children: &mut Vec<(String, Children)>,
    tables: &Vec<String>,
    errors: &mut Vec<ParseError>,
    base: &String,
    expr_i: usize,
    path: &Vec<usize>,
    node: &VNode,
)
    requires
        base@.len() > 0,
        spec_find_child(old(children)@, base@) is None,
    ensures
        old(index)@.len() <= final(index)@.len(),
        final(index)@.subrange(0, old(index)@.len() as int) == old(index)@,
        forall|j: int|
            old(index)@.len() <= j < final(index)@.len() ==> is_sub_key(
                (#[trigger] final(index)@[j]).key@,
                base@,
            ),
        node is Scalar ==> spec_find_child(final(children)@, base@) is None,
        node is Arr ==> (spec_find_child(final(children)@, base@) matches Option::Some(
            Children::Count(cn),
        ) && cn == node->Arr_0.items@.len()),
        node is Inline ==> (spec_find_child(final(children)@, base@) matches Option::Some(
            Children::Keys(ks),
        )),
        forall|k: Seq<char>|
            !key_within(k, base@) ==> spec_find_child(final(children)@, k) == spec_find_child(
                old(children)@,
                k,
            ),
        old(errors)@.len() <= final(errors)@.len(),
        final(errors)@.subrange(0, old(errors)@.len() as int) == old(errors)@,
        forall|j: int|
            old(errors)@.len() <= j < final(errors)@.len() ==> crate::types::error_col(
                #[trigger] final(errors)@[j],
            ) == 0,
{
    let ghost errs0 = errors@;
    let ghost len0 = index@.len();
    let ghost ch0 = children@;
    match node {
        VNode::Scalar(_) => {
            proof {
                assert(index@.subrange(0, len0 as int) =~= old(index)@);
            }
        },
        VNode::Arr(a) => {
            child_set(children, base, Children::Count(a.items.len()));
            let m = a.items.len();
            let mut j: usize = 0;
            proof {
                assert(index@.subrange(0, len0 as int) =~= old(index)@);
            }
            while j < m
                invariant
                    m == a.items@.len(),
                    0 <= j <= m,
                    len0 <= index@.len(),
                    index@.subrange(0, len0 as int) == old(index)@,
                    forall|q: int|
                        len0 <= q < index@.len() ==> is_sub_key(
                            (#[trigger] index@[q]).key@,
                            base@,
                        ),
                    forall|k: Seq<char>|
                        !key_within(k, base@) ==> spec_find_child(children@, k)
                            == spec_find_child(ch0, k),
                    spec_find_child(children@, base@) matches Option::Some(Children::Count(cn))
                        && cn == a.items@.len(),
                    errs0.len() <= errors@.len(),
                    errors@.subrange(0, errs0.len() as int) == errs0,
                    forall|j2: int|
                        errs0.len() <= j2 < errors@.len() ==> crate::types::error_col(
                            #[trigger] errors@[j2],
                        ) == 0,
                decreases m - j,
            {
                let child_key = Children::combine_keys_index(base.as_str(), j);
                let ghost ch_pre = children@;
                let mut p2 = copy_path(path);
                p2.push(j);
                let ghost len_before = index@.len();
                let ghost errs_before = errors@;
                register_value(
                    exprs,
                    index,
                    children,
                    tables,
                    errors,
                    child_key,
                    expr_i,
                    p2,
                    &a.items[j].val,
                    0,
                );
                proof {
                    lemma_combine_index_sub(base@, j as nat);
                    assert(!key_within(
                        base@,
                        crate::types::spec_combine_keys_index(base@, j as nat),
                    ));
                    assert forall|k: Seq<char>| !key_within(k, base@) implies spec_find_child(
                        children@,
                        k,
                    ) == spec_find_child(ch_pre, k) by {
                        lemma_sub_key_trans_opt(
                            k,
                            crate::types::spec_combine_keys_index(base@, j as nat),
                            base@,
                        );
                    }
                    assert(index@.subrange(0, len0 as int) =~= index@.subrange(
                        0,
                        len_before as int,
                    ).subrange(0, len0 as int));
                    assert(errors@.subrange(0, errs0.len() as int) =~= errors@.subrange(
                        0,
                        errs_before.len() as int,
                    ).subrange(0, errs0.len() as int));
                    assert forall|j2: int|
                        errs0.len() <= j2 < errors@.len() implies crate::types::error_col(
                        #[trigger] errors@[j2],
                    ) == 0 by {
                        if j2 < errs_before.len() {
                            assert(errors@[j2] == errors@.subrange(
                                0,
                                errs_before.len() as int,
                            )[j2]);
                            assert(errors@[j2] == errs_before[j2]);
                        }
                    }
                    assert forall|q: int|
                        len0 <= q < index@.len() implies is_sub_key(
                        (#[trigger] index@[q]).key@,
                        base@,
                    ) by {
                        if q >= len_before {
                            lemma_sub_key_trans(
                                index@[q].key@,
                                crate::types::spec_combine_keys_index(base@, j as nat),
                                base@,
                            );
                        } else {
                            assert(index@[q] == index@.subrange(0, len_before as int)[q]);
                        }
                    }
                }
                j += 1;
            }
        },
        VNode::Inline(t) => {
            child_set(children, base, Children::Keys(Vec::new()));
            let m = t.items.len();
            let mut j: usize = 0;
            proof {
                assert(index@.subrange(0, len0 as int) =~= old(index)@);
            }
            while j < m
                invariant
                    m == t.items@.len(),
                    0 <= j <= m,
                    len0 <= index@.len(),
                    index@.subrange(0, len0 as int) == old(index)@,
                    forall|q: int|
                        len0 <= q < index@.len() ==> is_sub_key(
                            (#[trigger] index@[q]).key@,
                            base@,
                        ),
                    forall|k: Seq<char>|
                        !key_within(k, base@) ==> spec_find_child(children@, k)
                            == spec_find_child(ch0, k),
                    spec_find_child(children@, base@) matches Option::Some(Children::Keys(ks)),
                    errs0.len() <= errors@.len(),
                    errors@.subrange(0, errs0.len() as int) == errs0,
                    forall|j2: int|
                        errs0.len() <= j2 < errors@.len() ==> crate::types::error_col(
                            #[trigger] errors@[j2],
                        ) == 0,
                decreases m - j,
            {
                let child_key = Children::combine_keys(base.as_str(), t.items[j].key.as_str());
                let ghost ch_pre = children@;
                let mut p2 = copy_path(path);
                p2.push(j);
                let ghost len_before = index@.len();
                let ghost errs_before = errors@;
                let ok = register_value(
                    exprs,
                    index,
                    children,
                    tables,
                    errors,
                    child_key,
                    expr_i,
                    p2,
                    &t.items[j].val,
                    0,
                );
                let ghost ch_mid = children@;
                if ok {
                    child_add(children, base, &t.items[j].key);
                }
                proof {
                    lemma_combine_sub(base@, t.items@[j as int].key@);
                    assert(!key_within(
                        base@,
                        crate::types::spec_combine_keys(base@, t.items@[j as int].key@),
                    ));
                    assert(spec_find_child(ch_mid, base@) == spec_find_child(ch_pre, base@));
                    assert forall|k: Seq<char>| !key_within(k, base@) implies spec_find_child(
                        children@,
                        k,
                    ) == spec_find_child(ch_pre, k) by {
                        lemma_sub_key_trans_opt(
                            k,
                            crate::types::spec_combine_keys(base@, t.items@[j as int].key@),
                            base@,
                        );
                        assert(spec_find_child(ch_mid, k) == spec_find_child(ch_pre, k));
                    }
                    assert(index@.subrange(0, len0 as int) =~= index@.subrange(
                        0,
                        len_before as int,
                    ).subrange(0, len0 as int));
                    assert(errors@.subrange(0, errs0.len() as int) =~= errors@.subrange(
                        0,
                        errs_before.len() as int,
                    ).subrange(0, errs0.len() as int));
                    assert forall|j2: int|
                        errs0.len() <= j2 < errors@.len() implies crate::types::error_col(
                        #[trigger] errors@[j2],
                    ) == 0 by {
                        if j2 < errs_before.len() {
                            assert(errors@[j2] == errors@.subrange(
                                0,
                                errs_before.len() as int,
                            )[j2]);
                            assert(errors@[j2] == errs_before[j2]);
                        }
                    }
                    assert forall|q: int|
                        len0 <= q < index@.len() implies is_sub_key(
                        (#[trigger] index@[q]).key@,
                        base@,
                    ) by {
                        if q >= len_before {
                            lemma_sub_key_trans(
                                index@[q].key@,
                                crate::types::spec_combine_keys(base@, t.items@[j as int].key@),
                                base@,
                            );
                        } else {
                            assert(index@[q] == index@.subrange(0, len_before as int)[q]);
                        }
                    }
                }
                j += 1;
            }
        },
    }
}

/// How many newlines a piece of text holds.
fn count_newlines(s: &str) -> (r: usize)
    ensures
        r as int == crate::text::newline_count(s@),
{
    let v = crate::text::str_to_chars(s);
    let n = v.len();
    let mut c: usize = 0;
    for i in 0..n
        invariant
            n == v@.len(),
            v@ == s@,
            c <= i,
            c as int == crate::text::newline_count(s@.subrange(0, i as int)),
        decreases n - i,
    {
        proof {
            assert(s@.subrange(0, i + 1 as int).drop_last() =~= s@.subrange(0, i as int));
        }
        if v[i] == '\n' {
            c += 1;
        }
    }
    proof {
        assert(s@.subrange(0, n as int) =~= s@);
    }
    c
}

/// `a + b`, stopping at the largest representable value.
fn sat_add(a: usize, b: usize) -> (r: usize)
    ensures
        r as int == m_sat(a as int, b as int),
{
    if a <= usize::MAX - b {
        a + b
    } else {
        usize::MAX
    }
}

/// The keys and values already recorded directly under `key`.
fn gather_table(
    exprs: &Vec<NLExpression>,
    index: &Vec<IndexEntry>,
    children: &Vec<(String, Children)>,
    key: &String,
) -> (r: Vec<(String, Value)>) {
    let mut out: Vec<(String, Value)> = Vec::new();
    match find_child_entry(children, key) {
        Some(i) => {
            match &children[i].1 {
                Children::Keys(ks) => {
                    let m = ks.len();
                    let mut j: usize = 0;
                    while j < m
                        invariant
                            m == ks@.len(),
                        decreases m - j,
                    {
                        let child_key = Children::combine_keys(key.as_str(), ks[j].as_str());
                        match find_entry(index, &child_key) {
                            Some(e) => {
                                let p = copy_path(&index[e].path);
                                let ei = index[e].expr;
                                match value_at(exprs, ei, &p) {
                                    Some(v) => {
                                        out.push((ks[j].clone(), v));
                                    },
                                    None => {},
                                }
                            },
                            None => {},
                        }
                        j += 1;
                    }
                },
                Children::Count(_) => {},
            }
        },
        None => {},
    }
    out
}

/// Walks the parsed expressions once: resolves table headers (standard
/// tables and arrays of tables, with dotted paths resolving through the
/// most recent array element), registers every key-value pair and its
/// nested children in the index, records children, and collects duplicate
/// key, invalid table, mixed array and invalid date-time errors in order.
pub fn build_index(exprs: &Vec<NLExpression>) -> (r: (
    Vec<IndexEntry>,
    Vec<(String, Children)>,
    Vec<String>,
    Vec<ParseError>,
))
    ensures
        forall|j: int|
            0 <= j < r.3@.len() ==> crate::types::error_col(#[trigger] r.3@[j]) == 0,
        m_of_state(r.0@, r.1@, r.2@, r.3@) == crate::model::m_build(exprs@),
{
    let mut index: Vec<IndexEntry> = Vec::new();
    let mut children: Vec<(String, Children)> = Vec::new();
    let mut tables: Vec<String> = Vec::new();
    let mut errors: Vec<ParseError> = Vec::new();
    let mut cur_table = String::new();
    let mut line: usize = 1;
    let n = exprs.len();
    let mut i: usize = 0;
    proof {
        assert(m_of_index(index@) =~= Seq::<MEntry>::empty());
        assert(m_of_chmap(children@) =~= Seq::<(Seq<char>, MChildren)>::empty());
        assert(m_of_tables(tables@) =~= Seq::<Seq<char>>::empty());
        assert(m_of_errors(errors@) =~= Seq::<MError>::empty());
        assert(m_of_state(index@, children@, tables@, errors@) == crate::model::m_empty());
    }
    while i < n
        invariant
            n == exprs@.len(),
            0 <= i <= n,
            forall|j: int|
                0 <= j < errors@.len() ==> crate::types::error_col(#[trigger] errors@[j]) == 0,
            crate::model::m_build(exprs@) == crate::model::m_build_from(
                exprs@,
                i as int,
                m_of_state(index@, children@, tables@, errors@),
                cur_table@,
                line as int,
            ),
        decreases n - i,
    {
        let ghost st_expr = m_of_state(index@, children@, tables@, errors@);
        let ghost cur0 = cur_table@;
        let ghost line0 = line as int;
        line = sat_add(line, count_newlines(exprs[i].nl.as_str()));
        let ghost line1 = line as int;
        let has_table = match &exprs[i].expr.table {
            Some(_) => true,
            None => false,
        };
        if has_table {
            let ghost t0 = exprs@[i as int].expr.table->Some_0;
            let (aot, segs) = match &exprs[i].expr.table {
                Some(t) => {
                    let mut segs: Vec<String> = Vec::new();
                    segs.push(t.first_key.clone());
                    let sn = t.subkeys.len();
                    let mut si: usize = 0;
                    while si < sn
                        invariant
                            sn == t.subkeys@.len(),
                            *t == t0,
                            0 <= si <= sn,
                            segs@.len() == si + 1,
                            segs@[0]@ == t0.first_key@,
                            forall|k: int|
                                1 <= k <= si ==> (#[trigger] segs@[k])@ == t0.subkeys@[k - 1].key@,
                        decreases sn - si,
                    {
                        segs.push(t.subkeys[si].key.clone());
                        si += 1;
                    }
                    proof {
                        assert(m_of_tables(segs@) =~= crate::model::m_segs(t0));
                    }
                    (t.aot, segs)
                },
                None => {
                    // unreachable: the expression was just seen to hold a header
                    proof {
                        assert(false);
                    }
                    (false, Vec::new())
                },
            };
            proof {
                assert(m_of_tables(segs@) == crate::model::m_segs(t0));
                assert(aot == t0.aot);
            }
            let ghost segv = crate::model::m_segs(t0);
            let m = segs.len();
            let mut path_so_far = String::new();
            let mut j: usize = 0;
            proof {
                assert(path_so_far@ =~= Seq::<char>::empty());
            }
            while j < m
                invariant
                    m == segs@.len(),
                    m == segv.len(),
                    forall|k: int| 0 <= k < m ==> (#[trigger] segs@[k])@ == segv[k],
                    0 <= j <= m,
                    forall|j2: int|
                        0 <= j2 < errors@.len() ==> crate::types::error_col(
                            #[trigger] errors@[j2],
                        ) == 0,
                    crate::model::m_table_steps(
                        st_expr,
                        segv,
                        0,
                        Seq::<char>::empty(),
                        aot,
                        line1,
                    ) == crate::model::m_table_steps(
                        m_of_state(index@, children@, tables@, errors@),
                        segv,
                        j as int,
                        path_so_far@,
                        aot,
                        line1,
                    ),
                    line as int == line1,
                decreases m - j,
            {
                let ghost st_seg = m_of_state(index@, children@, tables@, errors@);
                let ghost path_pre = path_so_far@;
                let candidate = Children::combine_keys(path_so_far.as_str(), segs[j].as_str());
                child_add(&mut children, &path_so_far, &segs[j]);
                proof {
                    assert(candidate@ == crate::types::spec_combine_keys(path_pre, segv[j as int]));
                }
                if j + 1 < m {
                    // an intermediate segment naming an array of tables
                    // refers to its most recent element
                    match child_count(&children, &candidate) {
                        Some(c) => {
                            if c >= 1 {
                                path_so_far = Children::combine_keys_index(
                                    candidate.as_str(),
                                    c - 1,
                                );
                            } else {
                                path_so_far = candidate;
                            }
                        },
                        None => {
                            path_so_far = candidate;
                        },
                    }
                } else if aot {
                    let taken = match find_entry(&index, &candidate) {
                        Some(_) => true,
                        None => contains_string(&tables, &candidate) || (match find_child_entry(
                            &children,
                            &candidate,
                        ) {
                            Some(ci) => match &children[ci].1 {
                                Children::Keys(_) => true,
                                Children::Count(_) => false,
                            },
                            None => false,
                        }),
                    };
                    proof {
                        lemma_m_find(index@, candidate@);
                        lemma_m_contains(tables@, candidate@);
                        lemma_m_find_child(children@, candidate@);
                    }
                    if taken {
                        let got = gather_table(exprs, &index, &children, &candidate);
                        let ghost errs_pre = errors@;
                        errors.push(ParseError::InvalidTable(candidate.clone(), line, 0, got));
                        proof {
                            let e = errors@.last();
                            assert(errors@ =~= errs_pre.push(e));
                            lemma_m_of_errors_push(errs_pre, e);
                            assert(m_of_error(e) == MError::InvalidTable(candidate@, line1));
                        }
                        path_so_far = candidate;
                    } else {
                        let c = match child_count(&children, &candidate) {
                            Some(c) => c,
                            None => 0,
                        };
                        child_set(&mut children, &candidate, Children::Count(sat_add(c, 1)));
                        let elem = Children::combine_keys_index(candidate.as_str(), c);
                        proof {
                            lemma_m_find_child(children@, elem@);
                        }
                        match find_child_entry(&children, &elem) {
                            Some(_) => {},
                            None => {
                                let empty_c = Children::Keys(Vec::new());
                                let ghost ec0 = empty_c;
                                let ghost ch_pre = children@;
                                children.push((elem.clone(), empty_c));
                                proof {
                                    let e = children@.last();
                                    assert(children@ =~= ch_pre.push(e));
                                    lemma_m_of_chmap_push(ch_pre, e);
                                    assert(m_of_children(ec0) == MChildren::Keys(
                                        Seq::<Seq<char>>::empty(),
                                    )) by {
                                        assert(m_of_tables(ec0->Keys_0@) =~= Seq::<
                                            Seq<char>,
                                        >::empty());
                                    }
                                }
                            },
                        }
                        path_so_far = elem;
                    }
                } else {
                    let taken = match find_entry(&index, &candidate) {
                        Some(_) => true,
                        None => contains_string(&tables, &candidate) || (match find_child_entry(
                            &children,
                            &candidate,
                        ) {
                            Some(ci) => match &children[ci].1 {
                                Children::Count(_) => true,
                                Children::Keys(_) => false,
                            },
                            None => false,
                        }),
                    };
                    proof {
                        lemma_m_find(index@, candidate@);
                        lemma_m_contains(tables@, candidate@);
                        lemma_m_find_child(children@, candidate@);
                    }
                    if taken {
                        let got = gather_table(exprs, &index, &children, &candidate);
                        let ghost errs_pre = errors@;
                        errors.push(ParseError::InvalidTable(candidate.clone(), line, 0, got));
                        proof {
                            let e = errors@.last();
                            assert(errors@ =~= errs_pre.push(e));
                            lemma_m_of_errors_push(errs_pre, e);
                            assert(m_of_error(e) == MError::InvalidTable(candidate@, line1));
                        }
                        path_so_far = candidate;
                    } else {
                        let ghost tb_pre = tables@;
                        tables.push(candidate.clone());
                        proof {
                            assert(tables@ =~= tb_pre.push(tables@.last()));
                            lemma_m_of_tables_push(tb_pre, tables@.last());
                        }
                        proof {
                            lemma_m_find_child(children@, candidate@);
                        }
                        match find_child_entry(&children, &candidate) {
                            Some(_) => {},
                            None => {
                                let empty_c = Children::Keys(Vec::new());
                                let ghost ec0 = empty_c;
                                let ghost ch_pre = children@;
                                children.push((candidate.clone(), empty_c));
                                proof {
                                    let e = children@.last();
                                    assert(children@ =~= ch_pre.push(e));
                                    lemma_m_of_chmap_push(ch_pre, e);
                                    assert(m_of_children(ec0) == MChildren::Keys(
                                        Seq::<Seq<char>>::empty(),
                                    )) by {
                                        assert(m_of_tables(ec0->Keys_0@) =~= Seq::<
                                            Seq<char>,
                                        >::empty());
                                    }
                                }
                            },
                        }
                        path_so_far = candidate;
                    }
                }
                proof {
                    assert(crate::model::m_table_steps(st_seg, segv, j as int, path_pre, aot, line1)
                        == crate::model::m_table_steps(
                        m_of_state(index@, children@, tables@, errors@),
                        segv,
                        j + 1 as int,
                        path_so_far@,
                        aot,
                        line1,
                    ));
                }
                j += 1;
            }
            cur_table = path_so_far;
            proof {
                assert(crate::model::m_table_steps(
                    m_of_state(index@, children@, tables@, errors@),
                    segv,
                    m as int,
                    cur_table@,
                    aot,
                    line1,
                ) == (m_of_state(index@, children@, tables@, errors@), cur_table@));
            }
        } else {
            let kv_info = match &exprs[i].expr.keyval {
                Some(kv) => Some(kv.key.clone()),
                None => None,
            };
            match kv_info {
                Some(key_text) => {
                    let full = Children::combine_keys(cur_table.as_str(), key_text.as_str());
                    let node_present = match &exprs[i].expr.keyval {
                        Some(_) => true,
                        None => false,
                    };
                    if node_present {
                        // take a reference to the node for registration
                        let ghost errs_before = errors@;
                        let ghost kv0 = exprs@[i as int].expr.keyval->Some_0;
                        let ghost full0 = full@;
                        let tmp = match &exprs[i].expr.keyval {
                            Some(kv) => {
                                register_value(
                                    exprs,
                                    &mut index,
                                    &mut children,
                                    &tables,
                                    &mut errors,
                                    full,
                                    i,
                                    Vec::new(),
                                    &kv.val,
                                    line,
                                )
                            },
                            None => false,
                        };
                        proof {
                            assert(full0 == crate::types::spec_combine_keys(cur0, kv0.key@));
                            assert(m_of_state(index@, children@, tables@, errors@) == m_register(
                                st_expr,
                                full0,
                                i as int,
                                Seq::<usize>::empty(),
                                kv0.val,
                                line1,
                            ).0);
                            assert(tmp == m_register(
                                st_expr,
                                full0,
                                i as int,
                                Seq::<usize>::empty(),
                                kv0.val,
                                line1,
                            ).1);
                        }
                        proof {
                            assert forall|j2: int|
                                0 <= j2 < errors@.len() implies crate::types::error_col(
                                #[trigger] errors@[j2],
                            ) == 0 by {
                                if j2 < errs_before.len() {
                                    assert(errors@[j2] == errors@.subrange(
                                        0,
                                        errs_before.len() as int,
                                    )[j2]);
                                    assert(errors@[j2] == errs_before[j2]);
                                }
                            }
                        }
                        if tmp {
                            child_add(&mut children, &cur_table, &key_text);
                        }
                    }
                },
                None => {},
            }
        }
        let rendered = crate::ast::render_expr(&exprs[i].expr);
        line = sat_add(line, count_newlines(rendered.as_str()));
        proof {
            assert(crate::model::m_build_from(exprs@, i as int, st_expr, cur0, line0)
                == crate::model::m_build_from(
                exprs@,
                i + 1 as int,
                m_of_state(index@, children@, tables@, errors@),
                cur_table@,
                line as int,
            ));
        }
        i += 1;
    }
    (index, children, tables, errors)
}

} // verus!
