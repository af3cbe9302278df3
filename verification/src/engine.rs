//! The document engine: the key index that addresses every value in a
//! parsed document, value extraction, and format-preserving mutation.

use vstd::prelude::*;

use crate::ast::{
    nav, vnode_render, vnode_value_matches, ArrayItem, ArrayNode, InlineItem, InlineNode,
    ScalarNode, VNode, WSSep,
};
use crate::types::{value_eq, value_render, Children, Value};

verus! {

/// One entry of the key index: a full key, the expression that holds its
/// value, and the container path from that expression's value node down to
/// the addressed node.
#[derive(Debug)]
pub struct IndexEntry {
    pub key: String,
    pub expr: usize,
    pub path: Vec<usize>,
}

/// The first index entry whose key reads `key`.
pub open spec fn spec_find(entries: Seq<IndexEntry>, key: Seq<char>) -> Option<IndexEntry>
    decreases entries.len(),
{
    if entries.len() == 0 {
        Option::None
    } else if entries[0].key@ == key {
        Option::Some(entries[0])
    } else {
        spec_find(entries.drop_first(), key)
    }
}

/// The first children entry recorded under `key`.
pub open spec fn spec_find_child(entries: Seq<(String, Children)>, key: Seq<char>) -> Option<
    Children,
>
    decreases entries.len(),
{
    if entries.len() == 0 {
        Option::None
    } else if entries[0].0@ == key {
        Option::Some(entries[0].1)
    } else {
        spec_find_child(entries.drop_first(), key)
    }
}

/// The position of the first index entry whose key reads `key`.
pub fn find_entry(entries: &Vec<IndexEntry>, key: &String) -> (r: Option<usize>)
    ensures
        match r {
            Option::Some(i) => i < entries@.len() && spec_find(entries@, key@) == Option::Some(
                entries@[i as int],
            ) && entries@[i as int].key@ == key@,
            Option::None => spec_find(entries@, key@) is None,
        },
{
    let n = entries.len();
    proof {
        assert(entries@.subrange(0, n as int) =~= entries@);
    }
    for i in 0..n
        invariant
            n == entries@.len(),
            spec_find(entries@, key@) == spec_find(entries@.subrange(i as int, n as int), key@),
        decreases n - i,
    {
        proof {
            assert(entries@.subrange(i as int, n as int)[0] == entries@[i as int]);
        }
        if entries[i].key == *key {
            return Some(i);
        }
        proof {
            assert(entries@.subrange(i as int, n as int).drop_first() =~= entries@.subrange(
                i + 1 as int,
                n as int,
            ));
        }
    }
    proof {
        assert(entries@.subrange(n as int, n as int).len() == 0);
    }
    None
}

/// The position of the first children entry recorded under `key`.
pub fn find_child_entry(entries: &Vec<(String, Children)>, key: &String) -> (r: Option<usize>)
    ensures
        match r {
            Option::Some(i) => i < entries@.len() && spec_find_child(entries@, key@)
                == Option::Some(entries@[i as int].1) && entries@[i as int].0@ == key@ && (forall|
                j: int,
            | 0 <= j < i ==> (#[trigger] entries@[j]).0@ != key@),
            Option::None => spec_find_child(entries@, key@) is None,
        },
{
    let n = entries.len();
    proof {
        assert(entries@.subrange(0, n as int) =~= entries@);
    }
    for i in 0..n
        invariant
            n == entries@.len(),
            spec_find_child(entries@, key@) == spec_find_child(
                entries@.subrange(i as int, n as int),
                key@,
            ),
            forall|j: int| 0 <= j < i ==> (#[trigger] entries@[j]).0@ != key@,
        decreases n - i,
    {
        proof {
            assert(entries@.subrange(i as int, n as int)[0] == entries@[i as int]);
        }
        if entries[i].0 == *key {
            return Some(i);
        }
        proof {
            assert(entries@.subrange(i as int, n as int).drop_first() =~= entries@.subrange(
                i + 1 as int,
                n as int,
            ));
        }
    }
    proof {
        assert(entries@.subrange(n as int, n as int).len() == 0);
    }
    None
}

/// A copy of a value, equal to the original up to string views.
pub fn clone_value(v: &Value) -> (r: Value)
    ensures
        value_eq(*v, r),
    decreases *v,
{
    match v {
        Value::Integer(s) => Value::Integer(s.clone()),
        Value::Float(s) => Value::Float(s.clone()),
        Value::Boolean(b) => Value::Boolean(*b),
        Value::DateTime(dt) => Value::DateTime(clone_datetime(dt)),
        Value::String(s, t) => Value::String(s.clone(), *t),
        Value::Array(xs) => {
            let mut out: Vec<Value> = Vec::new();
            let n = xs.len();
            let mut i: usize = 0;
            while i < n
                invariant
                    *v == Value::Array(*xs),
                    n == xs@.len(),
                    0 <= i <= n,
                    out@.len() == i,
                    forall|j: int| 0 <= j < i ==> value_eq(#[trigger] xs@[j], out@[j]),
                decreases n - i,
            {
                proof {
                    assert(decreases_to!(*v => v->Array_0));
                    assert(decreases_to!(v->Array_0 => v->Array_0@));
                    assert(decreases_to!(v->Array_0@ => v->Array_0@[i as int]));
                    assert(decreases_to!(*v => xs@[i as int]));
                }
                let c = clone_value(&xs[i]);
                out.push(c);
                i += 1;
            }
            Value::Array(out)
        },
        Value::InlineTable(xs) => {
            let mut out: Vec<(String, Value)> = Vec::new();
            let n = xs.len();
            let mut i: usize = 0;
            while i < n
                invariant
                    *v == Value::InlineTable(*xs),
                    n == xs@.len(),
                    0 <= i <= n,
                    out@.len() == i,
                    forall|j: int|
                        0 <= j < i ==> (#[trigger] xs@[j]).0@ == out@[j].0@ && value_eq(
                            xs@[j].1,
                            out@[j].1,
                        ),
                decreases n - i,
            {
                proof {
                    assert(decreases_to!(*v => v->InlineTable_0));
                    assert(decreases_to!(v->InlineTable_0 => v->InlineTable_0@));
                    assert(decreases_to!(v->InlineTable_0@ => v->InlineTable_0@[i as int]));
                    assert(decreases_to!(v->InlineTable_0@[i as int] => v->InlineTable_0@[i as int].1));
                    assert(decreases_to!(*v => xs@[i as int].1));
                }
                let c = clone_value(&xs[i].1);
                let k = xs[i].0.clone();
                out.push((k, c));
                i += 1;
            }
            Value::InlineTable(out)
        },
    }
}

/// A copy of a date-time, field by field.
pub fn clone_datetime(dt: &crate::types::DateTime) -> (r: crate::types::DateTime)
    ensures
        crate::types::datetime_eq(*dt, r),
{
    let date = crate::types::Date {
        year: dt.date.year.clone(),
        month: dt.date.month.clone(),
        day: dt.date.day.clone(),
    };
    let time = match &dt.time {
        Option::Some(t) => {
            let fraction = match &t.fraction {
                Option::Some(f) => Option::Some(f.clone()),
                Option::None => Option::None,
            };
            let offset = match &t.offset {
                Option::Some(crate::types::TimeOffset::Zulu) => Option::Some(
                    crate::types::TimeOffset::Zulu,
                ),
                Option::Some(crate::types::TimeOffset::Time(a)) => Option::Some(
                    crate::types::TimeOffset::Time(
                        crate::types::TimeOffsetAmount {
                            pos_neg: a.pos_neg,
                            hour: a.hour.clone(),
                            minute: a.minute.clone(),
                        },
                    ),
                ),
                Option::None => Option::None,
            };
            Option::Some(
                crate::types::Time {
                    hour: t.hour.clone(),
                    minute: t.minute.clone(),
                    second: t.second.clone(),
                    fraction,
                    offset,
                },
            )
        },
        Option::None => Option::None,
    };
    crate::types::DateTime { date, time }
}

/// The public value a node holds: scalars copied, containers converted
/// element by element.
pub fn vnode_value(n: &VNode) -> (r: Value)
    ensures
        vnode_value_matches(*n, r),
    decreases *n,
{
    match n {
        VNode::Scalar(sn) => clone_value(&sn.val),
        VNode::Arr(a) => {
            let mut out: Vec<Value> = Vec::new();
            let m = a.items.len();
            let mut i: usize = 0;
            while i < m
                invariant
                    *n == VNode::Arr(*a),
                    m == a.items@.len(),
                    0 <= i <= m,
                    out@.len() == i,
                    forall|j: int|
                        0 <= j < i ==> vnode_value_matches(#[trigger] a.items@[j].val, out@[j]),
                decreases m - i,
            {
                proof {
                    assert(decreases_to!(*n => n->Arr_0));
                    assert(decreases_to!(n->Arr_0 => n->Arr_0.items));
                    assert(decreases_to!(n->Arr_0.items => n->Arr_0.items@));
                    assert(decreases_to!(n->Arr_0.items@ => n->Arr_0.items@[i as int]));
                    assert(decreases_to!(n->Arr_0.items@[i as int] => n->Arr_0.items@[i as int].val));
                    assert(decreases_to!(*n => a.items@[i as int].val));
                }
                let c = vnode_value(&a.items[i].val);
                out.push(c);
                i += 1;
            }
            Value::Array(out)
        },
        VNode::Inline(t) => {
            let mut out: Vec<(String, Value)> = Vec::new();
            let m = t.items.len();
            let mut i: usize = 0;
            while i < m
                invariant
                    *n == VNode::Inline(*t),
                    m == t.items@.len(),
                    0 <= i <= m,
                    out@.len() == i,
                    forall|j: int|
                        0 <= j < i ==> (#[trigger] t.items@[j]).key@ == out@[j].0@
                            && vnode_value_matches(t.items@[j].val, out@[j].1),
                decreases m - i,
            {
                proof {
                    assert(decreases_to!(*n => n->Inline_0));
                    assert(decreases_to!(n->Inline_0 => n->Inline_0.items));
                    assert(decreases_to!(n->Inline_0.items => n->Inline_0.items@));
                    assert(decreases_to!(n->Inline_0.items@ => n->Inline_0.items@[i as int]));
                    assert(decreases_to!(n->Inline_0.items@[i as int] => n->Inline_0.items@[i as int].val));
                    assert(decreases_to!(*n => t.items@[i as int].val));
                }
                let c = vnode_value(&t.items[i].val);
                let k = t.items[i].key.clone();
                out.push((k, c));
                i += 1;
            }
            Value::InlineTable(out)
        },
    }
}

/// The node reached from `n` by `path[d..]`, if every step is in range.
pub fn nav_exec<'a>(n: &'a VNode, path: &Vec<usize>, d: usize) -> (r: Option<&'a VNode>)
    requires
        d <= path@.len(),
    ensures
        match r {
            Option::Some(m) => nav(*n, path@, d as int) == Option::Some(*m),
            Option::None => nav(*n, path@, d as int) is None,
        },
    decreases path@.len() - d,
{
    if d == path.len() {
        return Some(n);
    }
    let step = path[d];
    match n {
        VNode::Arr(a) => {
            if step < a.items.len() {
                nav_exec(&a.items[step].val, path, d + 1)
            } else {
                None
            }
        },
        VNode::Inline(t) => {
            if step < t.items.len() {
                nav_exec(&t.items[step].val, path, d + 1)
            } else {
                None
            }
        },
        VNode::Scalar(_) => None,
    }
}

// --- mutation ----------------------------------------------------------------

/// A value without container structure of its own.
pub open spec fn is_scalar_value(v: Value) -> bool {
    !(v is Array) && !(v is InlineTable)
}

/// Whether replacing the value at this node forces a canonical rebuild:
/// the new value's shape differs from the node's.
pub open spec fn reformats(o: VNode, v: Value) -> bool {
    match o {
        VNode::Scalar(_) => !is_scalar_value(v),
        VNode::Arr(a) => !(v matches Value::Array(xs) && xs@.len() == a.items@.len()),
        VNode::Inline(t) => !(v matches Value::InlineTable(xs) && xs@.len() == t.items@.len() && (
        forall|i: int| 0 <= i < t.items@.len() ==> (#[trigger] t.items@[i]).key@ == xs@[i].0@)),
    }
}

/// How replacing the value at a node changes the node. When the new value
/// has the same shape as the old one — scalar for scalar, an array of the
/// same length, an inline table with the same keys in the same order — all
/// surrounding whitespace and separators are kept and only the value text
/// changes, elementwise for containers. Otherwise the node is rebuilt in
/// canonical form.
pub open spec fn set_at_rel(o: VNode, v: Value, n: VNode) -> bool
    decreases o,
{
    if reformats(o, v) {
        canonical_rel(v, n)
    } else {
        match o {
            VNode::Scalar(sn) => {
                &&& n matches VNode::Scalar(sn2)
                &&& sn2.prefix@.len() == 0
                &&& sn2.val == v
            },
            VNode::Arr(a) => {
                let xs = v->Array_0;
                &&& n matches VNode::Arr(b)
                &&& b.ws1 == a.ws1
                &&& b.ws2 == a.ws2
                &&& b.items@.len() == a.items@.len()
                &&& (forall|i: int|
                    0 <= i < a.items@.len() ==> (#[trigger] b.items@[i]).sep == a.items@[i].sep
                        && set_at_rel(a.items@[i].val, xs@[i], b.items@[i].val))
            },
            VNode::Inline(t) => {
                let xs = v->InlineTable_0;
                &&& n matches VNode::Inline(u)
                &&& u.ws1 == t.ws1
                &&& u.ws2 == t.ws2
                &&& u.items@.len() == t.items@.len()
                &&& (forall|i: int|
                    0 <= i < t.items@.len() ==> (#[trigger] u.items@[i]).key == t.items@[i].key
                        && u.items@[i].kws1 == t.items@[i].kws1 && u.items@[i].kws2
                        == t.items@[i].kws2 && u.items@[i].sep == t.items@[i].sep && set_at_rel(
                        t.items@[i].val,
                        xs@[i].1,
                        u.items@[i].val,
                    ))
            },
        }
    }
}

/// A node in canonical form for the given value: it holds the value and
/// renders as the value's canonical text.
pub open spec fn canonical_rel(v: Value, n: VNode) -> bool {
    vnode_value_matches(n, v) && vnode_render(n) == value_render(v)
}

/// How replacing the value at the end of `path[d..]` changes a node: every
/// part of the tree off the path is untouched, and the addressed node
/// changes as `set_at_rel` says.
pub open spec fn set_path_rel(o: VNode, path: Seq<usize>, d: int, v: Value, n: VNode) -> bool
    decreases path.len() - d,
{
    if d < 0 || d >= path.len() {
        set_at_rel(o, v, n)
    } else {
        match o {
            VNode::Arr(a) => {
                &&& (path[d] as int) < a.items@.len()
                &&& n matches VNode::Arr(b)
                &&& b.ws1 == a.ws1
                &&& b.ws2 == a.ws2
                &&& b.items@.len() == a.items@.len()
                &&& (forall|j: int|
                    0 <= j < a.items@.len() && j != path[d] as int ==> #[trigger] b.items@[j]
                        == a.items@[j])
                &&& b.items@[path[d] as int].sep == a.items@[path[d] as int].sep
                &&& set_path_rel(
                    a.items@[path[d] as int].val,
                    path,
                    d + 1,
                    v,
                    b.items@[path[d] as int].val,
                )
            },
            VNode::Inline(t) => {
                &&& (path[d] as int) < t.items@.len()
                &&& n matches VNode::Inline(u)
                &&& u.ws1 == t.ws1
                &&& u.ws2 == t.ws2
                &&& u.items@.len() == t.items@.len()
                &&& (forall|j: int|
                    0 <= j < t.items@.len() && j != path[d] as int ==> #[trigger] u.items@[j]
                        == t.items@[j])
                &&& u.items@[path[d] as int].key == t.items@[path[d] as int].key
                &&& u.items@[path[d] as int].kws1 == t.items@[path[d] as int].kws1
                &&& u.items@[path[d] as int].kws2 == t.items@[path[d] as int].kws2
                &&& u.items@[path[d] as int].sep == t.items@[path[d] as int].sep
                &&& set_path_rel(
                    t.items@[path[d] as int].val,
                    path,
                    d + 1,
                    v,
                    u.items@[path[d] as int].val,
                )
            },
            VNode::Scalar(_) => false,
        }
    }
}

/// A same-shape scalar replacement renders as exactly the new value's
/// written form: everything around the value in its line — whitespace,
/// separators, the comment — lives outside the node and is untouched, so
/// only the value's text changes.
pub proof fn lemma_scalar_set_text(o: VNode, v: Value, n: VNode)
    requires
        o is Scalar,
        is_scalar_value(v),
        set_at_rel(o, v, n),
    ensures
        vnode_render(n) == value_render(v),
{
    let sn2 = n->Scalar_0;
    assert(sn2.prefix@ =~= Seq::<char>::empty());
    match v {
        Value::String(c, t) => {
            assert(crate::ast::scalar_render(sn2) =~= value_render(v));
        },
        _ => {},
    }
}

/// Value equality is reflexive.
pub proof fn lemma_value_eq_refl(v: Value)
    ensures
        value_eq(v, v),
    decreases v,
{
    match v {
        Value::Array(xs) => {
            assert forall|i: int| 0 <= i < xs@.len() implies value_eq(
                #[trigger] xs@[i],
                xs@[i],
            ) by {
                lemma_value_eq_refl(xs@[i]);
            }
        },
        Value::InlineTable(xs) => {
            assert forall|i: int| 0 <= i < xs@.len() implies xs@[i].0@ == xs@[i].0@ && value_eq(
                (#[trigger] xs@[i]).1,
                xs@[i].1,
            ) by {
                lemma_value_eq_refl(xs@[i].1);
            }
        },
        _ => {},
    }
}

/// A node in canonical default formatting for the given value: arrays as
/// `[a, b]`, inline tables as `{k = v, l = w}`, scalars bare.
#[verifier::loop_isolation(false)]
pub fn canonical_vnode(v: Value) -> (n: VNode)
    ensures
        canonical_rel(v, n),
    decreases v,
{
    let ghost v0 = v;
    match v {
        Value::Array(mut xs) => {
            let ghost orig = xs@;
            let mut items: Vec<ArrayItem> = Vec::new();
            while xs.len() > 0
                invariant
                    v0 is Array,
                    v0->Array_0@ == orig,
                    items@.len() + xs@.len() == orig.len(),
                    xs@ == orig.subrange(items@.len() as int, orig.len() as int),
                    forall|j: int|
                        0 <= j < items@.len() ==> vnode_value_matches(
                            (#[trigger] items@[j]).val,
                            orig[j],
                        ),
                    crate::ast::arr_items_text(items@, 0) + crate::types::arr_items_render(
                        orig,
                        items@.len() as int,
                    ) == crate::types::arr_items_render(orig, 0),
                decreases xs@.len(),
            {
                let ghost k = items@.len() as int;
                let x = xs.remove(0);
                proof {
                    assert(x == orig[k]);
                    assert(decreases_to!(v0 => v0->Array_0));
                    assert(decreases_to!(v0->Array_0 => v0->Array_0@));
                    assert(decreases_to!(v0->Array_0@ => v0->Array_0@[k]));
                    assert(decreases_to!(v0 => x));
                }
                let child = canonical_vnode(x);
                let sep: Option<WSSep> = if xs.len() > 0 {
                    Some(WSSep { ws1: String::new(), ws2: one_space() })
                } else {
                    None
                };
                let item = ArrayItem { val: child, sep };
                proof {
                    crate::ast::lemma_arr_items_push(items@, item, 0);
                    if k < orig.len() - 1 {
                        assert(crate::ast::arr_item_text(item) =~= crate::types::value_render(
                            orig[k],
                        ) + seq![',', ' ']);
                    } else {
                        assert(crate::ast::arr_item_text(item) =~= crate::types::value_render(
                            orig[k],
                        ));
                        assert(crate::types::arr_items_render(orig, k + 1) =~= Seq::<
                            char,
                        >::empty());
                    }
                    assert(crate::ast::arr_items_text(items@.push(item), 0)
                        + crate::types::arr_items_render(orig, k + 1)
                        =~= crate::types::arr_items_render(orig, 0));
                    assert(orig.subrange(k, orig.len() as int).drop_first() =~= orig.subrange(
                        k + 1,
                        orig.len() as int,
                    ));
                }
                items.push(item);
            }
            let node = ArrayNode { ws1: String::new(), items, ws2: String::new() };
            proof {
                assert(crate::types::arr_items_render(orig, orig.len() as int) =~= Seq::<
                    char,
                >::empty());
                assert(vnode_render(VNode::Arr(node)) =~= value_render(v0));
            }
            VNode::Arr(node)
        },
        Value::InlineTable(mut xs) => {
            let ghost orig = xs@;
            let mut items: Vec<InlineItem> = Vec::new();
            while xs.len() > 0
                invariant
                    v0 is InlineTable,
                    v0->InlineTable_0@ == orig,
                    items@.len() + xs@.len() == orig.len(),
                    xs@ == orig.subrange(items@.len() as int, orig.len() as int),
                    forall|j: int|
                        0 <= j < items@.len() ==> (#[trigger] items@[j]).key@ == orig[j].0@
                            && vnode_value_matches(items@[j].val, orig[j].1),
                    crate::ast::inline_items_text(items@, 0) + crate::types::it_items_render(
                        orig,
                        items@.len() as int,
                    ) == crate::types::it_items_render(orig, 0),
                decreases xs@.len(),
            {
                let ghost k = items@.len() as int;
                let (key, x) = xs.remove(0);
                proof {
                    assert((key, x) == orig[k]);
                    assert(decreases_to!(v0 => v0->InlineTable_0));
                    assert(decreases_to!(v0->InlineTable_0 => v0->InlineTable_0@));
                    assert(decreases_to!(v0->InlineTable_0@ => v0->InlineTable_0@[k]));
                    assert(decreases_to!(v0->InlineTable_0@[k] => v0->InlineTable_0@[k].1));
                    assert(decreases_to!(v0 => x));
                }
                let child = canonical_vnode(x);
                let sep: Option<WSSep> = if xs.len() > 0 {
                    Some(WSSep { ws1: String::new(), ws2: one_space() })
                } else {
                    None
                };
                let item = InlineItem { key, kws1: one_space(), kws2: one_space(), val: child, sep };
                proof {
                    crate::ast::lemma_inline_items_push(items@, item, 0);
                    if k < orig.len() - 1 {
                        assert(crate::ast::inline_item_text(item) =~= orig[k].0@ + seq![
                            ' ',
                            '=',
                            ' ',
                        ] + crate::types::value_render(orig[k].1) + seq![',', ' ']);
                    } else {
                        assert(crate::ast::inline_item_text(item) =~= orig[k].0@ + seq![
                            ' ',
                            '=',
                            ' ',
                        ] + crate::types::value_render(orig[k].1));
                        assert(crate::types::it_items_render(orig, k + 1) =~= Seq::<
                            char,
                        >::empty());
                    }
                    assert(crate::ast::inline_items_text(items@.push(item), 0)
                        + crate::types::it_items_render(orig, k + 1)
                        =~= crate::types::it_items_render(orig, 0));
                    assert(orig.subrange(k, orig.len() as int).drop_first() =~= orig.subrange(
                        k + 1,
                        orig.len() as int,
                    ));
                }
                items.push(item);
            }
            let node = InlineNode { ws1: String::new(), items, ws2: String::new() };
            proof {
                assert(crate::types::it_items_render(orig, orig.len() as int) =~= Seq::<
                    char,
                >::empty());
                assert(vnode_render(VNode::Inline(node)) =~= value_render(v0));
            }
            VNode::Inline(node)
        },
        other => {
            proof {
                lemma_value_eq_refl(v0);
            }
            let sn = ScalarNode { prefix: String::new(), val: other };
            proof {
                assert(crate::ast::scalar_render(sn) =~= value_render(v0));
            }
            VNode::Scalar(sn)
        },
    }
}

/// Whether a value carries no container structure.
fn value_is_scalar(v: &Value) -> (b: bool)
    ensures
        b == is_scalar_value(*v),
{
    match v {
        Value::Array(_) => false,
        Value::InlineTable(_) => false,
        _ => true,
    }
}

/// Whether the node's pair keys equal the new table's keys, position by
/// position.
fn inline_keys_match(t_items: &Vec<InlineItem>, xs: &Vec<(String, Value)>) -> (b: bool)
    requires
        t_items@.len() == xs@.len(),
    ensures
        b == (forall|i: int|
            0 <= i < t_items@.len() ==> (#[trigger] t_items@[i]).key@ == xs@[i].0@),
{
    let n = t_items.len();
    for i in 0..n
        invariant
            n == t_items@.len(),
            t_items@.len() == xs@.len(),
            forall|j: int| 0 <= j < i ==> (#[trigger] t_items@[j]).key@ == xs@[j].0@,
        decreases n - i,
    {
        if !(t_items[i].key == xs[i].0) {
            return false;
        }
    }
    true
}

/// Replaces the value held at a node. Shape-preserving replacements keep
/// every byte of surrounding formatting; anything else rebuilds the node
/// canonically and reports it.
#[verifier::loop_isolation(false)]
#[verifier::rlimit(100)]
pub fn set_at(o: VNode, v: Value) -> (r: (VNode, bool))
    ensures
        set_at_rel(o, v, r.0),
        r.1 == reformats(o, v),
        vnode_value_matches(r.0, v),
    decreases o,
{
    let ghost o0 = o;
    let ghost v0 = v;
    match o {
        VNode::Scalar(_) => {
            if value_is_scalar(&v) {
                proof {
                    lemma_value_eq_refl(v0);
                }
                (VNode::Scalar(ScalarNode { prefix: String::new(), val: v }), false)
            } else {
                (canonical_vnode(v), true)
            }
        },
        VNode::Arr(a) => {
            match v {
                Value::Array(xs) => {
                    if xs.len() != a.items.len() {
                        proof {
                            assert(v0 == Value::Array(xs));
                        }
                        return (canonical_vnode(Value::Array(xs)), true);
                    }
                    let ghost a0 = a;
                    let ghost orig_items = a.items@;
                    let ghost orig_vals = xs@;
                    let mut a = a;
                    let mut xs = xs;
                    let mut out: Vec<ArrayItem> = Vec::new();
                    while xs.len() > 0
                        invariant
                            a.ws1 == a0.ws1,
                            a.ws2 == a0.ws2,
                            out@.len() + xs@.len() == orig_items.len(),
                            a.items@.len() == xs@.len(),
                            a.items@ == orig_items.subrange(
                                out@.len() as int,
                                orig_items.len() as int,
                            ),
                            xs@ == orig_vals.subrange(out@.len() as int, orig_vals.len() as int),
                            forall|j: int|
                                0 <= j < out@.len() ==> (#[trigger] out@[j]).sep
                                    == orig_items[j].sep && set_at_rel(
                                    orig_items[j].val,
                                    orig_vals[j],
                                    out@[j].val,
                                ) && vnode_value_matches(out@[j].val, orig_vals[j]),
                        decreases xs@.len(),
                    {
                        let ghost k = out@.len() as int;
                        let item = a.items.remove(0);
                        let x = xs.remove(0);
                        proof {
                            assert(item == orig_items[k]);
                            assert(x == orig_vals[k]);
                            assert(decreases_to!(o0 => o0->Arr_0));
                            assert(decreases_to!(o0->Arr_0 => o0->Arr_0.items));
                            assert(decreases_to!(o0->Arr_0.items => o0->Arr_0.items@));
                            assert(decreases_to!(o0->Arr_0.items@ => o0->Arr_0.items@[k]));
                            assert(decreases_to!(o0->Arr_0.items@[k] => o0->Arr_0.items@[k].val));
                            assert(decreases_to!(o0 => item.val));
                        }
                        let (child, child_rf) = set_at(item.val, x);
                        out.push(ArrayItem { val: child, sep: item.sep });
                        proof {
                            assert(orig_items.subrange(k, orig_items.len() as int).drop_first()
                                =~= orig_items.subrange(k + 1, orig_items.len() as int));
                            assert(orig_vals.subrange(k, orig_vals.len() as int).drop_first()
                                =~= orig_vals.subrange(k + 1, orig_vals.len() as int));
                            assert(set_at_rel(orig_items[k].val, orig_vals[k], out@[k].val));
                        }
                    }
                    let node = ArrayNode { ws1: a.ws1, items: out, ws2: a.ws2 };
                    proof {
                        assert(o0 == VNode::Arr(a0));
                        assert(v0 is Array && v0->Array_0@ == orig_vals);
                        assert(node.ws1 == a0.ws1 && node.ws2 == a0.ws2);
                        assert(node.items@.len() == a0.items@.len());
                        assert(forall|j: int|
                            0 <= j < a0.items@.len() ==> (#[trigger] node.items@[j]).sep
                                == a0.items@[j].sep);
                        assert(forall|j: int|
                            0 <= j < a0.items@.len() ==> set_at_rel(
                                a0.items@[j].val,
                                v0->Array_0@[j],
                                (#[trigger] node.items@[j]).val,
                            ));
                        assert(!reformats(o0, v0));
                        assert(set_at_rel(o0, v0, VNode::Arr(node)));
                        assert(vnode_value_matches(VNode::Arr(node), v0));
                    }
                    (VNode::Arr(node), false)
                },
                other => {
                    proof {
                        assert(v0 == other);
                    }
                    (canonical_vnode(other), true)
                },
            }
        },
        VNode::Inline(t) => {
            match v {
                Value::InlineTable(xs) => {
                    if xs.len() != t.items.len() || !inline_keys_match(&t.items, &xs) {
                        proof {
                            assert(v0 == Value::InlineTable(xs));
                        }
                        return (canonical_vnode(Value::InlineTable(xs)), true);
                    }
                    let ghost t0 = t;
                    let ghost orig_items = t.items@;
                    let ghost orig_vals = xs@;
                    let mut t = t;
                    let mut xs = xs;
                    let mut out: Vec<InlineItem> = Vec::new();
                    while xs.len() > 0
                        invariant
                            t.ws1 == t0.ws1,
                            t.ws2 == t0.ws2,
                            out@.len() + xs@.len() == orig_items.len(),
                            t.items@.len() == xs@.len(),
                            t.items@ == orig_items.subrange(
                                out@.len() as int,
                                orig_items.len() as int,
                            ),
                            xs@ == orig_vals.subrange(out@.len() as int, orig_vals.len() as int),
                            forall|j: int|
                                0 <= j < out@.len() ==> (#[trigger] out@[j]).key == orig_items[j].key
                                    && out@[j].kws1 == orig_items[j].kws1 && out@[j].kws2
                                    == orig_items[j].kws2 && out@[j].sep == orig_items[j].sep && (
                                set_at_rel(
                                    orig_items[j].val,
                                    orig_vals[j].1,
                                    out@[j].val,
                                )) && out@[j].key@ == orig_vals[j].0@ && vnode_value_matches(
                                    out@[j].val,
                                    orig_vals[j].1,
                                ),
                        decreases xs@.len(),
                    {
                        let ghost k = out@.len() as int;
                        let item = t.items.remove(0);
                        let (_xk, x) = xs.remove(0);
                        proof {
                            assert(item == orig_items[k]);
                            assert(x == orig_vals[k].1);
                            assert(decreases_to!(o0 => o0->Inline_0));
                            assert(decreases_to!(o0->Inline_0 => o0->Inline_0.items));
                            assert(decreases_to!(o0->Inline_0.items => o0->Inline_0.items@));
                            assert(decreases_to!(o0->Inline_0.items@ => o0->Inline_0.items@[k]));
                            assert(decreases_to!(o0->Inline_0.items@[k] => o0->Inline_0.items@[k].val));
                            assert(decreases_to!(o0 => item.val));
                        }
                        let (child, child_rf) = set_at(item.val, x);
                        out.push(
                            InlineItem {
                                key: item.key,
                                kws1: item.kws1,
                                kws2: item.kws2,
                                val: child,
                                sep: item.sep,
                            },
                        );
                        proof {
                            assert(orig_items.subrange(k, orig_items.len() as int).drop_first()
                                =~= orig_items.subrange(k + 1, orig_items.len() as int));
                            assert(orig_vals.subrange(k, orig_vals.len() as int).drop_first()
                                =~= orig_vals.subrange(k + 1, orig_vals.len() as int));
                            assert(set_at_rel(orig_items[k].val, orig_vals[k].1, out@[k].val));
                        }
                    }
                    let node = InlineNode { ws1: t.ws1, items: out, ws2: t.ws2 };
                    proof {
                        assert(o0 == VNode::Inline(t0));
                        assert(v0 is InlineTable && v0->InlineTable_0@ == orig_vals);
                        assert(node.ws1 == t0.ws1 && node.ws2 == t0.ws2);
                        assert(node.items@.len() == t0.items@.len());
                        assert(forall|j: int|
                            0 <= j < t0.items@.len() ==> (#[trigger] node.items@[j]).key
                                == t0.items@[j].key && node.items@[j].kws1 == t0.items@[j].kws1
                                && node.items@[j].kws2 == t0.items@[j].kws2 && node.items@[j].sep
                                == t0.items@[j].sep);
                        assert(forall|j: int|
                            0 <= j < t0.items@.len() ==> set_at_rel(
                                t0.items@[j].val,
                                v0->InlineTable_0@[j].1,
                                (#[trigger] node.items@[j]).val,
                            ));
                        assert(!reformats(o0, v0));
                        assert(set_at_rel(o0, v0, VNode::Inline(node)));
                        assert(vnode_value_matches(VNode::Inline(node), v0));
                    }
                    (VNode::Inline(node), false)
                },
                other => {
                    proof {
                        assert(v0 == other);
                    }
                    (canonical_vnode(other), true)
                },
            }
        },
    }
}

/// Replaces the value at the end of `path[d..]`, leaving everything off
/// the path untouched.
#[verifier::loop_isolation(false)]
pub fn set_path(o: VNode, path: &Vec<usize>, d: usize, v: Value) -> (r: (VNode, bool))
    requires
        d <= path@.len(),
        nav(o, path@, d as int) is Some,
    ensures
        set_path_rel(o, path@, d as int, v, r.0),
        nav(r.0, path@, d as int) matches Option::Some(m) && vnode_value_matches(m, v),
        nav(o, path@, d as int) matches Option::Some(m0) && r.1 == reformats(m0, v),
    decreases path@.len() - d,
{
    let ghost o0 = o;
    if d == path.len() {
        let (n, rf) = set_at(o, v);
        proof {
            assert(nav(n, path@, d as int) == Option::Some(n));
        }
        return (n, rf);
    }
    let step = path[d];
    match o {
        VNode::Arr(mut a) => {
            let ghost a0 = a;
            let item = a.items.remove(step);
            let (child, rf) = set_path(item.val, path, d + 1, v);
            let rebuilt = ArrayItem { val: child, sep: item.sep };
            a.items.insert(step, rebuilt);
            proof {
                assert(a.items@ =~= a0.items@.update(step as int, rebuilt));
            }
            let node = VNode::Arr(a);
            proof {
                assert(set_path_rel(o0, path@, d as int, v, node));
                assert(nav(node, path@, d as int) == nav(rebuilt.val, path@, d + 1));
            }
            (node, rf)
        },
        VNode::Inline(mut t) => {
            let ghost t0 = t;
            let item = t.items.remove(step);
            let (child, rf) = set_path(item.val, path, d + 1, v);
            let rebuilt = InlineItem {
                key: item.key,
                kws1: item.kws1,
                kws2: item.kws2,
                val: child,
                sep: item.sep,
            };
            t.items.insert(step, rebuilt);
            proof {
                assert(t.items@ =~= t0.items@.update(step as int, rebuilt));
            }
            let node = VNode::Inline(t);
            proof {
                assert(set_path_rel(o0, path@, d as int, v, node));
                assert(nav(node, path@, d as int) == nav(rebuilt.val, path@, d + 1));
            }
            (node, rf)
        },
        VNode::Scalar(sn) => {
            proof {
                assert(false);
            }
            (VNode::Scalar(sn), false)
        },
    }
}

// --- index maintenance -------------------------------------------------------

/// Finding a key in a concatenation: the left part wins if it has the key.
pub proof fn lemma_find_concat(s: Seq<IndexEntry>, t: Seq<IndexEntry>, key: Seq<char>)
    ensures
        spec_find(s + t, key) == (match spec_find(s, key) {
            Option::Some(e) => Option::Some(e),
            Option::None => spec_find(t, key),
        }),
    decreases s.len(),
{
    if s.len() == 0 {
        assert(s + t =~= t);
    } else {
        lemma_find_concat(s.drop_first(), t, key);
        assert((s + t).drop_first() =~= s.drop_first() + t);
        assert((s + t)[0] == s[0]);
    }
}

/// A key absent from every entry is never found.
pub proof fn lemma_find_none_when_absent(t: Seq<IndexEntry>, k: Seq<char>)
    requires
        forall|j: int| 0 <= j < t.len() ==> (#[trigger] t[j]).key@ != k,
    ensures
        spec_find(t, k) is None,
    decreases t.len(),
{
    if t.len() > 0 {
        lemma_find_none_when_absent(t.drop_first(), k);
    }
}

/// Finding a children entry in a concatenation: the left part wins if it
/// has the key.
pub proof fn lemma_find_child_concat(s: Seq<(String, Children)>, t: Seq<(String, Children)>, key: Seq<char>)
    ensures
        spec_find_child(s + t, key) == (match spec_find_child(s, key) {
            Option::Some(c) => Option::Some(c),
            Option::None => spec_find_child(t, key),
        }),
    decreases s.len(),
{
    if s.len() == 0 {
        assert(s + t =~= t);
    } else {
        lemma_find_child_concat(s.drop_first(), t, key);
        assert((s + t).drop_first() =~= s.drop_first() + t);
        assert((s + t)[0] == s[0]);
    }
}

/// A key absent from every children entry is never found.
pub proof fn lemma_find_child_none_when_absent(t: Seq<(String, Children)>, k: Seq<char>)
    requires
        forall|j: int| 0 <= j < t.len() ==> (#[trigger] t[j]).0@ != k,
    ensures
        spec_find_child(t, k) is None,
    decreases t.len(),
{
    if t.len() > 0 {
        lemma_find_child_none_when_absent(t.drop_first(), k);
    }
}

/// Replacing one children entry with another under the same name changes
/// no other name's lookup.
pub proof fn lemma_find_child_update(s: Seq<(String, Children)>, i: int, e: (String, Children), k: Seq<char>)
    requires
        0 <= i < s.len(),
        e.0@ == s[i].0@,
        e.0@ != k,
    ensures
        spec_find_child(s.update(i, e), k) == spec_find_child(s, k),
    decreases s.len(),
{
    if i == 0 {
        assert(s.update(0, e).drop_first() =~= s.drop_first());
        assert(s.update(0, e)[0] == e);
    } else {
        lemma_find_child_update(s.drop_first(), i - 1, e, k);
        assert(s.update(i, e).drop_first() =~= s.drop_first().update(i - 1, e));
        assert(s.update(i, e)[0] == s[0]);
    }
}

/// Replacing the first entry under a name makes the new value the one
/// found under that name.
pub proof fn lemma_find_child_update_hit(s: Seq<(String, Children)>, i: int, e: (String, Children))
    requires
        0 <= i < s.len(),
        e.0@ == s[i].0@,
        forall|j: int| 0 <= j < i ==> (#[trigger] s[j]).0@ != e.0@,
    ensures
        spec_find_child(s.update(i, e), e.0@) == Option::Some(e.1),
    decreases i,
{
    if i == 0 {
        assert(s.update(0, e)[0] == e);
    } else {
        lemma_find_child_update_hit(s.drop_first(), i - 1, e);
        assert(s.update(i, e).drop_first() =~= s.drop_first().update(i - 1, e));
        assert(s.update(i, e)[0] == s[0]);
    }
}

/// Whether `k` is `base` itself or addresses something inside it.
pub open spec fn key_within(k: Seq<char>, base: Seq<char>) -> bool {
    k == base || is_sub_key(k, base)
}

/// A key outside `base` is also outside anything strictly inside `base`.
pub proof fn lemma_sub_key_trans_opt(k: Seq<char>, mid: Seq<char>, base: Seq<char>)
    requires
        is_sub_key(mid, base),
        !key_within(k, base),
    ensures
        !key_within(k, mid),
{
    if key_within(k, mid) {
        lemma_sub_key_trans(k, mid, base);
    }
}

/// Being inside is transitive through a middle key.
pub proof fn lemma_sub_key_trans(c: Seq<char>, b: Seq<char>, a: Seq<char>)
    requires
        key_within(c, b),
        is_sub_key(b, a),
    ensures
        is_sub_key(c, a),
{
    if c == b {
    } else {
        assert(c.subrange(0, a.len() as int) =~= b.subrange(0, a.len() as int));
        assert(c[a.len() as int] == b[a.len() as int]);
    }
}

/// A dotted child key lies inside a nonempty base.
pub proof fn lemma_combine_sub(base: Seq<char>, child: Seq<char>)
    requires
        base.len() > 0,
    ensures
        is_sub_key(crate::types::spec_combine_keys(base, child), base),
{
    let k = crate::types::spec_combine_keys(base, child);
    assert(k.subrange(0, base.len() as int) =~= base);
}

/// A bracketed child key lies inside its base.
pub proof fn lemma_combine_index_sub(base: Seq<char>, i: nat)
    ensures
        is_sub_key(crate::types::spec_combine_keys_index(base, i), base),
{
    let k = crate::types::spec_combine_keys_index(base, i);
    assert(k.subrange(0, base.len() as int) =~= base);
}

/// The index entries that do not address anything strictly inside `base`,
/// in order.
pub open spec fn drop_sub_entries(s: Seq<IndexEntry>, base: Seq<char>) -> Seq<IndexEntry> {
    s.filter(|e: IndexEntry| !is_sub_key(e.key@, base))
}

/// Appending an entry extends the kept entries exactly when the entry is
/// not inside `base`.
pub proof fn lemma_drop_sub_entries_push(s: Seq<IndexEntry>, x: IndexEntry, base: Seq<char>)
    ensures
        drop_sub_entries(s.push(x), base) == (if !is_sub_key(x.key@, base) {
            drop_sub_entries(s, base).push(x)
        } else {
            drop_sub_entries(s, base)
        }),
{
    reveal(Seq::filter);
    assert(s.push(x).drop_last() =~= s);
    assert(s.push(x).last() == x);
}

/// No entries are kept from an empty index.
pub proof fn lemma_drop_sub_entries_empty(base: Seq<char>)
    ensures
        drop_sub_entries(Seq::<IndexEntry>::empty(), base) == Seq::<IndexEntry>::empty(),
{
    reveal(Seq::filter);
}

/// Removes exactly the index entries that address something strictly
/// inside `base`, keeping every other entry in order; every key that is
/// not inside `base` — `base` itself included — is found as before.
pub fn remove_sub_entries(index: &mut Vec<IndexEntry>, base: &String)
    ensures
        final(index)@ == drop_sub_entries(old(index)@, base@),
        forall|k: Seq<char>|
            !is_sub_key(k, base@) ==> spec_find(final(index)@, k) == spec_find(old(index)@, k),
{
    let ghost orig = index@;
    let mut kept: Vec<IndexEntry> = Vec::new();
    proof {
        assert(kept@ + index@ =~= orig);
        assert(orig.subrange(0, 0) =~= Seq::<IndexEntry>::empty());
        lemma_drop_sub_entries_empty(base@);
    }
    while index.len() > 0
        invariant
            index@.len() <= orig.len(),
            index@ == orig.subrange(orig.len() - index@.len(), orig.len() as int),
            kept@ == drop_sub_entries(orig.subrange(0, orig.len() - index@.len()), base@),
            forall|k: Seq<char>|
                !is_sub_key(k, base@) ==> spec_find(kept@ + index@, k) == spec_find(orig, k),
        decreases index@.len(),
    {
        let ghost pre_kept = kept@;
        let ghost pre_rest = index@;
        let ghost done = orig.subrange(0, orig.len() - pre_rest.len());
        let e = index.remove(0);
        proof {
            assert(pre_rest[0] == e);
            assert(pre_rest.drop_first() =~= index@);
            let done2 = orig.subrange(0, orig.len() - index@.len());
            assert(done2 =~= done.push(e));
            lemma_drop_sub_entries_push(done, e, base@);
        }
        if is_sub_key_exec(&e.key, base) {
            proof {
                assert forall|k: Seq<char>| !is_sub_key(k, base@) implies spec_find(
                    kept@ + index@,
                    k,
                ) == spec_find(orig, k) by {
                    assert(e.key@ != k);
                    lemma_find_concat(pre_kept, pre_rest, k);
                    lemma_find_concat(pre_kept, index@, k);
                }
            }
        } else {
            kept.push(e);
            proof {
                assert(kept@ =~= pre_kept.push(e));
                assert forall|k: Seq<char>| !is_sub_key(k, base@) implies spec_find(
                    kept@ + index@,
                    k,
                ) == spec_find(orig, k) by {
                    lemma_find_concat(pre_kept, pre_rest, k);
                    lemma_find_concat(pre_kept.push(e), index@, k);
                    lemma_find_concat(pre_kept, seq![e], k);
                    assert(pre_kept.push(e) =~= pre_kept + seq![e]);
                    assert(seq![e].drop_first() =~= Seq::<IndexEntry>::empty());
                    lemma_find_concat(seq![e], index@, k);
                    assert((seq![e] + index@) =~= pre_rest);
                }
            }
        }
    }
    proof {
        assert(kept@ + index@ =~= kept@);
        assert(orig.subrange(0, orig.len() as int) =~= orig);
    }
    *index = kept;
}

/// The children entries not recorded at or strictly inside `base`, in
/// order.
pub open spec fn drop_sub_child_entries(s: Seq<(String, Children)>, base: Seq<char>) -> Seq<
    (String, Children),
> {
    s.filter(|e: (String, Children)| !key_within(e.0@, base))
}

/// Appending a children entry extends the kept entries exactly when the
/// entry is not at or inside `base`.
pub proof fn lemma_drop_sub_child_entries_push(
    s: Seq<(String, Children)>,
    x: (String, Children),
    base: Seq<char>,
)
    ensures
        drop_sub_child_entries(s.push(x), base) == (if !key_within(x.0@, base) {
            drop_sub_child_entries(s, base).push(x)
        } else {
            drop_sub_child_entries(s, base)
        }),
{
    reveal(Seq::filter);
    assert(s.push(x).drop_last() =~= s);
    assert(s.push(x).last() == x);
}

/// No children entries are kept from an empty map.
pub proof fn lemma_drop_sub_child_entries_empty(base: Seq<char>)
    ensures
        drop_sub_child_entries(Seq::<(String, Children)>::empty(), base) == Seq::<
            (String, Children),
        >::empty(),
{
    reveal(Seq::filter);
}

/// Removes exactly the children entries recorded at or strictly inside
/// `base`, keeping every other entry in order; every other name is found
/// as before, and `base` itself is no longer found.
pub fn remove_sub_children(children: &mut Vec<(String, Children)>, base: &String)
    ensures
        final(children)@ == drop_sub_child_entries(old(children)@, base@),
        forall|k: Seq<char>|
            !key_within(k, base@) ==> spec_find_child(final(children)@, k) == spec_find_child(
                old(children)@,
                k,
            ),
        spec_find_child(final(children)@, base@) is None,
{
    let ghost orig = children@;
    let mut kept: Vec<(String, Children)> = Vec::new();
    proof {
        assert(kept@ + children@ =~= orig);
        lemma_drop_sub_child_entries_empty(base@);
        assert(orig.subrange(0, 0) =~= Seq::<(String, Children)>::empty());
    }
    while children.len() > 0
        invariant
            children@.len() <= orig.len(),
            children@ == orig.subrange(orig.len() - children@.len(), orig.len() as int),
            kept@ == drop_sub_child_entries(
                orig.subrange(0, orig.len() - children@.len()),
                base@,
            ),
            forall|k: Seq<char>|
                !key_within(k, base@) ==> spec_find_child(kept@ + children@, k) == spec_find_child(
                    orig,
                    k,
                ),
            forall|j: int| 0 <= j < kept@.len() ==> !key_within((#[trigger] kept@[j]).0@, base@),
        decreases children@.len(),
    {
        let ghost pre_kept = kept@;
        let ghost pre_rest = children@;
        let e = children.remove(0);
        proof {
            assert(pre_rest[0] == e);
            assert(pre_rest.drop_first() =~= children@);
            let done = orig.subrange(0, orig.len() - pre_rest.len());
            let done2 = orig.subrange(0, orig.len() - children@.len());
            assert(done2 =~= done.push(e));
            lemma_drop_sub_child_entries_push(done, e, base@);
        }
        if is_sub_key_exec(&e.0, base) || e.0 == *base {
            proof {
                assert forall|k: Seq<char>| !key_within(k, base@) implies spec_find_child(
                    kept@ + children@,
                    k,
                ) == spec_find_child(orig, k) by {
                    assert(e.0@ != k);
                    lemma_find_child_concat(pre_kept, pre_rest, k);
                    lemma_find_child_concat(pre_kept, children@, k);
                }
            }
        } else {
            kept.push(e);
            proof {
                assert(kept@ =~= pre_kept.push(e));
                assert forall|k: Seq<char>| !key_within(k, base@) implies spec_find_child(
                    kept@ + children@,
                    k,
                ) == spec_find_child(orig, k) by {
                    lemma_find_child_concat(pre_kept, pre_rest, k);
                    lemma_find_child_concat(pre_kept.push(e), children@, k);
                    lemma_find_child_concat(pre_kept, seq![e], k);
                    assert(pre_kept.push(e) =~= pre_kept + seq![e]);
                    assert(seq![e].drop_first() =~= Seq::<(String, Children)>::empty());
                    lemma_find_child_concat(seq![e], children@, k);
                    assert((seq![e] + children@) =~= pre_rest);
                }
            }
        }
    }
    proof {
        assert(kept@ + children@ =~= kept@);
        assert(orig.subrange(0, orig.len() as int) =~= orig);
        lemma_find_child_none_when_absent(kept@, base@);
    }
    *children = kept;
}

/// A single space, as an owned string.
fn one_space() -> (r: String)
    ensures
        r@ == seq![' '],
{
    let s = String::from_str(" ");
    proof {
        reveal_strlit(" ");
        assert(" "@ =~= seq![' ']);
    }
    s
}

/// Whether `child` addresses something strictly inside `base`: it extends
/// `base` with a dotted or bracketed segment.
pub open spec fn is_sub_key(child: Seq<char>, base: Seq<char>) -> bool {
    child.len() > base.len() && child.subrange(0, base.len() as int) == base && (child[base.len() as int]
        == '.' || child[base.len() as int] == '[')
}

/// Whether `child` addresses something strictly inside `base`.
pub fn is_sub_key_exec(child: &String, base: &String) -> (b: bool)
    ensures
        b == is_sub_key(child@, base@),
{
    let cv = crate::text::str_to_chars(child.as_str());
    let bv = crate::text::str_to_chars(base.as_str());
    if cv.len() <= bv.len() {
        proof {
            assert(!is_sub_key(child@, base@));
        }
        return false;
    }
    let n = bv.len();
    for i in 0..n
        invariant
            n == bv@.len(),
            cv@.len() > bv@.len(),
            cv@ == child@,
            bv@ == base@,
            forall|j: int| 0 <= j < i ==> cv@[j] == bv@[j],
        decreases n - i,
    {
        if cv[i] != bv[i] {
            proof {
                assert(child@.subrange(0, base@.len() as int)[i as int] != base@[i as int]);
            }
            return false;
        }
    }
    proof {
        assert(child@.subrange(0, base@.len() as int) =~= base@);
    }
    let c = cv[n];
    c == '.' || c == '['
}

} // verus!
