//! The format-preserving document model: nodes that keep every byte of
//! surrounding whitespace, separators and comments, so that rendering
//! reproduces the parsed text exactly.

use vstd::prelude::*;

use crate::types::{strtype_delim, value_eq, value_render, Value};

verus! {

/// A pair of whitespace runs around a separator token.
#[derive(Debug)]
pub struct WSSep {
    /// The whitespace before the separator.
    pub ws1: String,
    /// The whitespace after the separator.
    pub ws2: String,
}

/// A scalar value node. For multi-line strings, `prefix` keeps the newline
/// that immediately followed the opening delimiter and is trimmed from the
/// value's content; it is empty everywhere else.
#[derive(Debug)]
pub struct ScalarNode {
    pub prefix: String,
    pub val: Value,
}

/// One element of an array node: the value, and the whitespace around the
/// comma that follows it, if one does.
#[derive(Debug)]
pub struct ArrayItem {
    pub val: VNode,
    pub sep: Option<WSSep>,
}

/// An array node: the trivia after `[`, the elements, and the trivia
/// before `]`.
#[derive(Debug)]
pub struct ArrayNode {
    pub ws1: String,
    pub items: Vec<ArrayItem>,
    pub ws2: String,
}

/// One pair of an inline-table node: the key as written, the whitespace
/// around `=`, the value, and the whitespace around the trailing comma, if
/// one follows.
#[derive(Debug)]
pub struct InlineItem {
    pub key: String,
    pub kws1: String,
    pub kws2: String,
    pub val: VNode,
    pub sep: Option<WSSep>,
}

/// An inline-table node: the whitespace after `{`, the pairs, and the
/// whitespace before `}`.
#[derive(Debug)]
pub struct InlineNode {
    pub ws1: String,
    pub items: Vec<InlineItem>,
    pub ws2: String,
}

/// A value node in the document tree.
#[derive(Debug)]
pub enum VNode {
    /// A scalar in its exact written form.
    Scalar(ScalarNode),
    /// An array with its separators and trivia.
    Arr(ArrayNode),
    /// An inline table with its separators and whitespace.
    Inline(InlineNode),
}

/// One dotted segment of a table header after the first: the whitespace
/// around the dot, then the key as written.
#[derive(Debug)]
pub struct TableSeg {
    pub ws1: String,
    pub ws2: String,
    pub key: String,
}

/// A table header: `[a.b]`, or `[[a.b]]` for an array of tables.
#[derive(Debug)]
pub struct TableNode {
    /// Whether this is an array-of-tables header.
    pub aot: bool,
    /// Whitespace after the opening bracket.
    pub ws1: String,
    /// The first key, as written.
    pub first_key: String,
    /// The remaining dotted segments.
    pub subkeys: Vec<TableSeg>,
    /// Whitespace before the closing bracket.
    pub ws2: String,
}

/// A key-value pair: the key as written, the whitespace around `=`, and
/// the value node.
#[derive(Debug)]
pub struct KeyVal {
    pub key: String,
    pub kws1: String,
    pub kws2: String,
    pub val: VNode,
}

/// One line-like unit of the document: leading whitespace, at most one of
/// a key-value pair or a table header, trailing whitespace, and an
/// optional comment (stored without its `#`).
#[derive(Debug)]
pub struct Expression {
    pub ws1: String,
    pub ws2: String,
    pub keyval: Option<KeyVal>,
    pub table: Option<TableNode>,
    pub comment: Option<String>,
}

/// An expression with the newline that preceded it; the first expression
/// of a document carries an empty newline.
#[derive(Debug)]
pub struct NLExpression {
    pub nl: String,
    pub expr: Expression,
}

// --- render specs ------------------------------------------------------------

/// The text of a scalar node: its value's written form, with the trimmed
/// newline restored inside a string's opening delimiter.
pub open spec fn scalar_render(sn: ScalarNode) -> Seq<char> {
    match sn.val {
        Value::String(s, t) => strtype_delim(t) + sn.prefix@ + s@ + strtype_delim(t),
        v => value_render(v),
    }
}

/// The text of an optional comma separator.
pub open spec fn sep_render(sep: Option<WSSep>) -> Seq<char> {
    match sep {
        Option::Some(w) => w.ws1@ + seq![','] + w.ws2@,
        Option::None => Seq::<char>::empty(),
    }
}

/// The text of a value node.
pub open spec fn vnode_render(n: VNode) -> Seq<char>
    decreases n,
{
    match n {
        VNode::Scalar(sn) => scalar_render(sn),
        VNode::Arr(a) => seq!['['] + a.ws1@ + arr_items_text(a.items@, 0) + a.ws2@ + seq![']'],
        VNode::Inline(t) => seq!['{'] + t.ws1@ + inline_items_text(t.items@, 0) + t.ws2@
            + seq!['}'],
    }
}

/// The text of an array's elements from index `i` on.
pub open spec fn arr_items_text(items: Seq<ArrayItem>, i: int) -> Seq<char>
    decreases items, items.len() - i,
{
    if i < 0 || i >= items.len() {
        Seq::<char>::empty()
    } else {
        vnode_render(items[i].val) + sep_render(items[i].sep) + arr_items_text(items, i + 1)
    }
}

/// The text of one array element with its separator.
pub open spec fn arr_item_text(it: ArrayItem) -> Seq<char> {
    vnode_render(it.val) + sep_render(it.sep)
}

/// The text of an inline table's pairs from index `i` on.
pub open spec fn inline_items_text(items: Seq<InlineItem>, i: int) -> Seq<char>
    decreases items, items.len() - i,
{
    if i < 0 || i >= items.len() {
        Seq::<char>::empty()
    } else {
        items[i].key@ + items[i].kws1@ + seq!['='] + items[i].kws2@ + vnode_render(items[i].val)
            + sep_render(items[i].sep) + inline_items_text(items, i + 1)
    }
}

/// The text of one inline-table pair with its separator.
pub open spec fn inline_item_text(it: InlineItem) -> Seq<char> {
    it.key@ + it.kws1@ + seq!['='] + it.kws2@ + vnode_render(it.val) + sep_render(it.sep)
}

/// Appending an element extends the elements' text on the right.
pub proof fn lemma_arr_items_push(items: Seq<ArrayItem>, x: ArrayItem, i: int)
    requires
        0 <= i <= items.len(),
    ensures
        arr_items_text(items.push(x), i) == arr_items_text(items, i) + arr_item_text(x),
    decreases items.len() - i,
{
    if i == items.len() {
        assert(arr_items_text(items.push(x), i + 1) =~= Seq::<char>::empty());
        assert(items.push(x)[i] == x);
        assert(arr_items_text(items, i) =~= Seq::<char>::empty());
        assert(arr_items_text(items.push(x), i) =~= arr_items_text(items, i) + arr_item_text(x));
    } else {
        lemma_arr_items_push(items, x, i + 1);
        assert(items.push(x)[i] == items[i]);
        assert(arr_items_text(items.push(x), i) =~= arr_items_text(items, i) + arr_item_text(x));
    }
}

/// Appending a pair extends the pairs' text on the right.
pub proof fn lemma_inline_items_push(items: Seq<InlineItem>, x: InlineItem, i: int)
    requires
        0 <= i <= items.len(),
    ensures
        inline_items_text(items.push(x), i) == inline_items_text(items, i) + inline_item_text(x),
    decreases items.len() - i,
{
    if i == items.len() {
        assert(inline_items_text(items.push(x), i + 1) =~= Seq::<char>::empty());
        assert(items.push(x)[i] == x);
        assert(inline_items_text(items, i) =~= Seq::<char>::empty());
        assert(inline_items_text(items.push(x), i) =~= inline_items_text(items, i)
            + inline_item_text(x));
    } else {
        lemma_inline_items_push(items, x, i + 1);
        assert(items.push(x)[i] == items[i]);
        assert(inline_items_text(items.push(x), i) =~= inline_items_text(items, i)
            + inline_item_text(x));
    }
}

/// The text of a table header.
pub open spec fn table_render(t: TableNode) -> Seq<char> {
    (if t.aot {
        seq!['[', '[']
    } else {
        seq!['[']
    }) + t.ws1@ + t.first_key@ + table_segs_text(t.subkeys@, 0) + t.ws2@ + (if t.aot {
        seq![']', ']']
    } else {
        seq![']']
    })
}

/// The text of a header's dotted segments from index `i` on.
pub open spec fn table_segs_text(segs: Seq<TableSeg>, i: int) -> Seq<char>
    decreases segs.len() - i,
{
    if i < 0 || i >= segs.len() {
        Seq::<char>::empty()
    } else {
        segs[i].ws1@ + seq!['.'] + segs[i].ws2@ + segs[i].key@ + table_segs_text(segs, i + 1)
    }
}

/// The text of one dotted segment.
pub open spec fn table_seg_text(sg: TableSeg) -> Seq<char> {
    sg.ws1@ + seq!['.'] + sg.ws2@ + sg.key@
}

/// Appending a segment extends the segments' text on the right.
pub proof fn lemma_table_segs_push(segs: Seq<TableSeg>, x: TableSeg, i: int)
    requires
        0 <= i <= segs.len(),
    ensures
        table_segs_text(segs.push(x), i) == table_segs_text(segs, i) + table_seg_text(x),
    decreases segs.len() - i,
{
    if i == segs.len() {
        assert(table_segs_text(segs.push(x), i + 1) =~= Seq::<char>::empty());
        assert(segs.push(x)[i] == x);
        assert(table_segs_text(segs, i) =~= Seq::<char>::empty());
        assert(table_segs_text(segs.push(x), i) =~= table_segs_text(segs, i) + table_seg_text(x));
    } else {
        lemma_table_segs_push(segs, x, i + 1);
        assert(segs.push(x)[i] == segs[i]);
        assert(table_segs_text(segs.push(x), i) =~= table_segs_text(segs, i) + table_seg_text(x));
    }
}

/// The text of a key-value pair.
pub open spec fn keyval_render(kv: KeyVal) -> Seq<char> {
    kv.key@ + kv.kws1@ + seq!['='] + kv.kws2@ + vnode_render(kv.val)
}

/// The text of an optional comment.
pub open spec fn comment_render(c: Option<String>) -> Seq<char> {
    match c {
        Option::Some(text) => seq!['#'] + text@,
        Option::None => Seq::<char>::empty(),
    }
}

/// The text of an expression.
pub open spec fn expr_render(e: Expression) -> Seq<char> {
    e.ws1@ + (match e.table {
        Option::Some(t) => table_render(t),
        Option::None => Seq::<char>::empty(),
    }) + (match e.keyval {
        Option::Some(kv) => keyval_render(kv),
        Option::None => Seq::<char>::empty(),
    }) + e.ws2@ + comment_render(e.comment)
}

/// The text of the document from expression `i` on.
pub open spec fn doc_render_from(exprs: Seq<NLExpression>, i: int) -> Seq<char>
    decreases exprs.len() - i,
{
    if i < 0 || i >= exprs.len() {
        Seq::<char>::empty()
    } else {
        exprs[i].nl@ + expr_render(exprs[i].expr) + doc_render_from(exprs, i + 1)
    }
}

/// The full text of the document.
pub open spec fn doc_render(exprs: Seq<NLExpression>) -> Seq<char> {
    doc_render_from(exprs, 0)
}

/// The text of one expression with its leading newline.
pub open spec fn nl_expr_text(e: NLExpression) -> Seq<char> {
    e.nl@ + expr_render(e.expr)
}

/// Appending an expression extends the document's text on the right.
pub proof fn lemma_doc_push(exprs: Seq<NLExpression>, x: NLExpression, i: int)
    requires
        0 <= i <= exprs.len(),
    ensures
        doc_render_from(exprs.push(x), i) == doc_render_from(exprs, i) + nl_expr_text(x),
    decreases exprs.len() - i,
{
    if i == exprs.len() {
        assert(doc_render_from(exprs.push(x), i + 1) =~= Seq::<char>::empty());
        assert(exprs.push(x)[i] == x);
        assert(doc_render_from(exprs, i) =~= Seq::<char>::empty());
        assert(doc_render_from(exprs.push(x), i) =~= doc_render_from(exprs, i) + nl_expr_text(x));
    } else {
        lemma_doc_push(exprs, x, i + 1);
        assert(exprs.push(x)[i] == exprs[i]);
        assert(doc_render_from(exprs.push(x), i) =~= doc_render_from(exprs, i) + nl_expr_text(x));
    }
}

// --- the value a node holds --------------------------------------------------

/// Whether public value `v` is what node `n` holds: scalars compare up to
/// string views, containers element by element.
pub open spec fn vnode_value_matches(n: VNode, v: Value) -> bool
    decreases n,
{
    match n {
        VNode::Scalar(sn) => value_eq(sn.val, v),
        VNode::Arr(a) => match v {
            Value::Array(xs) => xs@.len() == a.items@.len() && (forall|i: int|
                0 <= i < a.items@.len() ==> vnode_value_matches(
                    #[trigger] a.items@[i].val,
                    xs@[i],
                )),
            _ => false,
        },
        VNode::Inline(t) => match v {
            Value::InlineTable(xs) => xs@.len() == t.items@.len() && (forall|i: int|
                0 <= i < t.items@.len() ==> (#[trigger] t.items@[i]).key@ == xs@[i].0@
                    && vnode_value_matches(t.items@[i].val, xs@[i].1)),
            _ => false,
        },
    }
}

/// A node determines its value up to value equality.
pub proof fn lemma_matches_functional(n: VNode, a: Value, b: Value)
    requires
        vnode_value_matches(n, a),
        vnode_value_matches(n, b),
    ensures
        value_eq(a, b),
    decreases n,
{
    match n {
        VNode::Scalar(sn) => {
            lemma_value_eq_sym_trans(sn.val, a, b);
        },
        VNode::Arr(arr) => {
            let xs = a->Array_0;
            let ys = b->Array_0;
            assert forall|i: int| 0 <= i < xs@.len() implies value_eq(
                #[trigger] xs@[i],
                ys@[i],
            ) by {
                lemma_matches_functional(arr.items@[i].val, xs@[i], ys@[i]);
            }
        },
        VNode::Inline(t) => {
            let xs = a->InlineTable_0;
            let ys = b->InlineTable_0;
            assert forall|i: int| 0 <= i < xs@.len() implies (#[trigger] xs@[i]).0@ == ys@[i].0@
                && value_eq(xs@[i].1, ys@[i].1) by {
                lemma_matches_functional(t.items@[i].val, xs@[i].1, ys@[i].1);
            }
        },
    }
}

/// Value equality is symmetric and transitive.
pub proof fn lemma_value_eq_sym_trans(m: Value, a: Value, b: Value)
    requires
        value_eq(m, a),
        value_eq(m, b),
    ensures
        value_eq(a, b),
    decreases m,
{
    match m {
        Value::Array(ms) => {
            let xs = a->Array_0;
            let ys = b->Array_0;
            assert forall|i: int| 0 <= i < xs@.len() implies value_eq(
                #[trigger] xs@[i],
                ys@[i],
            ) by {
                lemma_value_eq_sym_trans(ms@[i], xs@[i], ys@[i]);
            }
        },
        Value::InlineTable(ms) => {
            let xs = a->InlineTable_0;
            let ys = b->InlineTable_0;
            assert forall|i: int| 0 <= i < xs@.len() implies (#[trigger] xs@[i]).0@ == ys@[i].0@
                && value_eq(xs@[i].1, ys@[i].1) by {
                lemma_value_eq_sym_trans(ms@[i].1, xs@[i].1, ys@[i].1);
            }
        },
        _ => {},
    }
}

// --- executable rendering ----------------------------------------------------

/// The text of an optional comma separator, as an owned string.
fn render_sep(sep: &Option<WSSep>) -> (r: String)
    ensures
        r@ == sep_render(*sep),
{
    match sep {
        Option::Some(w) => {
            let mut out = w.ws1.clone();
            out.append(",");
            out.append(w.ws2.as_str());
            proof {
                reveal_strlit(",");
                assert(","@ =~= seq![',']);
                assert(out@ =~= sep_render(*sep));
            }
            out
        },
        Option::None => String::new(),
    }
}

/// The text of a value node, as an owned string.
pub fn render_vnode(n: &VNode) -> (r: String)
    ensures
        r@ == vnode_render(*n),
    decreases *n,
{
    match n {
        VNode::Scalar(sn) => {
            match &sn.val {
                Value::String(s, t) => {
                    let mut out = crate::types::strtype_delim_exec(*t);
                    out.append(sn.prefix.as_str());
                    out.append(s.as_str());
                    let close = crate::types::strtype_delim_exec(*t);
                    out.append(close.as_str());
                    proof {
                        assert(out@ =~= scalar_render(*sn));
                    }
                    out
                },
                _ => {
                    let out = sn.val.render();
                    proof {
                        assert(out@ =~= scalar_render(*sn));
                    }
                    out
                },
            }
        },
        VNode::Arr(a) => {
            let mut out = String::from_str("[");
            proof {
                reveal_strlit("[");
                reveal_strlit("]");
                assert("["@ =~= seq!['[']);
                assert("]"@ =~= seq![']']);
            }
            out.append(a.ws1.as_str());
            let n_items = a.items.len();
            let mut i: usize = 0;
            while i < n_items
                invariant
                    *n == VNode::Arr(*a),
                    n_items == a.items@.len(),
                    0 <= i <= n_items,
                    out@ == seq!['['] + a.ws1@ + arr_items_text(a.items@, 0).subrange(
                        0,
                        arr_items_text(a.items@, 0).len() - arr_items_text(
                            a.items@,
                            i as int,
                        ).len(),
                    ),
                    arr_items_text(a.items@, i as int).len() <= arr_items_text(
                        a.items@,
                        0,
                    ).len(),
                    arr_items_text(a.items@, 0) == arr_items_text(a.items@, 0).subrange(
                        0,
                        arr_items_text(a.items@, 0).len() - arr_items_text(
                            a.items@,
                            i as int,
                        ).len(),
                    ) + arr_items_text(a.items@, i as int),
                decreases n_items - i,
            {
                proof {
                    assert(decreases_to!(*n => n->Arr_0));
                    assert(decreases_to!(n->Arr_0 => n->Arr_0.items));
                    assert(decreases_to!(n->Arr_0.items => n->Arr_0.items@));
                    assert(decreases_to!(n->Arr_0.items@ => n->Arr_0.items@[i as int]));
                    assert(decreases_to!(n->Arr_0.items@[i as int] => n->Arr_0.items@[i as int].val));
                    assert(decreases_to!(*n => a.items@[i as int].val));
                }
                let es = render_vnode(&a.items[i].val);
                out.append(es.as_str());
                let ss = render_sep(&a.items[i].sep);
                out.append(ss.as_str());
                proof {
                    let cur = arr_items_text(a.items@, i as int);
                    let next = arr_items_text(a.items@, i + 1 as int);
                    assert(cur =~= arr_item_text(a.items@[i as int]) + next);
                    assert(next =~= cur.subrange(cur.len() - next.len(), cur.len() as int));
                    crate::types::lemma_render_prefix_step(arr_items_text(a.items@, 0), cur, next);
                }
                i += 1;
            }
            proof {
                assert(arr_items_text(a.items@, n_items as int) =~= Seq::<char>::empty());
                assert(out@ =~= seq!['['] + a.ws1@ + arr_items_text(a.items@, 0));
            }
            out.append(a.ws2.as_str());
            out.append("]");
            proof {
                assert(out@ =~= vnode_render(*n));
            }
            out
        },
        VNode::Inline(t) => {
            let mut out = String::from_str("{");
            proof {
                reveal_strlit("{");
                reveal_strlit("}");
                reveal_strlit("=");
                assert("{"@ =~= seq!['{']);
                assert("}"@ =~= seq!['}']);
                assert("="@ =~= seq!['=']);
            }
            out.append(t.ws1.as_str());
            let n_items = t.items.len();
            let mut i: usize = 0;
            while i < n_items
                invariant
                    *n == VNode::Inline(*t),
                    n_items == t.items@.len(),
                    0 <= i <= n_items,
                    out@ == seq!['{'] + t.ws1@ + inline_items_text(t.items@, 0).subrange(
                        0,
                        inline_items_text(t.items@, 0).len() - inline_items_text(
                            t.items@,
                            i as int,
                        ).len(),
                    ),
                    inline_items_text(t.items@, i as int).len() <= inline_items_text(
                        t.items@,
                        0,
                    ).len(),
                    inline_items_text(t.items@, 0) == inline_items_text(t.items@, 0).subrange(
                        0,
                        inline_items_text(t.items@, 0).len() - inline_items_text(
                            t.items@,
                            i as int,
                        ).len(),
                    ) + inline_items_text(t.items@, i as int),
                decreases n_items - i,
            {
                proof {
                    assert(decreases_to!(*n => n->Inline_0));
                    assert(decreases_to!(n->Inline_0 => n->Inline_0.items));
                    assert(decreases_to!(n->Inline_0.items => n->Inline_0.items@));
                    assert(decreases_to!(n->Inline_0.items@ => n->Inline_0.items@[i as int]));
                    assert(decreases_to!(n->Inline_0.items@[i as int] => n->Inline_0.items@[i as int].val));
                    assert(decreases_to!(*n => t.items@[i as int].val));
                }
                out.append(t.items[i].key.as_str());
                out.append(t.items[i].kws1.as_str());
                out.append("=");
                out.append(t.items[i].kws2.as_str());
                let es = render_vnode(&t.items[i].val);
                out.append(es.as_str());
                let ss = render_sep(&t.items[i].sep);
                out.append(ss.as_str());
                proof {
                    reveal_strlit("=");
                    let cur = inline_items_text(t.items@, i as int);
                    let next = inline_items_text(t.items@, i + 1 as int);
                    assert(cur =~= inline_item_text(t.items@[i as int]) + next);
                    assert(next =~= cur.subrange(cur.len() - next.len(), cur.len() as int));
                    crate::types::lemma_render_prefix_step(
                        inline_items_text(t.items@, 0),
                        cur,
                        next,
                    );
                }
                i += 1;
            }
            proof {
                assert(inline_items_text(t.items@, n_items as int) =~= Seq::<char>::empty());
                assert(out@ =~= seq!['{'] + t.ws1@ + inline_items_text(t.items@, 0));
            }
            out.append(t.ws2.as_str());
            out.append("}");
            proof {
                assert(out@ =~= vnode_render(*n));
            }
            out
        },
    }
}

/// The text of a table header, as an owned string.
pub fn render_table(t: &TableNode) -> (r: String)
    ensures
        r@ == table_render(*t),
{
    let mut out = if t.aot {
        String::from_str("[[")
    } else {
        String::from_str("[")
    };
    proof {
        reveal_strlit("[[");
        reveal_strlit("[");
        reveal_strlit("]]");
        reveal_strlit("]");
        reveal_strlit(".");
        assert("[["@ =~= seq!['[', '[']);
        assert("["@ =~= seq!['[']);
        assert("]]"@ =~= seq![']', ']']);
        assert("]"@ =~= seq![']']);
        assert("."@ =~= seq!['.']);
    }
    out.append(t.ws1.as_str());
    out.append(t.first_key.as_str());
    let n_segs = t.subkeys.len();
    let mut i: usize = 0;
    while i < n_segs
        invariant
            n_segs == t.subkeys@.len(),
            0 <= i <= n_segs,
            out@ == (if t.aot {
                seq!['[', '[']
            } else {
                seq!['[']
            }) + t.ws1@ + t.first_key@ + table_segs_text(t.subkeys@, 0).subrange(
                0,
                table_segs_text(t.subkeys@, 0).len() - table_segs_text(
                    t.subkeys@,
                    i as int,
                ).len(),
            ),
            table_segs_text(t.subkeys@, i as int).len() <= table_segs_text(t.subkeys@, 0).len(),
            table_segs_text(t.subkeys@, 0) == table_segs_text(t.subkeys@, 0).subrange(
                0,
                table_segs_text(t.subkeys@, 0).len() - table_segs_text(
                    t.subkeys@,
                    i as int,
                ).len(),
            ) + table_segs_text(t.subkeys@, i as int),
        decreases n_segs - i,
    {
        out.append(t.subkeys[i].ws1.as_str());
        out.append(".");
        out.append(t.subkeys[i].ws2.as_str());
        out.append(t.subkeys[i].key.as_str());
        proof {
            reveal_strlit(".");
            let cur = table_segs_text(t.subkeys@, i as int);
            let next = table_segs_text(t.subkeys@, i + 1 as int);
            assert(cur =~= table_seg_text(t.subkeys@[i as int]) + next);
            assert(next =~= cur.subrange(cur.len() - next.len(), cur.len() as int));
            crate::types::lemma_render_prefix_step(table_segs_text(t.subkeys@, 0), cur, next);
        }
        i += 1;
    }
    proof {
        assert(table_segs_text(t.subkeys@, n_segs as int) =~= Seq::<char>::empty());
    }
    out.append(t.ws2.as_str());
    if t.aot {
        out.append("]]");
    } else {
        out.append("]");
    }
    proof {
        assert(out@ =~= table_render(*t));
    }
    out
}

/// The text of an expression, as an owned string.
pub fn render_expr(e: &Expression) -> (r: String)
    ensures
        r@ == expr_render(*e),
{
    let mut out = e.ws1.clone();
    match &e.table {
        Option::Some(t) => {
            let ts = render_table(t);
            out.append(ts.as_str());
        },
        Option::None => {},
    }
    match &e.keyval {
        Option::Some(kv) => {
            out.append(kv.key.as_str());
            out.append(kv.kws1.as_str());
            out.append("=");
            out.append(kv.kws2.as_str());
            let vs = render_vnode(&kv.val);
            out.append(vs.as_str());
            proof {
                reveal_strlit("=");
                assert("="@ =~= seq!['=']);
            }
        },
        Option::None => {},
    }
    out.append(e.ws2.as_str());
    match &e.comment {
        Option::Some(c) => {
            out.append("#");
            out.append(c.as_str());
            proof {
                reveal_strlit("#");
                assert("#"@ =~= seq!['#']);
            }
        },
        Option::None => {},
    }
    proof {
        assert(out@ =~= expr_render(*e));
    }
    out
}

/// The text of the whole document, as an owned string.
pub fn render_doc(exprs: &Vec<NLExpression>) -> (r: String)
    ensures
        r@ == doc_render(exprs@),
{
    let mut out = String::new();
    let n = exprs.len();
    let mut i: usize = 0;
    while i < n
        invariant
            n == exprs@.len(),
            0 <= i <= n,
            out@ == doc_render_from(exprs@, 0).subrange(
                0,
                doc_render_from(exprs@, 0).len() - doc_render_from(exprs@, i as int).len(),
            ),
            doc_render_from(exprs@, i as int).len() <= doc_render_from(exprs@, 0).len(),
            doc_render_from(exprs@, 0) == doc_render_from(exprs@, 0).subrange(
                0,
                doc_render_from(exprs@, 0).len() - doc_render_from(exprs@, i as int).len(),
            ) + doc_render_from(exprs@, i as int),
        decreases n - i,
    {
        out.append(exprs[i].nl.as_str());
        let es = render_expr(&exprs[i].expr);
        out.append(es.as_str());
        proof {
            let cur = doc_render_from(exprs@, i as int);
            let next = doc_render_from(exprs@, i + 1 as int);
            assert(cur =~= nl_expr_text(exprs@[i as int]) + next);
            assert(next =~= cur.subrange(cur.len() - next.len(), cur.len() as int));
            crate::types::lemma_render_prefix_step(doc_render_from(exprs@, 0), cur, next);
        }
        i += 1;
    }
    proof {
        assert(doc_render_from(exprs@, n as int) =~= Seq::<char>::empty());
        assert(out@ =~= doc_render(exprs@));
    }
    out
}

// --- navigation --------------------------------------------------------------

/// The node reached from `n` by the container path `path[d..]`: each step
/// selects an array element or an inline-table pair by position.
pub open spec fn nav(n: VNode, path: Seq<usize>, d: int) -> Option<VNode>
    decreases path.len() - d,
{
    if d < 0 || d >= path.len() {
        Option::Some(n)
    } else {
        match n {
            VNode::Arr(a) => if (path[d] as int) < a.items@.len() {
                nav(a.items@[path[d] as int].val, path, d + 1)
            } else {
                Option::None
            },
            VNode::Inline(t) => if (path[d] as int) < t.items@.len() {
                nav(t.items@[path[d] as int].val, path, d + 1)
            } else {
                Option::None
            },
            VNode::Scalar(_) => Option::None,
        }
    }
}

} // verus!
