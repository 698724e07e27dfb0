//! Turning XML text into a document: text runs between tags, the arena
//! that builds the tree while elements are still open, and the parser.
use vstd::prelude::*;
use crate::chars::{all_space, all_space_exec, chars_of, contains_seq, decimal, ends_with, starts_with, is_space, is_space_char, occurs_at, occurs_at_exec, push_chars, push_decimal, string_of};
use crate::codec::{find_char, find_char_exec, unescape, unescaped};
use crate::dom::{
    assembled_v, child_count, lemma_assembled_to_views, head_matches, HeadV, decl_close, decl_open, doctype_open, trimmed, cdata_end, comment_end, assembled, declared_namespace, lemma_assembled_from_children, lemma_assembled_leaf, insert_attrs, lookup, pairs_view, prefix_bindings, resolved_namespace, same_but_children,
    str_pairs, valid_keys, valid_name, CData, Comment, Declaration, Document, Element, Node, Text, DTD,
};
use crate::errors::{KissXmlError, NotSupportedError, ParsingError};
use crate::grammar::{attr_list, check_element_tag, stripped_tag, name_end, name_start, parse_tag, space_end, strip_tag, valid_element_tag};
use crate::scanner::{line_and_column, line_col, next_tag, tag_end};

verus! {

/// `s[i..]` with every newline followed by white space reduced to the
/// newline alone.
pub open spec fn collapse_from(s: Seq<char>, i: int) -> Seq<char>
    decreases s.len() - i,
{
    if i < 0 || i >= s.len() {
        Seq::empty()
    } else if s[i] == '\n' {
        let k = space_end(s, i + 1);
        if i < k <= s.len() { seq!['\n'] + collapse_from(s, k) } else { Seq::empty() }
    } else {
        seq![s[i]] + collapse_from(s, i + 1)
    }
}

/// `s` without the run of `c` it starts with.
pub open spec fn drop_lead(s: Seq<char>, c: char) -> Seq<char>
    decreases s.len(),
{
    if s.len() > 0 && s[0] == c { drop_lead(s.skip(1), c) } else { s }
}

/// `s` without the run of `c` it ends with.
pub open spec fn drop_trail(s: Seq<char>, c: char) -> Seq<char>
    decreases s.len(),
{
    if s.len() > 0 && s.last() == c { drop_trail(s.drop_last(), c) } else { s }
}

/// Index of the last character of `s` before `j` that is not white space,
/// or -1.
pub open spec fn last_solid(s: Seq<char>, j: int) -> int
    decreases j,
{
    if j <= 0 || j > s.len() {
        -1
    } else if !is_space(s[j - 1]) {
        j - 1
    } else {
        last_solid(s, j - 1)
    }
}

/// A text run cleaned of layout: newline-plus-indentation collapsed; a
/// leading newline (or `\r\n`) dropped with the `\r`, `\n`, space and tab
/// runs that follow; and, where the last non-space character is followed by
/// a newline, trailing tabs, spaces, newlines and `\r` dropped.
pub open spec fn cleaned(s: Seq<char>) -> Seq<char> {
    let a = collapse_from(s, 0);
    let b = if (a.len() > 0 && a[0] == '\n') || (a.len() > 1 && a[0] == '\r' && a[1] == '\n') {
        drop_lead(drop_lead(drop_lead(drop_lead(a, '\r'), '\n'), ' '), '\t')
    } else {
        a
    };
    let k = last_solid(b, b.len() as int);
    if k >= 0 && k + 1 < b.len() && b[k + 1] == '\n' {
        drop_trail(drop_trail(drop_trail(drop_trail(b, '\t'), ' '), '\n'), '\r')
    } else {
        b
    }
}

fn collapse_exec(v: &Vec<char>) -> (r: Vec<char>)
    ensures
        r@ == collapse_from(v@, 0),
{
    let mut out: Vec<char> = Vec::new();
    let mut i: usize = 0;
    while i < v.len()
        invariant
            i <= v.len(),
            out@ + collapse_from(v@, i as int) == collapse_from(v@, 0),
        decreases v.len() - i,
    {
        let ghost before = out@;
        if v[i] == '\n' {
            out.push('\n');
            let mut k = i + 1;
            while k < v.len() && is_space_char(v[k])
                invariant
                    i < k <= v.len(),
                    space_end(v@, i + 1) == space_end(v@, k as int),
                decreases v.len() - k,
            {
                k = k + 1;
            }
            proof {
                assert(out@ + collapse_from(v@, k as int) =~= before + collapse_from(v@, i as int));
            }
            i = k;
        } else {
            out.push(v[i]);
            proof {
                assert(out@ + collapse_from(v@, i + 1) =~= before + collapse_from(v@, i as int));
            }
            i = i + 1;
        }
    }
    proof {
        assert(out@ + collapse_from(v@, i as int) =~= out@);
    }
    out
}

fn drop_lead_exec(v: Vec<char>, c: char) -> (r: Vec<char>)
    ensures
        r@ == drop_lead(v@, c),
{
    let mut k: usize = 0;
    proof {
        assert(v@.skip(0) =~= v@);
    }
    while k < v.len() && v[k] == c
        invariant
            k <= v.len(),
            drop_lead(v@, c) == drop_lead(v@.skip(k as int), c),
        decreases v.len() - k,
    {
        proof {
            assert(v@.skip(k as int).skip(1) =~= v@.skip(k + 1));
        }
        k = k + 1;
    }
    let mut r: Vec<char> = Vec::new();
    let mut i = k;
    while i < v.len()
        invariant
            k <= i <= v.len(),
            r@ == v@.subrange(k as int, i as int),
        decreases v.len() - i,
    {
        r.push(v[i]);
        proof {
            assert(r@ =~= v@.subrange(k as int, i + 1));
        }
        i = i + 1;
    }
    proof {
        assert(r@ =~= v@.skip(k as int));
    }
    r
}

fn drop_trail_exec(v: Vec<char>, c: char) -> (r: Vec<char>)
    ensures
        r@ == drop_trail(v@, c),
{
    let mut v = v;
    let ghost orig = v@;
    while v.len() > 0 && v[v.len() - 1] == c
        invariant
            drop_trail(orig, c) == drop_trail(v@, c),
        decreases v.len(),
    {
        v.pop();
    }
    v
}

fn last_solid_exec(v: &Vec<char>) -> (r: Option<usize>)
    ensures
        r is None <==> last_solid(v@, v.len() as int) == -1,
        r is Some ==> r->0 as int == last_solid(v@, v.len() as int) && r->0 < v.len(),
{
    let mut j = v.len();
    while j > 0 && is_space_char(v[j - 1])
        invariant
            j <= v.len(),
            last_solid(v@, v.len() as int) == last_solid(v@, j as int),
        decreases j,
    {
        j = j - 1;
    }
    if j == 0 {
        None
    } else {
        Some(j - 1)
    }
}

/// The text run `text[lo..hi]` as a text node's content: `None` if it is
/// white space only; else cleaned of layout (see `cleaned`) and unescaped.
pub fn real_text(text: &Vec<char>, lo: usize, hi: usize) -> (r: Option<String>)
    requires
        lo <= hi <= text.len(),
    ensures
        r is None <==> all_space(text@.subrange(lo as int, hi as int)),
        r is Some ==> r->0@ == unescaped(cleaned(text@.subrange(lo as int, hi as int))),
{
    let raw = string_of(text, lo, hi);
    let v = chars_of(raw.as_str());
    if all_space_exec(&v) {
        return None;
    }
    let a = collapse_exec(&v);
    let b = if (a.len() > 0 && a[0] == '\n') || (a.len() > 1 && a[0] == '\r' && a[1] == '\n') {
        drop_lead_exec(drop_lead_exec(drop_lead_exec(drop_lead_exec(a, '\r'), '\n'), ' '), '\t')
    } else {
        a
    };
    let c = match last_solid_exec(&b) {
        Some(k) => {
            if k + 1 < b.len() && b[k + 1] == '\n' {
                drop_trail_exec(drop_trail_exec(drop_trail_exec(drop_trail_exec(b, '\t'), ' '), '\n'), '\r')
            } else {
                b
            }
        },
        None => b,
    };
    let mut s = String::new();
    push_chars(&mut s, &c);
    Some(unescape(s.as_str()))
}

/// A slot of the arena: a node, its parent's slot and its children's slots.
pub struct ParseTreeNode {
    id: usize,
    value: Node,
    parent_id: Option<usize>,
    child_ids: Vec<usize>,
}

/// The tree under construction, used like a stack of open elements. Nodes
/// live in a flat arena addressed by index; each records its parent, so no
/// node holds a reference to another while elements are still open.
pub struct ParseTree {
    data: Vec<ParseTreeNode>,
    pos: Option<usize>,
}

/// Slot `n` has slot `j` as parent.
pub closed spec fn is_parent(n: ParseTreeNode, j: int) -> bool {
    n.parent_id is Some && n.parent_id->0 as int == j
}

/// An arena slot as the parser describes it: the node, children aside,
/// and its parent slot (-1 for the root).
pub struct SlotV {
    pub head: HeadV,
    pub parent: int,
}

pub open spec fn heads_of(sl: Seq<SlotV>) -> Seq<HeadV> {
    sl.map_values(|x: SlotV| x.head)
}

/// The entries at or after `lo` whose parent is entry `j`, in order.
pub open spec fn kids_of(sl: Seq<SlotV>, j: int, lo: int) -> Seq<int>
    decreases sl.len() - lo,
{
    if lo < 0 || lo >= sl.len() {
        Seq::empty()
    } else {
        (if j >= 0 && sl[lo].parent == j { seq![lo] } else { Seq::empty() }) + kids_of(sl, j, lo + 1)
    }
}

/// The element that tag `x` opens under a parent seen as `parent`,
/// children aside.
pub open spec fn elem_head(x: Seq<char>, parent: Option<OpenView>) -> HeadV {
    let attrs = insert_attrs(Seq::empty(), tag_attrs(x));
    let inherited = match parent {
        Some(p) => p.context,
        None => Seq::empty(),
    };
    HeadV::Elem {
        name: qname_local(tag_qname(x)),
        prefix: qname_prefix(tag_qname(x)),
        attrs,
        ns: tag_ns(x, parent),
        ctx: prefix_bindings(attrs) + inherited,
    }
}

/// The slots that reading the markup from `pos` on adds to `sl`, with
/// `stack` the open elements and `open` their slots: a text run that is
/// not white space only becomes a text node (cleaned and unescaped, and
/// kept unless that leaves white space only), comments, CDATA sections and
/// elements become nodes, all under the open element; start tags open the
/// element they make, end tags close it. Meaningful on well-formed input.
pub open spec fn body_slots(s: Seq<char>, pos: int, stack: Seq<OpenView>, open: Seq<int>, sl: Seq<SlotV>) -> Seq<SlotV>
    decreases s.len() - pos,
{
    let st = find_char(s, '<', pos);
    let en = tag_end(s, st);
    let x = s.subrange(st, en);
    let n = x.len();
    if pos < 0 || pos > s.len() || st < pos || en <= st || en > s.len() || stack.len() == 0 || open.len() == 0 {
        sl
    } else {
        let raw = s.subrange(pos, st);
        let c = unescaped(cleaned(raw));
        let sl1 = if !all_space(raw) && !(c.len() > 0 && all_space(c)) {
            sl.push(SlotV { head: HeadV::Txt(c), parent: open.last() })
        } else {
            sl
        };
        if starts_with(x, "<!--"@) && ends_with(x, "-->"@) && n >= 7 {
            body_slots(s, en, stack, open, sl1.push(SlotV { head: HeadV::Com(x.subrange(4, n - 3)), parent: open.last() }))
        } else if starts_with(x, "<![CDATA["@) {
            if n >= 12 && ends_with(x, "]]>"@) {
                body_slots(s, en, stack, open, sl1.push(SlotV { head: HeadV::Cd(x.subrange(9, n - 3)), parent: open.last() }))
            } else {
                sl1
            }
        } else if starts_with(x, "<!"@) || !valid_element_tag(x) {
            sl1
        } else if n > 1 && x[1] == '/' {
            body_slots(s, en, stack.drop_last(), open.drop_last(), sl1)
        } else {
            let sl2 = sl1.push(SlotV { head: elem_head(x, Some(stack.last())), parent: open.last() });
            if ends_with(x, "/>"@) {
                body_slots(s, en, stack, open, sl2)
            } else {
                body_slots(s, en, stack.push(child_view(x, Some(stack.last()))), open.push(sl1.len() as int), sl2)
            }
        }
    }
}

/// The slots of the whole document: the root, then what `body_slots`
/// adds.
pub open spec fn doc_slots(s: Seq<char>) -> Seq<SlotV> {
    match prolog_walk(s, 0, true) {
        Some((st, en)) => {
            let x = s.subrange(st, en);
            body_slots(s, en, root_stack(x), if ends_with(x, "/>"@) { Seq::empty() } else { seq![0int] },
                seq![SlotV { head: elem_head(x, None), parent: -1 }])
        },
        None => Seq::empty(),
    }
}

/// The slots of the arena `t` are those `sl` describes.
pub closed spec fn slots_match(t: ParseTree, sl: Seq<SlotV>) -> bool {
    &&& t.data.len() == sl.len()
    &&& forall|i: int| 0 <= i < sl.len() ==> head_matches((#[trigger] t.data@[i]).value, sl[i].head)
    &&& forall|i: int| 0 <= i < sl.len() ==> match (#[trigger] t.data@[i]).parent_id {
        Some(p) => sl[i].parent == p as int,
        None => sl[i].parent == -1,
    }
}

/// The slots of the open elements, from the root down.
pub closed spec fn stack_slots(t: ParseTree) -> Seq<int> {
    match t.pos {
        Some(k) => chain(t, k as int),
        None => Seq::empty(),
    }
}

proof fn lemma_slots_push(t1: ParseTree, t2: ParseTree, sl: Seq<SlotV>, n: Node, h: HeadV)
    requires
        slots_match(t1, sl),
        t1.top_slot() is Some,
        t2.heads() == t1.heads().push(n),
        t2.parent_of(t1.len() as int) == t1.top_slot(),
        forall|i: int| 0 <= i < t1.len() ==> #[trigger] t2.parent_of(i) == t1.parent_of(i),
        head_matches(n, h),
    ensures
        slots_match(t2, sl.push(SlotV { head: h, parent: t1.top_slot()->0 as int })),
{
    let sl2 = sl.push(SlotV { head: h, parent: t1.top_slot()->0 as int });
    assert(t2.data.len() == t2.heads().len());
    assert forall|i: int| 0 <= i < sl2.len() implies head_matches((#[trigger] t2.data@[i]).value, sl2[i].head) by {
        assert(t2.heads()[i] == t2.data@[i].value);
        if i < sl.len() {
            assert(t1.heads()[i] == t1.data@[i].value);
        }
    }
    assert forall|i: int| 0 <= i < sl2.len() implies match (#[trigger] t2.data@[i]).parent_id {
        Some(p) => sl2[i].parent == p as int,
        None => sl2[i].parent == -1,
    } by {
        assert(t2.parent_of(i) == t2.data@[i].parent_id);
        if i < sl.len() {
            assert(t1.parent_of(i) == t1.data@[i].parent_id);
        }
    }
}

proof fn lemma_slots_same(t1: ParseTree, t2: ParseTree, sl: Seq<SlotV>)
    requires
        slots_match(t1, sl),
        t2.heads() == t1.heads(),
        t2.len() == t1.len(),
        forall|i: int| 0 <= i < t1.len() ==> #[trigger] t2.parent_of(i) == t1.parent_of(i),
    ensures
        slots_match(t2, sl),
{
    assert forall|i: int| 0 <= i < sl.len() implies head_matches((#[trigger] t2.data@[i]).value, sl[i].head) by {
        assert(t2.heads()[i] == t2.data@[i].value);
        assert(t1.heads()[i] == t1.data@[i].value);
    }
    assert forall|i: int| 0 <= i < sl.len() implies match (#[trigger] t2.data@[i]).parent_id {
        Some(p) => sl[i].parent == p as int,
        None => sl[i].parent == -1,
    } by {
        assert(t2.parent_of(i) == t2.data@[i].parent_id);
        assert(t1.parent_of(i) == t1.data@[i].parent_id);
    }
}

proof fn lemma_root_slot(t: ParseTree, n: Node, pre: Seq<SlotV>)
    requires
        t.heads() == Seq::<Node>::empty().push(n),
        t.parent_of(0) == None::<usize>,
        pre.len() == 1,
        pre[0].parent == -1,
        head_matches(n, pre[0].head),
    ensures
        slots_match(t, pre),
{
    assert(t.heads().len() == t.data@.len());
    assert(t.heads()[0] == t.data@[0].value);
}

proof fn lemma_views_of_match(t: ParseTree, sl: Seq<SlotV>)
    requires
        slots_match(t, sl),
    ensures
        t.heads().len() == heads_of(sl).len(),
        forall|i: int| 0 <= i < t.heads().len() ==> head_matches(#[trigger] t.heads()[i], heads_of(sl)[i]),
{
    assert forall|i: int| 0 <= i < t.heads().len() implies head_matches(#[trigger] t.heads()[i], heads_of(sl)[i]) by {
        assert(t.heads()[i] == t.data@[i].value);
    }
}

proof fn lemma_kids_match(t: ParseTree, sl: Seq<SlotV>, j: int, lo: int)
    requires
        slots_match(t, sl),
    ensures
        kids_from(t.data@, j, lo) == kids_of(sl, j, lo),
    decreases sl.len() - lo,
{
    if 0 <= lo < sl.len() {
        lemma_kids_match(t, sl, j, lo + 1);
        assert(is_parent(t.data@[lo], j) == (j >= 0 && sl[lo].parent == j));
    }
}

/// The arena holds one head per slot.
pub proof fn lemma_heads_len(t: ParseTree)
    ensures
        t.heads().len() == t.len(),
{
}

/// The stack of views is empty exactly when no element is open, and its
/// last view is that of the open element.
proof fn lemma_stack_top(t: ParseTree)
    requires
        t.wf(),
    ensures
        (stack_views(t).len() == 0) <==> t.top() is None,
        t.top() is Some ==> stack_views(t).last() == view_of(t.top()->0),
        stack_slots(t).len() == stack_views(t).len(),
        t.top() is Some ==> stack_slots(t).last() == t.top_slot()->0 as int,
{
    match t.pos {
        Some(k) => {
            lemma_chain_bounded(t, k as int);
        },
        None => {},
    }
}

/// The slots at or after `lo` whose parent is slot `j`, in order.
pub closed spec fn kids_from(d: Seq<ParseTreeNode>, j: int, lo: int) -> Seq<int>
    decreases d.len() - lo,
{
    if lo < 0 || lo >= d.len() {
        Seq::empty()
    } else {
        (if is_parent(d[lo], j) { seq![lo] } else { Seq::empty() })
            + kids_from(d, j, lo + 1)
    }
}

/// No slot in `d[lo..=j]` has slot `j` as parent, so the children of `j`
/// found from `lo` on are those found after `j`.
proof fn lemma_kids_after(d: Seq<ParseTreeNode>, j: int, lo: int)
    requires
        0 <= lo <= j + 1,
        j < d.len(),
        forall|i: int| 0 < i < d.len() ==> {
            let p = (#[trigger] d[i]).parent_id;
            p is Some && p->0 < i
        },
        d.len() > 0 ==> d[0].parent_id is None,
    ensures
        kids_from(d, j, lo) == kids_from(d, j, j + 1),
    decreases j + 1 - lo,
{
    if lo <= j {
        lemma_kids_after(d, j, lo + 1);
        if lo > 0 {
            assert(d[lo].parent_id->0 < lo);
        }
        assert(!is_parent(d[lo], j));
        assert(kids_from(d, j, lo) =~= kids_from(d, j, lo + 1));
    }
}

/// The slots from the root down to slot `i`, following parent links.
pub closed spec fn chain(t: ParseTree, i: int) -> Seq<int>
    decreases i,
{
    if i < 0 || i >= t.data.len() {
        Seq::empty()
    } else {
        match t.data@[i].parent_id {
            Some(p) => if (p as int) < i { chain(t, p as int).push(i) } else { seq![i] },
            None => seq![i],
        }
    }
}

/// The open elements, from the root down to the top of the stack.
pub closed spec fn stack_views(t: ParseTree) -> Seq<OpenView> {
    match t.pos {
        Some(k) => chain(t, k as int).map_values(|i: int| view_of(t.data@[i].value->Element_0)),
        None => Seq::empty(),
    }
}

proof fn lemma_chain_bounded(t: ParseTree, i: int)
    ensures
        forall|m: int| 0 <= m < chain(t, i).len() ==> 0 <= #[trigger] chain(t, i)[m] <= i,
        0 <= i < t.data.len() ==> chain(t, i).len() > 0 && chain(t, i).last() == i,
    decreases i,
{
    if 0 <= i < t.data.len() {
        match t.data@[i].parent_id {
            Some(p) => if (p as int) < i {
                lemma_chain_bounded(t, p as int);
            },
            None => {},
        }
    }
}

proof fn lemma_chain_stable(t1: ParseTree, t2: ParseTree, i: int)
    requires
        i < t1.data.len() <= t2.data.len(),
        forall|j: int| 0 <= j <= i ==> (#[trigger] t2.data@[j]).parent_id == t1.data@[j].parent_id,
    ensures
        chain(t2, i) == chain(t1, i),
    decreases i,
{
    if 0 <= i {
        match t1.data@[i].parent_id {
            Some(p) => if (p as int) < i {
                lemma_chain_stable(t1, t2, p as int);
            },
            None => {},
        }
    }
}

impl ParseTree {
    /// What each slot holds.
    pub closed spec fn heads(&self) -> Seq<Node> {
        self.data@.map_values(|n: ParseTreeNode| n.value)
    }

    /// The slots of each slot's children, in order.
    pub closed spec fn kids(&self) -> spec_fn(int) -> Seq<int> {
        |j: int| kids_from(self.data@, j, 0)
    }

    /// Slot `i` holds an element.
    pub closed spec fn holds_element(&self, i: int) -> bool {
        0 <= i < self.data.len() && self.data@[i].value is Element
    }

    /// The slots, their parents and the open element are consistent: each
    /// slot but the first has an earlier slot, holding an element, as
    /// parent; the first slot holds the root element; the open element, if
    /// any, is an element slot.
    pub closed spec fn wf(&self) -> bool {
        &&& forall|i: int| 0 <= i < self.data.len() ==> (#[trigger] self.data@[i]).id == i
        &&& forall|i: int| 0 < i < self.data.len() ==> {
            let p = (#[trigger] self.data@[i]).parent_id;
            p is Some && p->0 < i && self.holds_element(p->0 as int)
        }
        &&& self.data.len() > 0 ==> self.data@[0].parent_id is None && self.holds_element(0)
        &&& self.pos is Some ==> self.holds_element(self.pos->0 as int)
        &&& forall|i: int| 0 <= i < self.data.len() ==> ((#[trigger] self.data@[i]).value is Element
            ==> self.data@[i].value->Element_0.children_v().len() == 0)
    }

    pub closed spec fn len(&self) -> nat {
        self.data@.len()
    }

    /// The open element on top of the stack, if any.
    /// The slot of the open element on top of the stack, if any.
    pub closed spec fn top_slot(&self) -> Option<usize> {
        self.pos
    }

    /// The parent slot of slot `i`.
    pub closed spec fn parent_of(&self, i: int) -> Option<usize> {
        self.data@[i].parent_id
    }

    pub closed spec fn top(&self) -> Option<Element> {
        match self.pos {
            Some(p) => Some(self.data@[p as int].value->Element_0),
            None => None,
        }
    }

    /// The open element is the root.
    pub closed spec fn top_is_root(&self) -> bool {
        self.pos == Some(0usize)
    }

    /// The root element (the first slot).
    pub closed spec fn root(&self) -> Element {
        self.data@[0].value->Element_0
    }

    /// An empty tree.
    pub fn new() -> (r: Self)
        ensures
            r.wf(),
            r.len() == 0,
            r.top() is None,
            r.top_slot() is None,
            r.heads() == Seq::<Node>::empty(),
    {
        proof {
            assert(Seq::<ParseTreeNode>::empty().map_values(|n: ParseTreeNode| n.value) =~= Seq::<Node>::empty());
        }
        ParseTree { data: Vec::new(), pos: None }
    }

    /// Whether no element is open.
    pub fn empty_stack(&self) -> (r: bool)
        ensures
            r == (self.top() is None),
    {
        self.pos.is_none()
    }

    /// Opens `new_element`: it becomes a child of the open element (or the
    /// root, if the tree is empty) and the new top of the stack. Fails if
    /// the tree has a root already and no element is open.
    pub fn push(&mut self, new_element: Element) -> (r: Result<(), KissXmlError>)
        requires
            old(self).wf(),
            new_element.children_v().len() == 0,
        ensures
            final(self).wf(),
            r is Err <==> (old(self).top() is None && old(self).len() > 0),
            r is Ok ==> final(self).top() == Some(new_element) && final(self).len() == old(self).len() + 1,
            r is Ok && old(self).len() > 0 ==> final(self).root() == old(self).root(),
            r is Ok && old(self).len() == 0 ==> final(self).root() == new_element && final(self).top_is_root(),
            r is Ok ==> final(self).heads() == old(self).heads().push(Node::Element(new_element))
                && final(self).top_slot() == Some(old(self).len() as usize)
                && final(self).parent_of(old(self).len() as int) == old(self).top_slot()
                && forall|i: int| 0 <= i < old(self).len() ==> #[trigger] final(self).parent_of(i) == old(self).parent_of(i),
            r is Ok ==> stack_views(*final(self)) == stack_views(*old(self)).push(view_of(new_element)),
            r is Ok ==> stack_slots(*final(self)) == stack_slots(*old(self)).push(old(self).len() as int),
            r is Err ==> *final(self) == *old(self),
    {
        let new_pos = self.data.len();
        match self.pos {
            None => {
                if self.data.len() > 0 {
                    return Err(KissXmlError::ParsingError(ParsingError::new("only 1 root element is allowed")));
                }
                self.data.push(ParseTreeNode {
                    id: 0,
                    value: Node::Element(new_element),
                    parent_id: None,
                    child_ids: Vec::new(),
                });
            },
            Some(p) => {
                self.data[p].child_ids.push(new_pos);
                self.data.push(ParseTreeNode {
                    id: new_pos,
                    value: Node::Element(new_element),
                    parent_id: Some(p),
                    child_ids: Vec::new(),
                });
            },
        }
        self.pos = Some(new_pos);
        proof {
            assert(self.data@[new_pos as int].value == Node::Element(new_element));
            match old(self).pos {
                Some(k) => {
                    assert forall|j: int| 0 <= j <= k implies (#[trigger] self.data@[j]) == old(self).data@[j] || j == k by {}
                    lemma_chain_stable(*old(self), *self, k as int);
                    lemma_chain_bounded(*old(self), k as int);
                    assert(chain(*self, new_pos as int) == chain(*self, k as int).push(new_pos as int));
                    assert(stack_views(*self) =~= stack_views(*old(self)).push(view_of(new_element)));
                    assert(stack_slots(*self) =~= stack_slots(*old(self)).push(old(self).len() as int));
                },
                None => {
                    assert(chain(*self, 0) == seq![0int]);
                    assert(stack_views(*self) =~= stack_views(*old(self)).push(view_of(new_element)));
                    assert(stack_slots(*self) =~= stack_slots(*old(self)).push(old(self).len() as int));
                },
            }
            assert forall|i: int| 0 <= i < self.data.len() implies ((#[trigger] self.data@[i]).value is Element
                ==> self.data@[i].value->Element_0.children_v().len() == 0) by {
                if i < new_pos {
                    assert(self.data@[i].value == old(self).data@[i].value);
                }
            }
            assert forall|i: int| 0 < i < self.data.len() implies {
                let p = (#[trigger] self.data@[i]).parent_id;
                p is Some && p->0 < i && self.holds_element(p->0 as int)
            } by {
                if i < new_pos {
                    assert(self.data@[i].parent_id == old(self).data@[i].parent_id);
                }
            }
        }
        Ok(())
    }

    /// Closes the open element: its parent becomes the top of the stack.
    /// Fails if no element is open.
    pub fn pop(&mut self) -> (r: Result<(), KissXmlError>)
        requires
            old(self).wf(),
        ensures
            final(self).wf(),
            r is Err <==> old(self).top() is None,
            final(self).len() == old(self).len(),
            final(self).len() > 0 ==> final(self).root() == old(self).root(),
            r is Ok && old(self).top_is_root() ==> final(self).top() is None,
            r is Ok ==> final(self).top_slot() == old(self).parent_of(old(self).top_slot()->0 as int),
            final(self).heads() == old(self).heads(),
            forall|i: int| 0 <= i < old(self).len() ==> #[trigger] final(self).parent_of(i) == old(self).parent_of(i),
            r is Ok ==> stack_views(*final(self)) == stack_views(*old(self)).drop_last(),
            r is Ok ==> stack_slots(*final(self)) == stack_slots(*old(self)).drop_last(),
    {
        match self.pos {
            None => Err(KissXmlError::ParsingError(ParsingError::new("closing tag without corresponding open tag"))),
            Some(p) => {
                self.pos = self.data[p].parent_id;
                proof {
                    lemma_chain_bounded(*old(self), p as int);
                    match self.pos {
                        Some(q) => {
                            lemma_chain_stable(*old(self), *self, q as int);
                            assert(chain(*old(self), p as int) == chain(*self, q as int).push(p as int));
                            assert(stack_views(*self) =~= stack_views(*old(self)).drop_last());
                            assert(stack_slots(*self) =~= stack_slots(*old(self)).drop_last());
                        },
                        None => {
                            assert(chain(*old(self), p as int) == seq![p as int]);
                            assert(stack_views(*self) =~= stack_views(*old(self)).drop_last());
                            assert(stack_slots(*self) =~= stack_slots(*old(self)).drop_last());
                        },
                    }
                }
                Ok(())
            },
        }
    }

    /// Adds `n` as a child of the open element, without opening it. Fails if
    /// no element is open.
    pub fn append(&mut self, n: Node) -> (r: Result<(), KissXmlError>)
        requires
            old(self).wf(),
            n is Element ==> n->Element_0.children_v().len() == 0,
        ensures
            final(self).wf(),
            r is Err <==> old(self).top() is None,
            r is Ok ==> final(self).top() == old(self).top() && final(self).len() == old(self).len() + 1,
            final(self).len() > 0 && old(self).len() > 0 ==> final(self).root() == old(self).root(),
            r is Ok ==> final(self).heads() == old(self).heads().push(n)
                && final(self).top_slot() == old(self).top_slot()
                && final(self).parent_of(old(self).len() as int) == old(self).top_slot()
                && forall|i: int| 0 <= i < old(self).len() ==> #[trigger] final(self).parent_of(i) == old(self).parent_of(i),
            stack_views(*final(self)) == stack_views(*old(self)),
            stack_slots(*final(self)) == stack_slots(*old(self)),
            r is Err ==> *final(self) == *old(self),
    {
        match self.pos {
            None => Err(KissXmlError::ParsingError(ParsingError::new("no root element"))),
            Some(p) => {
                let new_id = self.data.len();
                self.data[p].child_ids.push(new_id);
                self.data.push(ParseTreeNode { id: new_id, value: n, parent_id: Some(p), child_ids: Vec::new() });
                proof {
                    lemma_chain_stable(*old(self), *self, p as int);
                    lemma_chain_bounded(*old(self), p as int);
                    assert(stack_views(*self) =~= stack_views(*old(self)));
                    assert(stack_slots(*self) =~= stack_slots(*old(self)));
                    assert forall|i: int| 0 <= i < self.data.len() implies ((#[trigger] self.data@[i]).value is Element
                        ==> self.data@[i].value->Element_0.children_v().len() == 0) by {
                        if i < new_id {
                            assert(self.data@[i].value == old(self).data@[i].value);
                        }
                    }
                    assert forall|i: int| 0 < i < self.data.len() implies {
                        let q = (#[trigger] self.data@[i]).parent_id;
                        q is Some && q->0 < i && self.holds_element(q->0 as int)
                    } by {
                        if i < new_id {
                            assert(self.data@[i].parent_id == old(self).data@[i].parent_id);
                        }
                    }
                }
                Ok(())
            },
        }
    }

    /// The open element on top of the stack, if any.
    pub fn top_element(&self) -> (r: Option<&Element>)
        requires
            self.wf(),
        ensures
            match r {
                Some(e) => self.top() == Some(*e) && self.top_slot() is Some
                    && self.heads()[self.top_slot()->0 as int] == Node::Element(*e),
                None => self.top() is None && self.top_slot() is None,
            },
    {
        match self.pos {
            None => None,
            Some(p) => match &self.data[p].value {
                Node::Element(e) => Some(e),
                _ => None,
            },
        }
    }

    /// Builds the finished tree once every element is closed: slots are
    /// taken out of the arena from the last to the first and each is put in
    /// front of its parent's children, which restores document order.
    /// Returns the root, which is the tree that the slots' parent links
    /// describe; fails if the tree is empty or an element is open.
    pub fn to_dom(self) -> (r: Result<Element, KissXmlError>)
        requires
            self.wf(),
        ensures
            r is Ok <==> self.len() > 0 && self.top() is None,
            r is Ok ==> assembled(Node::Element(r->Ok_0), self.heads(), self.kids(), 0),
            r is Ok ==> same_but_children(r->Ok_0, self.root()),
    {
        if self.pos.is_some() || self.data.len() == 0 {
            return Err(KissXmlError::ParsingError(ParsingError::new("no root element")));
        }
        let ghost d = self.data@;
        let ghost heads = self.heads();
        let ghost kids = self.kids();
        proof {
            assert forall|i: int| 0 < i < d.len() implies {
                let p = (#[trigger] d[i]).parent_id;
                p is Some && p->0 < i
            } by {
                assert(self.data@[i] == d[i]);
            }
        }
        let mut data = self.data;
        while data.len() > 1
            invariant
                1 <= data.len() <= d.len(),
                heads.len() == d.len(),
                forall|i: int| 0 <= i < d.len() ==> #[trigger] heads[i] == d[i].value,
                forall|j: int| #[trigger] kids(j) == kids_from(d, j, 0),
                forall|i: int| 0 < i < d.len() ==> {
                    let p = (#[trigger] d[i]).parent_id;
                    p is Some && p->0 < i && d[p->0 as int].value is Element
                },
                d[0].parent_id is None,
                d[0].value is Element,
                forall|i: int| 0 <= i < d.len() ==> ((#[trigger] d[i]).value is Element
                    ==> d[i].value->Element_0.children_v().len() == 0),
                forall|i: int| 0 <= i < data.len() ==> (#[trigger] data@[i]).parent_id == d[i].parent_id,
                forall|i: int| 0 <= i < data.len() ==> {
                    let v = (#[trigger] data@[i]).value;
                    let ks = kids_from(d, i, data.len() as int);
                    if d[i].value is Element {
                        &&& v is Element
                        &&& same_but_children(v->Element_0, d[i].value->Element_0)
                        &&& v->Element_0.children_v().len() == ks.len()
                        &&& forall|m: int| 0 <= m < ks.len()
                            ==> assembled(#[trigger] v->Element_0.children_v()[m], heads, kids, ks[m])
                    } else {
                        v == d[i].value
                    }
                },
            decreases data.len(),
        {
            let ghost len = data.len() as int;
            let ghost before = data@;
            let last = data.pop();
            match last {
                Some(node) => {
                    let ghost x = node.value;
                    let ghost q = len - 1;
                    proof {
                        assert(before[q] == node);
                        lemma_kids_after(d, q, 0);
                        lemma_kids_after(d, q, len);
                        if x is Element {
                            assert(kids(q) == kids_from(d, q, len));
                            lemma_assembled_from_children(x, heads, kids, q);
                        } else {
                            assert(forall|i: int| 0 < i < d.len() ==> !is_parent(#[trigger] d[i], q)) by {
                                assert forall|i: int| 0 < i < d.len() implies !is_parent(#[trigger] d[i], q) by {
                                    if is_parent(d[i], q) {
                                        assert(d[q].value is Element);
                                    }
                                }
                            }
                            assert(kids_from(d, q, len) =~= Seq::<int>::empty()) by {
                                lemma_no_kids(d, q, len);
                            }
                            lemma_assembled_leaf(x, heads, kids, q);
                        }
                    }
                    let p = match node.parent_id {
                        Some(p) => p,
                        None => 0,
                    };
                    proof {
                        assert(d[q].parent_id == Some(p));
                        assert(p < q);
                        assert(d[p as int].value is Element);
                    }
                    let ghost mid = data@;
                    match &mut data[p].value {
                        Node::Element(e) => {
                            e.adopt_front(node.value);
                        },
                        _ => {},
                    }
                    proof {
                        assert forall|i: int| 0 <= i < data.len() implies (#[trigger] data@[i]).parent_id == d[i].parent_id by {
                            assert(mid[i] == before[i]);
                        }
                        assert forall|i: int| 0 <= i < data.len() implies {
                            let v = (#[trigger] data@[i]).value;
                            let ks = kids_from(d, i, data.len() as int);
                            if d[i].value is Element {
                                &&& v is Element
                                &&& same_but_children(v->Element_0, d[i].value->Element_0)
                                &&& v->Element_0.children_v().len() == ks.len()
                                &&& forall|m: int| 0 <= m < ks.len()
                                    ==> assembled(#[trigger] v->Element_0.children_v()[m], heads, kids, ks[m])
                            } else {
                                v == d[i].value
                            }
                        } by {
                            assert(mid[i] == before[i]);
                            lemma_kids_step(d, i, q);
                            if i == p {
                                let v = data@[i].value;
                                let old_v = before[i].value;
                                assert(v->Element_0.children_v() == seq![x] + old_v->Element_0.children_v());
                                assert forall|m: int| 0 <= m < kids_from(d, i, q).len()
                                    implies assembled(#[trigger] v->Element_0.children_v()[m], heads, kids, kids_from(d, i, q)[m]) by {
                                    if m > 0 {
                                        assert(v->Element_0.children_v()[m] == old_v->Element_0.children_v()[m - 1]);
                                        assert(kids_from(d, i, q)[m] == kids_from(d, i, len)[m - 1]);
                                    }
                                }
                            }
                        }
                    }
                },
                None => {},
            }
        }
        let ghost d0 = data@;
        match data.pop() {
            Some(ParseTreeNode { value: Node::Element(e), .. }) => {
                proof {
                    lemma_kids_after(d, 0, 0);
                    assert(kids(0) == kids_from(d, 0, 1));
                    lemma_assembled_from_children(Node::Element(e), heads, kids, 0);
                }
                Ok(e)
            },
            _ => Err(KissXmlError::ParsingError(ParsingError::new("no root element"))),
        }
    }
}

/// A slot that no later slot names as parent has no children from `lo` on.
proof fn lemma_no_kids(d: Seq<ParseTreeNode>, q: int, lo: int)
    requires
        0 <= q,
        0 < lo,
        forall|i: int| 0 < i < d.len() ==> !is_parent(#[trigger] d[i], q),
    ensures
        kids_from(d, q, lo) == Seq::<int>::empty(),
    decreases d.len() - lo,
{
    if lo < d.len() {
        lemma_no_kids(d, q, lo + 1);
        assert(kids_from(d, q, lo) =~= Seq::<int>::empty());
    }
}

/// Moving the boundary down past slot `q` adds `q` in front of its
/// parent's children and changes nothing for other slots.
proof fn lemma_kids_step(d: Seq<ParseTreeNode>, i: int, q: int)
    requires
        0 <= q < d.len(),
        0 <= i,
    ensures
        kids_from(d, i, q) == (if is_parent(d[q], i) { seq![q] } else { Seq::empty() })
            + kids_from(d, i, q + 1),
{
}

/// The prefix of a qualified name `p:local`, if it has one.
pub open spec fn qname_prefix(q: Seq<char>) -> Option<Seq<char>> {
    let k = find_char(q, ':', 0);
    if k >= 0 { Some(q.subrange(0, k)) } else { None }
}

/// The local part of a qualified name.
pub open spec fn qname_local(q: Seq<char>) -> Seq<char> {
    let k = find_char(q, ':', 0);
    if k >= 0 { q.subrange(k + 1, q.len() as int) } else { q }
}

/// The name written in element tag `tag`.
pub open spec fn tag_qname(tag: Seq<char>) -> Seq<char> {
    let i = name_start(tag);
    tag.subrange(i, name_end(tag, i + 1))
}

/// The attributes written in element tag `tag`, values decoded.
pub open spec fn tag_attrs(tag: Seq<char>) -> Seq<(Seq<char>, Seq<char>)> {
    attr_list(tag, name_end(tag, name_start(tag) + 1)).map_values(
        |p: (Seq<char>, Seq<char>)| (p.0, unescaped(p.1)),
    )
}

/// What the parser keeps of an open element: its tag name, the namespace
/// its unprefixed children inherit, and the prefix bindings in scope.
pub struct OpenView {
    pub tag: Seq<char>,
    pub default_ns: Option<Seq<char>>,
    pub context: Seq<(Seq<char>, Seq<char>)>,
}

pub open spec fn view_of(e: Element) -> OpenView {
    OpenView { tag: e.tag_name_v(), default_ns: e.default_namespace_v(), context: e.context_v() }
}

pub open spec fn parent_view(parent: Option<Element>) -> Option<OpenView> {
    match parent {
        Some(p) => Some(view_of(p)),
        None => None,
    }
}

/// The namespace that the element opened by tag `tag` resolves to under a
/// parent seen as `parent` (see `parsed_element`).
pub open spec fn tag_ns(tag: Seq<char>, parent: Option<OpenView>) -> Option<Seq<char>> {
    let q = tag_qname(tag);
    let attrs = insert_attrs(Seq::empty(), tag_attrs(tag));
    let inherited = match parent {
        Some(p) => p.context,
        None => Seq::empty(),
    };
    let parent_default = match parent {
        Some(p) => p.default_ns,
        None => None,
    };
    resolved_namespace(
        declared_namespace(attrs, qname_prefix(q)),
        qname_prefix(q),
        parent_default,
        prefix_bindings(attrs) + inherited,
    )
}

pub open spec fn tag_namespace(tag: Seq<char>, parent: Option<Element>) -> Option<Seq<char>> {
    tag_ns(tag, parent_view(parent))
}

/// The names in tag `tag` are valid XML names.
pub open spec fn tag_names_ok(tag: Seq<char>) -> bool {
    valid_name(qname_local(tag_qname(tag))) && valid_keys(tag_attrs(tag))
}

/// The view of the element that tag `tag` opens under `parent`.
pub open spec fn child_view(tag: Seq<char>, parent: Option<OpenView>) -> OpenView {
    let inherited = match parent {
        Some(p) => p.context,
        None => Seq::empty(),
    };
    OpenView {
        tag: tag_qname(tag),
        default_ns: if qname_prefix(tag_qname(tag)) is None { tag_ns(tag, parent) } else { None },
        context: prefix_bindings(insert_attrs(Seq::empty(), tag_attrs(tag))) + inherited,
    }
}

/// What `parse_new_element` makes of tag `tag` under `parent`: the element
/// the tag names, with its attributes, its prefix bindings followed by the
/// inherited ones, its namespace resolved against the parent, and no
/// children.
pub open spec fn parsed_element(e: Element, tag: Seq<char>, parent: Option<Element>) -> bool {
    parsed_head(e, tag, parent) && e.children_v().len() == 0
}

/// `e` is, children aside, the element that tag `tag` opens under `parent`
/// (see `parsed_element`).
pub open spec fn parsed_head(e: Element, tag: Seq<char>, parent: Option<Element>) -> bool {
    let q = tag_qname(tag);
    let inherited = match parent {
        Some(p) => p.context_v(),
        None => Seq::empty(),
    };
    let parent_default = match parent {
        Some(p) => p.default_namespace_v(),
        None => None,
    };
    &&& e.name_v() == qname_local(q)
    &&& e.prefix_v() == qname_prefix(q)
    &&& e.attributes_v() == insert_attrs(Seq::empty(), tag_attrs(tag))
    &&& e.context_v() == prefix_bindings(e.attributes_v()) + inherited
    &&& e.namespace_v() == resolved_namespace(
        declared_namespace(e.attributes_v(), qname_prefix(q)),
        qname_prefix(q),
        parent_default,
        e.context_v(),
    )
}

/// Makes the element that start tag `tag` opens under `parent`. Fails on a
/// malformed tag, an invalid element or attribute name, or a prefix bound
/// to no namespace.
#[verifier::rlimit(100)]
pub fn parse_new_element(tag: &Vec<char>, parent: Option<&Element>) -> (r: Result<Element, KissXmlError>)
    ensures
        !valid_element_tag(tag@) ==> r is Err,
        r is Ok ==> parsed_element(r->Ok_0, tag@, match parent { Some(p) => Some(*p), None => None }),
        r is Ok ==> (qname_prefix(tag_qname(tag@)) is Some ==> r->Ok_0.namespace_v() is Some),
        valid_element_tag(tag@) && (!valid_name(qname_local(tag_qname(tag@)))
            || !valid_keys(tag_attrs(tag@))) ==> r is Err,
        valid_element_tag(tag@) && valid_name(qname_local(tag_qname(tag@))) && valid_keys(tag_attrs(tag@))
            && (qname_prefix(tag_qname(tag@)) is Some ==> tag_namespace(tag@, match parent {
                Some(p) => Some(*p),
                None => None,
            }) is Some) ==> r is Ok,
        valid_element_tag(tag@) && tag_names_ok(tag@) && qname_prefix(tag_qname(tag@)) is Some
            && tag_namespace(tag@, match parent { Some(p) => Some(*p), None => None }) is None
            ==> r is Err && r->Err_0 is ParsingError,
        valid_element_tag(tag@) && !tag_names_ok(tag@) ==> r is Err && !(r->Err_0 is ParsingError),
        r is Ok ==> view_of(r->Ok_0) == child_view(tag@, parent_view(match parent { Some(p) => Some(*p), None => None })),
{
    let parts = match parse_tag(tag) {
        Some(p) => p,
        None => { return Err(KissXmlError::ParsingError(ParsingError::new("invalid XML syntax"))); },
    };
    let qn = chars_of(parts.name.as_str());
    let (prefix, local) = match find_char_exec(&qn, ':', 0) {
        Some(k) => (Some(string_of(&qn, 0, k)), string_of(&qn, k + 1, qn.len())),
        None => (None, string_of(&qn, 0, qn.len())),
    };
    proof {
        assert(qn@.subrange(0, qn@.len() as int) =~= qn@);
    }
    let ghost written = pairs_view(parts.attributes@);
    let ghost decoded = tag_attrs(tag@);
    let mut values: Vec<String> = Vec::new();
    let mut i: usize = 0;
    while i < parts.attributes.len()
        invariant
            i <= parts.attributes.len(),
            values.len() == i,
            written == pairs_view(parts.attributes@),
            forall|j: int| 0 <= j < i ==> (#[trigger] values@[j])@ == unescaped(written[j].1),
        decreases parts.attributes.len() - i,
    {
        values.push(unescape(parts.attributes[i].1.as_str()));
        i = i + 1;
    }
    let mut attrs: Vec<(&str, &str)> = Vec::new();
    let mut i: usize = 0;
    while i < parts.attributes.len()
        invariant
            i <= parts.attributes.len(),
            values.len() == parts.attributes.len(),
            written == pairs_view(parts.attributes@),
            forall|j: int| 0 <= j < values.len() ==> (#[trigger] values@[j])@ == unescaped(written[j].1),
            str_pairs(attrs@) == written.map_values(|p: (Seq<char>, Seq<char>)| (p.0, unescaped(p.1))).take(i as int),
        decreases parts.attributes.len() - i,
    {
        let k: &str = parts.attributes[i].0.as_str();
        let v: &str = values[i].as_str();
        let ghost before = attrs@;
        attrs.push((k, v));
        proof {
            assert(attrs@ == before.push((k, v)));
            assert(str_pairs(attrs@) =~= str_pairs(before).push((k@, v@)));
            assert(str_pairs(attrs@) =~= written.map_values(|p: (Seq<char>, Seq<char>)| (p.0, unescaped(p.1))).take(i + 1));
        }
        i = i + 1;
    }
    proof {
        assert(written.map_values(|p: (Seq<char>, Seq<char>)| (p.0, unescaped(p.1))).take(i as int) =~= decoded);
    }
    let prefix_str: Option<&str> = match &prefix {
        Some(p) => Some(p.as_str()),
        None => None,
    };
    let mut e = match Element::new(local.as_str(), None, Some(attrs), None, prefix_str, None) {
        Ok(e) => e,
        Err(err) => { return Err(err); },
    };
    let (parent_default, parent_context) = match parent {
        Some(p) => (p.default_namespace(), p.get_namespace_context()),
        None => (None, Vec::new()),
    };
    proof {
        assert(pairs_view(parent_context@) == match parent { Some(p) => p.context_v(), None => Seq::empty() });
    }
    e.set_namespace_context(parent_default, parent_context);
    if prefix.is_some() && e.namespace().is_none() {
        return Err(KissXmlError::ParsingError(ParsingError::new("XML namespace prefix has no defined namespace")));
    }
    proof {
        let q = tag_qname(tag@);
        if qname_prefix(q) is Some {
            let k = find_char(q, ':', 0);
            crate::codec::lemma_find_char(q, ':', 0);
            assert(q.subrange(0, k) + seq![':'] + q.subrange(k + 1, q.len() as int) =~= q);
        }
    }
    Ok(e)
}

fn sub_chars(v: &Vec<char>, lo: usize, hi: usize) -> (r: Vec<char>)
    requires
        lo <= hi <= v.len(),
    ensures
        r@ == v@.subrange(lo as int, hi as int),
{
    let mut r: Vec<char> = Vec::new();
    let mut i = lo;
    while i < hi
        invariant
            lo <= i <= hi <= v.len(),
            r@ == v@.subrange(lo as int, i as int),
        decreases hi - i,
    {
        r.push(v[i]);
        proof {
            assert(r@ =~= v@.subrange(lo as int, i + 1));
        }
        i = i + 1;
    }
    r
}

fn starts(v: &Vec<char>, p: &str) -> (r: bool)
    ensures
        r == crate::chars::starts_with(v@, p@),
{
    let pv = chars_of(p);
    occurs_at_exec(v, 0, &pv)
}

fn ends(v: &Vec<char>, p: &str) -> (r: bool)
    ensures
        r == crate::chars::ends_with(v@, p@),
{
    let pv = chars_of(p);
    if pv.len() > v.len() {
        return false;
    }
    occurs_at_exec(v, v.len() - pv.len(), &pv)
}

/// `text`, shortened to about `limit` characters with `…` in the middle.
pub open spec fn abbreviated(text: Seq<char>, limit: int) -> Seq<char> {
    if limit < 4 || text.len() <= limit {
        text
    } else {
        text.subrange(0, limit / 2 - 1) + seq!['…'] + text.subrange(text.len() - limit / 2, text.len() as int)
    }
}

/// `text`, shortened as `abbreviated` says.
pub fn abbreviate(text: &Vec<char>, limit: usize) -> (r: String)
    ensures
        r@ == abbreviated(text@, limit as int),
{
    if limit < 4 || text.len() <= limit {
        return string_of(text, 0, text.len());
    }
    let mut r = string_of(text, 0, limit / 2 - 1);
    r.push('…');
    let tail = string_of(text, text.len() - limit / 2, text.len());
    push_chars(&mut r, &chars_of(tail.as_str()));
    r
}

/// The message ends with ` (syntax error on line L, column C)`.
/// Line and column of index `p` of `s` (see `line_and_column`).
pub open spec fn position(s: Seq<char>, p: int) -> (int, int) {
    line_col(s.take(if p < s.len() { p + 1 } else { s.len() as int }))
}

/// ` (syntax error on line L, column C)` for index `p` of `s`.
pub open spec fn position_suffix(s: Seq<char>, p: int) -> Seq<char> {
    " (syntax error on line "@ + decimal(position(s, p).0 as nat) + ", column "@ + decimal(position(s, p).1 as nat)
        + seq![')']
}

/// The message ends with ` (syntax error on line L, column C)`, where L
/// and C are the line and column of index `p` of `s`.
pub open spec fn located_at(m: Seq<char>, s: Seq<char>, p: int) -> bool {
    ends_with(m, position_suffix(s, p))
}

/// A parsing error whose message ends with the line and column of index
/// `pos`.
fn syntax_error(buffer: &Vec<char>, pos: usize, msg: &str) -> (r: KissXmlError)
    requires
        buffer.len() < usize::MAX,
    ensures
        r is ParsingError,
        located_at(r->ParsingError_0.msg@, buffer@, pos as int),
{
    let (line, col) = line_and_column(buffer, pos);
    let mut m = String::new();
    crate::chars::push_text(&mut m, msg);
    crate::chars::push_text(&mut m, " (syntax error on line ");
    push_decimal(&mut m, line);
    crate::chars::push_text(&mut m, ", column ");
    push_decimal(&mut m, col);
    m.push(')');
    proof {
        assert(m@ =~= msg@ + " (syntax error on line "@ + decimal(line as nat) + ", column "@ + decimal(col as nat) + seq![')']);
        let suf = position_suffix(buffer@, pos as int);
        assert(m@ =~= msg@ + suf);
        assert(m@.subrange(m@.len() - suf.len(), m@.len() as int) =~= suf);
    }
    KissXmlError::ParsingError(ParsingError { msg: m })
}

/// The first markup span at or after `pos` that is an element tag (not
/// `<?...`, `<!...` or `</...`), reached by skipping whole spans; `None`
/// if a span does not close or none is left.
pub open spec fn first_element_tag(s: Seq<char>, pos: int) -> Option<(int, int)>
    decreases s.len() - pos,
{
    let st = find_char(s, '<', pos);
    let en = tag_end(s, st);
    if pos < 0 || st < pos || en <= st || en > s.len() {
        None
    } else if occurs_at(s, st, seq!['<', '?']) || occurs_at(s, st, seq!['<', '!'])
        || occurs_at(s, st, seq!['<', '/']) {
        first_element_tag(s, en)
    } else {
        Some((st, en))
    }
}

/// The text is one well-formed empty-element tag `<name .../>` and nothing
/// else, with valid names and no namespace prefix.
pub open spec fn lone_empty_element(x: Seq<char>) -> bool {
    &&& valid_element_tag(x)
    &&& x[1] != '/'
    &&& x[x.len() - 2] == '/'
    &&& valid_name(qname_local(tag_qname(x)))
    &&& valid_keys(tag_attrs(x))
    &&& qname_prefix(tag_qname(x)) is None
}

/// A declaration `<?...?>` (white space around it allowed).
pub open spec fn decl_ok(x: Seq<char>) -> bool {
    let t = trimmed(x);
    t.len() >= 4 && starts_with(t, decl_open()) && ends_with(t, decl_close())
}

/// A `<!DOCTYPE ...>` block (white space around it allowed).
pub open spec fn dtd_ok(x: Seq<char>) -> bool {
    let t = trimmed(x);
    t.len() >= 10 && starts_with(t, doctype_open()) && t.last() == '>'
}

/// Reading the markup before the root from `pos` on (`first`: nothing read
/// yet): white space only between spans; an `<?xml ...?>` declaration only
/// first; DTD blocks well formed; comments and other `<!...>` blocks
/// skipped; the first element tag, which must be a well-formed start or
/// empty-element tag, is the root's. Gives the root tag's span, or `None`.
pub open spec fn prolog_walk(s: Seq<char>, pos: int, first: bool) -> Option<(int, int)>
    decreases s.len() - pos,
{
    let st = find_char(s, '<', pos);
    let en = tag_end(s, st);
    let x = s.subrange(st, en);
    if pos < 0 || pos > s.len() || st < pos || en <= st || en > s.len() || !all_space(s.subrange(pos, st)) {
        None
    } else if starts_with(x, "<?xml"@) {
        if first && decl_ok(x) { prolog_walk(s, en, false) } else { None }
    } else if starts_with(x, "<!--"@) {
        prolog_walk(s, en, false)
    } else if starts_with(x, "<!DOCTYPE"@) {
        if dtd_ok(x) { prolog_walk(s, en, false) } else { None }
    } else if starts_with(x, "<!"@) {
        prolog_walk(s, en, false)
    } else if starts_with(x, "</"@) {
        None
    } else if valid_element_tag(x) {
        Some((st, en))
    } else {
        None
    }
}

/// The open-element stack right after the root's start tag `x`.
pub open spec fn root_stack(x: Seq<char>) -> Seq<OpenView> {
    if ends_with(x, "/>"@) { Seq::empty() } else { seq![child_view(x, None)] }
}

/// A well-formed document: the markup before the root reads well (see
/// `prolog_walk`), the root's start tag has valid names and a bound
/// prefix, and the rest reads well (see `body_walk`).
pub open spec fn well_formed(s: Seq<char>) -> bool {
    match prolog_walk(s, 0, true) {
        Some((st, en)) => {
            let x = s.subrange(st, en);
            &&& tag_names_ok(x)
            &&& (qname_prefix(tag_qname(x)) is Some ==> tag_ns(x, None) is Some)
            &&& body_walk(s, en, root_stack(x)) is None
        },
        None => false,
    }
}

/// Failures that the parser reports as a `ParsingError` citing the line
/// and column of the index given: the root's prefix bound to no namespace
/// (at the root tag), or a `body_walk` syntax error after a good root tag.
pub open spec fn failure_pos(s: Seq<char>) -> Option<int> {
    match prolog_walk(s, 0, true) {
        Some((st, en)) => {
            let x = s.subrange(st, en);
            if !tag_names_ok(x) {
                None
            } else if qname_prefix(tag_qname(x)) is Some && tag_ns(x, None) is None {
                Some(st)
            } else {
                match body_walk(s, en, root_stack(x)) {
                    Some((true, p)) => Some(p),
                    _ => None,
                }
            }
        },
        None => None,
    }
}

/// What a declaration span keeps: the text between `<?` and `?>`.
pub open spec fn decl_inner(x: Seq<char>) -> Seq<char> {
    let t = trimmed(x);
    t.subrange(2, t.len() - 2)
}

/// What a DTD span keeps: the text between `<!DOCTYPE` and `>`.
pub open spec fn dtd_inner(x: Seq<char>) -> Seq<char> {
    let t = trimmed(x);
    t.subrange(9, t.len() - 1)
}

/// The document's declaration: the first span, when it is `<?xml ...?>`.
pub open spec fn prolog_decl(s: Seq<char>) -> Option<Seq<char>> {
    let st = find_char(s, '<', 0);
    let en = tag_end(s, st);
    if 0 <= st < en <= s.len() && starts_with(s.subrange(st, en), "<?xml"@) {
        Some(decl_inner(s.subrange(st, en)))
    } else {
        None
    }
}

/// The DTD blocks met by `prolog_walk` from `pos` on, in order.
pub open spec fn prolog_dtds(s: Seq<char>, pos: int, first: bool) -> Seq<Seq<char>>
    decreases s.len() - pos,
{
    let st = find_char(s, '<', pos);
    let en = tag_end(s, st);
    let x = s.subrange(st, en);
    if pos < 0 || pos > s.len() || st < pos || en <= st || en > s.len() || !all_space(s.subrange(pos, st)) {
        Seq::empty()
    } else if starts_with(x, "<?xml"@) {
        if first && decl_ok(x) { prolog_dtds(s, en, false) } else { Seq::empty() }
    } else if starts_with(x, "<!--"@) {
        prolog_dtds(s, en, false)
    } else if starts_with(x, "<!DOCTYPE"@) {
        if dtd_ok(x) { seq![dtd_inner(x)] + prolog_dtds(s, en, false) } else { Seq::empty() }
    } else if starts_with(x, "<!"@) {
        prolog_dtds(s, en, false)
    } else {
        Seq::empty()
    }
}

pub open spec fn decl_content(d: Option<Declaration>) -> Option<Seq<char>> {
    match d {
        Some(x) => Some(x.content()),
        None => None,
    }
}

pub open spec fn dtd_contents(v: Seq<DTD>) -> Seq<Seq<char>> {
    v.map_values(|d: DTD| d.content())
}

/// What comes before the root element: the declaration, the DTD blocks,
/// and where the root's start tag lies.
pub struct Prolog {
    pub declaration: Option<Declaration>,
    pub dtds: Vec<DTD>,
    pub root_start: usize,
    pub root_end: usize,
}

/// Reads the markup before the root element (declaration, DTD blocks,
/// comments and other `<!...>` blocks, skipped) up to the root's start tag.
fn parse_prolog(buf: &Vec<char>) -> (r: Result<Prolog, KissXmlError>)
    requires
        buf.len() < usize::MAX,
    ensures
        find_char(buf@, '<', 0) == -1 ==> r is Err,
        r is Ok ==> r->Ok_0.root_start < r->Ok_0.root_end <= buf.len()
            && buf@[r->Ok_0.root_end - 1] == '>'
            && first_element_tag(buf@, 0) == Some((r->Ok_0.root_start as int, r->Ok_0.root_end as int)),
        lone_empty_element(buf@) ==> r is Ok && r->Ok_0.root_start == 0 && r->Ok_0.root_end == buf.len(),
        r is Ok <==> prolog_walk(buf@, 0, true) is Some,
        r is Ok ==> prolog_walk(buf@, 0, true) == Some((r->Ok_0.root_start as int, r->Ok_0.root_end as int)),
        r is Ok ==> valid_element_tag(buf@.subrange(r->Ok_0.root_start as int, r->Ok_0.root_end as int)),
        r is Ok ==> decl_content(r->Ok_0.declaration) == prolog_decl(buf@),
        r is Ok ==> dtd_contents(r->Ok_0.dtds@) == prolog_dtds(buf@, 0, true),
{
    let mut decl: Option<Declaration> = None;
    let mut dtds: Vec<DTD> = Vec::new();
    let mut pos: usize = 0;
    let mut first = true;
    let mut root_start: usize = 0;
    let mut root_end: usize = 0;
    loop
        invariant_except_break
            pos <= buf.len(),
            buf.len() < usize::MAX,
            !first ==> find_char(buf@, '<', 0) >= 0,
            first ==> pos == 0,
            first ==> decl is None,
            !first ==> decl_content(decl) == prolog_decl(buf@),
            dtd_contents(dtds@) + prolog_dtds(buf@, pos as int, first) == prolog_dtds(buf@, 0, true),
            first_element_tag(buf@, 0) == first_element_tag(buf@, pos as int),
            prolog_walk(buf@, 0, true) == prolog_walk(buf@, pos as int, first),
            lone_empty_element(buf@) ==> first,
        ensures
            root_start < root_end <= buf.len(),
            buf.len() < usize::MAX,
            find_char(buf@, '<', 0) >= 0,
            decl_content(decl) == prolog_decl(buf@),
            dtd_contents(dtds@) == prolog_dtds(buf@, 0, true),
            first_element_tag(buf@, 0) == Some((root_start as int, root_end as int)),
            buf@[root_end - 1] == '>',
            lone_empty_element(buf@) ==> root_start == 0 && root_end == buf.len(),
            prolog_walk(buf@, 0, true) == Some((root_start as int, root_end as int)),
            valid_element_tag(buf@.subrange(root_start as int, root_end as int)),
        decreases buf.len() - pos,
    {
        let (s_opt, e_opt) = next_tag(buf, pos);
        proof {
            if lone_empty_element(buf@) {
                assert(pos == 0);
                assert(find_char(buf@, '<', 0) == 0);
                crate::grammar::lemma_tag_closes_at_end(buf@);
            }
        }
        let s = match s_opt {
            None => {
                proof {
                    if first {
                        assert(pos == 0);
                    }
                }
                return Err(KissXmlError::ParsingError(ParsingError::new("no XML content")));
            },
            Some(s) => s,
        };
        proof {
            crate::codec::lemma_find_char(buf@, '<', pos as int);
            if first {
                assert(pos == 0);
            }
        }
        let e = match e_opt {
            None => { return Err(syntax_error(buf, s, "'<' has no matching '>'")); },
            Some(e) => e,
        };
        proof {
            if lone_empty_element(buf@) {
                assert(buf@.subrange(pos as int, s as int) =~= Seq::<char>::empty());
            }
        }
        if real_text(buf, pos, s).is_some() {
            return Err(syntax_error(buf, pos, "Text outside the root element is not supported"));
        }
        let slice = sub_chars(buf, s, e);
        proof {
            if lone_empty_element(buf@) {
                assert(slice@ =~= buf@);
            }
        }
        let ghost skips = occurs_at(buf@, s as int, seq!['<', '?']) || occurs_at(buf@, s as int, seq!['<', '!'])
            || occurs_at(buf@, s as int, seq!['<', '/']);
        proof {
            assert(slice@[0] == buf@[s as int]);
            if slice@.len() > 1 {
                assert(slice@[1] == buf@[s + 1]);
                assert(occurs_at(buf@, s as int, seq!['<', slice@[1]]) ) by {
                    assert(buf@.subrange(s as int, s + 2) =~= seq!['<', slice@[1]]);
                }
            }
            if occurs_at(buf@, s as int, seq!['<', '?']) || occurs_at(buf@, s as int, seq!['<', '!'])
                || occurs_at(buf@, s as int, seq!['<', '/']) {
                assert(buf@.subrange(s as int, s + 2)[1] == buf@[s + 1]);
                assert(slice@.len() > 1 && (slice@[1] == '?' || slice@[1] == '!' || slice@[1] == '/'));
            }
            if slice@.len() > 1 && (slice@[1] == '?' || slice@[1] == '!' || slice@[1] == '/') {
                assert(skips);
            }
        }
        if starts(&slice, "<?xml") {
            proof {
                reveal_strlit("<?xml");
                assert(slice@.subrange(0, 5)[1] == slice@[1]);
                assert(skips);
            }
            if !first {
                return Err(syntax_error(buf, s, "<?xml ...?> declaration must be at the start of XML"));
            }
            let text = string_of(&slice, 0, slice.len());
            proof {
                assert(text@ =~= slice@);
            }
            match Declaration::from_str(text.as_str()) {
                Ok(d) => { decl = Some(d); },
                Err(err) => { return Err(err); },
            }
        } else if starts(&slice, "<!--") {
            proof {
                reveal_strlit("<!--");
                assert(slice@.subrange(0, 4)[1] == slice@[1]);
                assert(skips);
            }
        } else if starts(&slice, "<!DOCTYPE") {
            proof {
                reveal_strlit("<!DOCTYPE");
                assert(slice@.subrange(0, 9)[1] == slice@[1]);
                assert(skips);
            }
            let text = string_of(&slice, 0, slice.len());
            proof {
                assert(text@ =~= slice@);
            }
            match DTD::from_string(text.as_str()) {
                Ok(d) => {
                    let ghost before = dtds@;
                    dtds.push(d);
                    proof {
                        assert(dtd_contents(dtds@) =~= dtd_contents(before).push(d.content()));
                        assert(dtd_contents(dtds@) + prolog_dtds(buf@, e as int, false)
                            =~= dtd_contents(before) + (seq![d.content()] + prolog_dtds(buf@, e as int, false)));
                    }
                },
                Err(err) => { return Err(err); },
            }
        } else if starts(&slice, "<!") {
            proof {
                reveal_strlit("<!");
                assert(slice@.subrange(0, 2)[1] == slice@[1]);
                assert(skips);
            }
        } else if starts(&slice, "</") {
            proof {
                reveal_strlit("</");
                assert(slice@.subrange(0, 2)[1] == slice@[1]);
                assert(skips);
            }
            return Err(syntax_error(buf, s, "cannot start with closing tag"));
        } else {
            if !check_element_tag(&slice) {
                return Err(syntax_error(buf, s, "invalid XML syntax"));
            }
            proof {
                reveal_strlit("</");
                if slice@.len() > 1 && slice@[1] == '/' {
                    assert(slice@.subrange(0, 2) =~= "</"@);
                }
                assert(!skips);
            }
            root_start = s;
            root_end = e;
            break;
        }
        proof {
            if lone_empty_element(buf@) {
                assert(!skips);
                assert(false);
            }
        }
        first = false;
        pos = e;
    }
    Ok(Prolog { declaration: decl, dtds, root_start, root_end })
}

/// The outcome of reading the markup after the root's start tag from
/// `pos` on, with `stack` the open elements (root first): `None` when every
/// element closes and nothing follows the root but white space; `Some((true, p))`
/// for a syntax error that the parser reports with a line and column (no
/// closing `>`, markup after the root, an unclosed CDATA section, a
/// malformed tag, an end tag that does not match the open element, a prefix
/// bound to no namespace, the root left open), with `p` the index where it
/// is reported (the span's `<`, or the end for an open root); `Some((false, _))` for any other
/// error (invalid names, content holding its own terminator, unsupported
/// `<!...>` markup).
pub open spec fn body_walk(s: Seq<char>, pos: int, stack: Seq<OpenView>) -> Option<(bool, int)>
    decreases s.len() - pos,
{
    let st = find_char(s, '<', pos);
    let en = tag_end(s, st);
    let x = s.subrange(st, en);
    let n = x.len();
    if pos < 0 || pos > s.len() {
        Some((false, pos))
    } else if st < pos {
        if stack.len() == 0 { None } else { Some((true, s.len() as int)) }
    } else if en <= st || en > s.len() || stack.len() == 0 {
        Some((true, st))
    } else if starts_with(x, "<!--"@) && ends_with(x, "-->"@) && n >= 7 {
        if contains_seq(x.subrange(4, n - 3), comment_end()) { Some((false, st)) } else { body_walk(s, en, stack) }
    } else if starts_with(x, "<![CDATA["@) {
        if !(n >= 12 && ends_with(x, "]]>"@)) {
            Some((true, st))
        } else if contains_seq(x.subrange(9, n - 3), cdata_end()) {
            Some((false, st))
        } else {
            body_walk(s, en, stack)
        }
    } else if starts_with(x, "<!"@) {
        Some((false, st))
    } else if !valid_element_tag(x) {
        Some((true, st))
    } else if n > 1 && x[1] == '/' {
        if stripped_tag(x) != stack.last().tag { Some((true, st)) } else { body_walk(s, en, stack.drop_last()) }
    } else if !tag_names_ok(x) {
        Some((false, st))
    } else if qname_prefix(tag_qname(x)) is Some && tag_ns(x, Some(stack.last())) is None {
        Some((true, st))
    } else if ends_with(x, "/>"@) {
        body_walk(s, en, stack)
    } else {
        body_walk(s, en, stack.push(child_view(x, Some(stack.last()))))
    }
}

/// Reads the markup after the root's start tag, from `from` on, into
/// `tree`: text, comments, CDATA sections and elements go under the open
/// element, end tags close it. Succeeds exactly when `body_walk` does.
fn build_tree(buf: &Vec<char>, tree: &mut ParseTree, from: usize, Ghost(pre): Ghost<Seq<SlotV>>) -> (r: Result<(), KissXmlError>)
    requires
        slots_match(*old(tree), pre),
        old(tree).wf(),
        old(tree).len() > 0,
        from <= buf.len(),
        buf.len() < usize::MAX,
    ensures
        final(tree).wf(),
        final(tree).len() > 0,
        final(tree).root() == old(tree).root(),
        r is Ok ==> final(tree).top() is None,
        r is Ok <==> body_walk(buf@, from as int, stack_views(*old(tree))) is None,
        match body_walk(buf@, from as int, stack_views(*old(tree))) {
            Some((true, p)) => r is Err && r->Err_0 is ParsingError && located_at(r->Err_0->ParsingError_0.msg@, buf@, p),
            _ => true,
        },
        r is Ok ==> slots_match(*final(tree), body_slots(buf@, from as int, stack_views(*old(tree)), stack_slots(*old(tree)), pre)),
{
    let ghost res = body_walk(buf@, from as int, stack_views(*tree));
    let ghost res_slots = body_slots(buf@, from as int, stack_views(*tree), stack_slots(*tree), pre);
    let ghost mut sl = pre;
    let ghost mut open = stack_slots(*tree);
    let ghost mut stack = stack_views(*tree);
    let mut pos = from;
    loop
        invariant
            tree.wf(),
            tree.len() > 0,
            tree.root() == old(tree).root(),
            pos <= buf.len(),
            buf.len() < usize::MAX,
            stack == stack_views(*tree),
            res == body_walk(buf@, from as int, stack_views(*old(tree))),
            body_walk(buf@, pos as int, stack) == res,
            slots_match(*tree, sl),
            open == stack_slots(*tree),
            res_slots == body_slots(buf@, from as int, stack_views(*old(tree)), stack_slots(*old(tree)), pre),
            body_slots(buf@, pos as int, stack, open, sl) == res_slots,
        decreases buf.len() - pos,
    {
        proof {
            lemma_stack_top(*tree);
            crate::codec::lemma_find_char(buf@, '<', pos as int);
        }
        let (s_opt, e_opt) = next_tag(buf, pos);
        let s = match s_opt {
            None => {
                if !tree.empty_stack() {
                    return Err(syntax_error(buf, buf.len(), "root element not closed"));
                }
                return Ok(());
            },
            Some(s) => s,
        };
        let e = match e_opt {
            None => { return Err(syntax_error(buf, s, "invalid XML syntax")); },
            Some(e) => e,
        };
        if tree.empty_stack() {
            return Err(syntax_error(buf, s, "only 1 root element is allowed"));
        }
        let ghost before_text = *tree;
        match real_text(buf, pos, s) {
            Some(content) => {
                let t = Text { content };
                if !t.is_whitespace() {
                    let ghost tn = Node::Text(t);
                    match tree.append(Node::Text(t)) {
                        Ok(()) => {},
                        Err(_) => { return Err(syntax_error(buf, pos, "text outside the root element")); },
                    }
                    proof {
                        lemma_slots_push(before_text, *tree, sl, tn, HeadV::Txt(t.content@));
                        sl = sl.push(SlotV { head: HeadV::Txt(t.content@), parent: before_text.top_slot()->0 as int });
                    }
                }
            },
            None => {},
        }
        proof {
            lemma_stack_top(*tree);
        }
        let slice = sub_chars(buf, s, e);
        let n = slice.len();
        if starts(&slice, "<!--") && ends(&slice, "-->") && n >= 7 {
            let inner = string_of(&slice, 4, n - 3);
            match Comment::new(inner.as_str()) {
                Ok(c) => {
                    let ghost t0 = *tree;
                    let ghost cn = Node::Comment(c);
                    proof { lemma_stack_top(*tree); }
                    match tree.append(Node::Comment(c)) {
                        Ok(()) => {},
                        Err(_) => { return Err(syntax_error(buf, s, "comment outside the root element")); },
                    }
                    proof {
                        lemma_slots_push(t0, *tree, sl, cn, HeadV::Com(inner@));
                        sl = sl.push(SlotV { head: HeadV::Com(inner@), parent: t0.top_slot()->0 as int });
                    }
                },
                Err(err) => { return Err(KissXmlError::InvalidContent(err)); },
            }
        } else if starts(&slice, "<![CDATA[") {
            if !(n >= 12 && ends(&slice, "]]>")) {
                return Err(syntax_error(buf, s, "Unclosed CDATA. '<![CDATA[' must be followed by ']]>'"));
            }
            let inner = string_of(&slice, 9, n - 3);
            match CData::new(inner.as_str()) {
                Ok(c) => {
                    let ghost t0 = *tree;
                    let ghost cn = Node::CData(c);
                    proof { lemma_stack_top(*tree); }
                    match tree.append(Node::CData(c)) {
                        Ok(()) => {},
                        Err(_) => { return Err(syntax_error(buf, s, "CDATA outside the root element")); },
                    }
                    proof {
                        lemma_slots_push(t0, *tree, sl, cn, HeadV::Cd(inner@));
                        sl = sl.push(SlotV { head: HeadV::Cd(inner@), parent: t0.top_slot()->0 as int });
                    }
                },
                Err(err) => { return Err(KissXmlError::InvalidContent(err)); },
            }
        } else if starts(&slice, "<!") {
            let mut m = String::new();
            crate::chars::push_text(&mut m, "not supported: ");
            let short = abbreviate(&slice, 32);
            crate::chars::push_text(&mut m, short.as_str());
            return Err(KissXmlError::NotSupportedError(NotSupportedError { msg: m }));
        } else {
            if !check_element_tag(&slice) {
                return Err(syntax_error(buf, s, "invalid XML syntax"));
            }
            if n > 1 && slice[1] == '/' {
                let matches = match tree.top_element() {
                    None => { return Err(syntax_error(buf, s, "root element already closed")); },
                    Some(top) => {
                        let name = strip_tag(&slice);
                        name == top.tag_name()
                    },
                };
                if !matches {
                    return Err(syntax_error(buf, s, "closing tag does not match the open element"));
                }
                let ghost t0 = *tree;
                match tree.pop() {
                    Ok(()) => {},
                    Err(err) => { return Err(err); },
                }
                proof {
                    lemma_slots_same(t0, *tree, sl);
                    stack = stack.drop_last();
                    open = open.drop_last();
                }
            } else {
                let new_element = match parse_new_element(&slice, tree.top_element()) {
                    Ok(el) => el,
                    Err(KissXmlError::ParsingError(_)) => {
                        return Err(syntax_error(buf, s, "XML namespace prefix has no defined namespace"));
                    },
                    Err(err) => { return Err(err); },
                };
                let ghost t0 = *tree;
                let ghost h = elem_head(slice@, Some(stack.last()));
                let ghost en_node = Node::Element(new_element);
                proof {
                    lemma_stack_top(*tree);
                    assert(head_matches(en_node, h));
                }
                if ends(&slice, "/>") {
                    match tree.append(Node::Element(new_element)) {
                        Ok(()) => {},
                        Err(_) => { return Err(syntax_error(buf, s, "element outside the root element")); },
                    }
                    proof {
                        lemma_slots_push(t0, *tree, sl, en_node, h);
                        sl = sl.push(SlotV { head: h, parent: t0.top_slot()->0 as int });
                    }
                } else {
                    let ghost v = view_of(new_element);
                    match tree.push(new_element) {
                        Ok(()) => {},
                        Err(err) => { return Err(err); },
                    }
                    proof {
                        lemma_slots_push(t0, *tree, sl, en_node, h);
                        open = open.push(sl.len() as int);
                        sl = sl.push(SlotV { head: h, parent: t0.top_slot()->0 as int });
                        stack = stack.push(v);
                    }
                }
            }
        }
        pos = e;
    }
}

/// Parses XML text into a document: an optional `<?xml ...?>` declaration,
/// any number of `<!DOCTYPE ...>` blocks, then exactly one root element.
/// Comments and other `<!...>` blocks before the root are skipped. Every
/// malformed input gives an error, never a panic. It succeeds exactly on
/// well-formed documents (see `well_formed`); the root is then the element
/// that the first element tag opens.
#[verifier::rlimit(100)]
pub fn parse_str(xml_string: &str) -> (r: Result<Document, KissXmlError>)
    ensures
        find_char(xml_string@, '<', 0) == -1 ==> r is Err,
        r is Ok ==> first_element_tag(xml_string@, 0) is Some && ({
            let (s, e) = first_element_tag(xml_string@, 0)->0;
            parsed_head(r->Ok_0.root_v(), xml_string@.subrange(s, e), None)
        }),
        lone_empty_element(xml_string@) && xml_string@.len() < usize::MAX ==> r is Ok,
        xml_string@.len() < usize::MAX ==> (r is Ok <==> well_formed(xml_string@)),
        xml_string@.len() < usize::MAX ==> match failure_pos(xml_string@) {
            Some(p) => r is Err && r->Err_0 is ParsingError && located_at(r->Err_0->ParsingError_0.msg@, xml_string@, p),
            None => true,
        },
        r is Ok ==> decl_content(r->Ok_0.declaration_v()) == prolog_decl(xml_string@),
        r is Ok ==> dtd_contents(r->Ok_0.dtds_v()) == prolog_dtds(xml_string@, 0, true),
        r is Ok ==> assembled_v(Node::Element(r->Ok_0.root_v()), heads_of(doc_slots(xml_string@)),
            |j: int| kids_of(doc_slots(xml_string@), j, 0), 0, child_count(Node::Element(r->Ok_0.root_v()))),
{
    let buf = chars_of(xml_string);
    if buf.len() == usize::MAX {
        return Err(KissXmlError::ParsingError(ParsingError::new("input too large")));
    }
    let prolog = match parse_prolog(&buf) {
        Ok(p) => p,
        Err(err) => { return Err(err); },
    };
    let Prolog { declaration: decl, dtds, root_start, root_end } = prolog;
    let root_slice = sub_chars(&buf, root_start, root_end);
    proof {
        if lone_empty_element(buf@) {
            assert(root_slice@ =~= buf@);
        }
    }
    let root = match parse_new_element(&root_slice, None) {
        Ok(r) => r,
        Err(KissXmlError::ParsingError(_)) => {
            return Err(syntax_error(&buf, root_start, "XML namespace prefix has no defined namespace"));
        },
        Err(err) => { return Err(err); },
    };
    let ghost root_elem = root;
    let ghost pre = seq![SlotV { head: elem_head(root_slice@, None), parent: -1 }];
    let mut tree = ParseTree::new();
    proof {
        assert(tree.heads() =~= Seq::<Node>::empty());
    }
    match tree.push(root) {
        Ok(()) => {},
        Err(err) => { return Err(err); },
    }
    proof {
        lemma_root_slot(tree, Node::Element(root_elem), pre);
    }
    let self_closing_root = ends(&root_slice, "/>");
    proof {
        if lone_empty_element(buf@) {
            reveal_strlit("/>");
            assert(root_slice@[root_slice@.len() - 1] == '>');
            assert(root_slice@.subrange(root_slice@.len() - 2, root_slice@.len() as int) =~= "/>"@);
            assert(self_closing_root);
        }
    }
    let ghost t1 = tree;
    if self_closing_root {
        match tree.pop() {
            Ok(()) => {},
            Err(err) => { return Err(err); },
        }
        proof {
            lemma_slots_same(t1, tree, pre);
        }
    }
    proof {
        assert(stack_views(tree) =~= root_stack(root_slice@));
        assert(stack_slots(tree) =~= (if ends_with(root_slice@, "/>"@) { Seq::<int>::empty() } else { seq![0int] }));
    }
    let ghost t2 = tree;
    proof {
        if lone_empty_element(buf@) {
            assert(stack_views(tree) =~= Seq::<OpenView>::empty());
            assert(find_char(buf@, '<', root_end as int) == -1);
        }
    }
    let r = build_tree(&buf, &mut tree, root_end, Ghost(pre));
    proof {
        let x = buf@.subrange(root_start as int, root_end as int);
        assert(root_slice@ == x);
        assert(tag_names_ok(x));
        assert(stack_views(t2) == root_stack(x));
    }
    match r {
        Ok(()) => {},
        Err(err) => { return Err(err); },
    }
    let ghost t3 = tree;
    let root = match tree.to_dom() {
        Ok(r) => r,
        Err(err) => { return Err(err); },
    };
    proof {
        assert(parsed_head(root, buf@.subrange(root_start as int, root_end as int), None));
        let sl = doc_slots(buf@);
        assert(sl == body_slots(buf@, root_end as int, stack_views(t2), stack_slots(t2), pre));
        lemma_views_of_match(t3, sl);
        let kv = |j: int| kids_of(sl, j, 0);
        assert forall|j: int| #[trigger] t3.kids()(j) == kv(j) by {
            lemma_kids_match(t3, sl, j, 0);
        }
        lemma_assembled_to_views(Node::Element(root), t3.heads(), t3.kids(), heads_of(sl), kv, 0,
            child_count(Node::Element(root)));
    }
    Ok(Document::new_with_decl_dtd(root, decl, Some(dtds)))
}


/// A parsed element with no prefix and no `xmlns` attribute takes its
/// parent's default namespace (`<root xmlns="NS1"><child/></root>` gives
/// `child` the namespace `NS1`) and stays unprefixed.
pub proof fn law_parsed_default_namespace(e: Element, tag: Seq<char>, parent: Element)
    requires
        parsed_element(e, tag, Some(parent)),
        qname_prefix(tag_qname(tag)) is None,
        declared_namespace(e.attributes_v(), None) is None,
    ensures
        e.namespace_v() == parent.default_namespace_v(),
        e.prefix_v() is None,
{
}

/// A parsed element with no prefix and no `xmlns` attribute, under a parent
/// without a default namespace, has no namespace, whatever prefixes are
/// bound (`<root xmlns:a="NS_A"><a:x/><y/></root>`: `y` is not in `NS_A`).
pub proof fn law_parsed_unprefixed_not_in_prefixed_namespace(e: Element, tag: Seq<char>, parent: Element)
    requires
        parsed_element(e, tag, Some(parent)),
        qname_prefix(tag_qname(tag)) is None,
        declared_namespace(e.attributes_v(), None) is None,
        parent.default_namespace_v() is None,
    ensures
        e.namespace_v() is None,
{
}

/// A parsed prefixed element without its own `xmlns:prefix` attribute takes
/// the namespace its prefix is bound to in scope (`<root xmlns:a="NS_A">
/// <a:child/></root>` gives `child` the namespace `NS_A`).
pub proof fn law_parsed_prefix_namespace(e: Element, tag: Seq<char>, parent: Element, p: Seq<char>)
    requires
        parsed_element(e, tag, Some(parent)),
        qname_prefix(tag_qname(tag)) == Some(p),
        declared_namespace(e.attributes_v(), Some(p)) is None,
    ensures
        e.namespace_v() == lookup(e.context_v(), p),
        e.context_v() == prefix_bindings(e.attributes_v()) + parent.context_v(),
{
}

} // verus!
