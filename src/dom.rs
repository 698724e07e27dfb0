//! The document object model: a tree of element, text, comment and CDATA
//! nodes under one root element, and the document that holds it.
use vstd::prelude::*;
use crate::chars::{all_space, all_space_exec, chars_of, contains_exec, contains_seq, ends_with, is_ascii_letter, is_space, is_space_char, push_text, starts_with, string_of};
use crate::codec::{escaped_markup, escaped_text};
use crate::grammar::{is_name_char, is_name_start, name_char_exec, name_start_exec};
use crate::errors::{DoesNotExistError, IndexOutOfBounds, InvalidAttributeName, InvalidContent, InvalidElementName, KissXmlError, TypeCastError};

verus! {

/// The kind of a DOM node.
#[derive(PartialEq, Eq, Structural, Clone, Copy, Debug)]
pub enum DomNodeType {
    CDataNode,
    CommentNode,
    ElementNode,
    TextNode,
}

/// A node of the tree: the closed set of the four node kinds.
#[derive(Debug)]
pub enum Node {
    Element(Element),
    Text(Text),
    Comment(Comment),
    CData(CData),
}

/// A run of text.
#[derive(Debug)]
pub struct Text {
    pub content: String,
}

/// An XML comment; its content never holds `-->`.
#[derive(Debug)]
pub struct Comment {
    comment: String,
}

/// A CDATA section: text kept as it is, never escaped; its content never
/// holds `]]>`.
#[derive(Debug)]
pub struct CData {
    cdata: String,
}

/// An XML element: a name, attributes, an optional namespace with an
/// optional prefix, the namespace bindings in scope, and child nodes.
#[derive(Debug)]
pub struct Element {
    name: String,
    child_nodes: Vec<Node>,
    /// Attributes in rendering order: `xmlns` ones first, then by name.
    attributes: Vec<(String, String)>,
    xmlns: Option<String>,
    xmlns_prefix: Option<String>,
    /// Prefix bindings in scope; the first binding of a prefix wins.
    xmlns_context: Vec<(String, String)>,
}

/// What normalization sees of a node: the content of a text node, or any
/// other node as it is.
pub enum Piece {
    Txt(Seq<char>),
    Other(Node),
}

pub open spec fn piece(n: Node) -> Piece {
    match n {
        Node::Text(t) => Piece::Txt(t.content@),
        _ => Piece::Other(n),
    }
}

pub open spec fn pieces(s: Seq<Node>) -> Seq<Piece> {
    s.map_values(|n: Node| piece(n))
}

pub open spec fn comment_end() -> Seq<char> {
    seq!['-', '-', '>']
}

pub open spec fn cdata_end() -> Seq<char> {
    seq![']', ']', '>']
}

pub open spec fn opt_view(o: Option<String>) -> Option<Seq<char>> {
    match o {
        Some(s) => Some(s@),
        None => None,
    }
}

pub open spec fn pair_view(p: (String, String)) -> (Seq<char>, Seq<char>) {
    (p.0@, p.1@)
}

pub open spec fn pairs_view(s: Seq<(String, String)>) -> Seq<(Seq<char>, Seq<char>)> {
    s.map_values(|p: (String, String)| pair_view(p))
}

/// The value bound to `key` by the first pair that has it.
pub open spec fn lookup(s: Seq<(Seq<char>, Seq<char>)>, key: Seq<char>) -> Option<Seq<char>>
    decreases s.len(),
{
    if s.len() == 0 {
        None
    } else if s[0].0 == key {
        Some(s[0].1)
    } else {
        lookup(s.skip(1), key)
    }
}

pub(crate) fn clone_opt(o: &Option<String>) -> (r: Option<String>)
    ensures
        r == *o,
{
    match o {
        Some(s) => Some(s.clone()),
        None => None,
    }
}

pub(crate) fn str_eq(a: &String, b: &str) -> (r: bool)
    ensures
        r == (a@ == b@),
{
    let v = chars_of(b);
    let w = chars_of(a.as_str());
    if v.len() != w.len() {
        return false;
    }
    let mut i: usize = 0;
    while i < v.len()
        invariant
            v.len() == w.len(),
            v@ == b@,
            w@ == a@,
            i <= v.len(),
            forall|j: int| 0 <= j < i ==> v@[j] == w@[j],
        decreases v.len() - i,
    {
        if v[i] != w[i] {
            return false;
        }
        i = i + 1;
    }
    proof {
        assert(v@ =~= w@);
    }
    true
}

fn opt_eq(a: &Option<String>, b: &Option<String>) -> (r: bool)
    ensures
        r == (opt_view(*a) == opt_view(*b)),
{
    match (a, b) {
        (Some(x), Some(y)) => x.eq(y),
        (None, None) => true,
        _ => false,
    }
}

fn owned(s: &str) -> (r: String)
    ensures
        r@ == s@,
{
    let mut r = String::new();
    push_text(&mut r, s);
    r
}

impl Text {
    /// A text node with the given content.
    pub fn new(text: &str) -> (r: Self)
        ensures
            r.content@ == text@,
    {
        Text { content: owned(text) }
    }

    /// A text node whose content is this one's followed by `other`'s.
    pub fn concat(&self, other: &Text) -> (r: Text)
        ensures
            r.content@ == self.content@ + other.content@,
    {
        let mut content = self.content.clone();
        push_text(&mut content, other.content.as_str());
        Text { content }
    }

    /// Whether the content is white space only, and not empty.
    pub fn is_whitespace(&self) -> (r: bool)
        ensures
            r == (self.content@.len() > 0 && all_space(self.content@)),
    {
        let v = chars_of(self.content.as_str());
        v.len() > 0 && all_space_exec(&v)
    }

    /// The content.
    pub fn text(&self) -> (r: String)
        ensures
            r@ == self.content@,
    {
        self.content.clone()
    }

    /// The content as it stands in XML: escaped.
    pub fn to_string_with_indent(&self, indent: &str) -> (r: String)
        ensures
            r@ == escaped_text(self.content@),
    {
        crate::codec::text_escape(self.content.as_str())
    }

    /// This text as a node.
    pub fn boxed(self) -> (r: Node)
        ensures
            r == Node::Text(self),
    {
        Node::Text(self)
    }
}

impl Comment {
    #[verifier::type_invariant]
    spec fn inv(&self) -> bool {
        !contains_seq(self.comment@, comment_end())
    }

    pub closed spec fn content(&self) -> Seq<char> {
        self.comment@
    }

    /// A comment with the given content; fails if it holds `-->`.
    pub fn new(comment: &str) -> (r: Result<Self, InvalidContent>)
        ensures
            r is Ok <==> !contains_seq(comment@, comment_end()),
            r is Ok ==> r->Ok_0.content() == comment@,
    {
        let v = chars_of(comment);
        let end = vec!['-', '-', '>'];
        proof {
            assert(end@ =~= comment_end());
        }
        if contains_exec(&v, &end) {
            Err(InvalidContent::new("Comments cannot contain '-->'"))
        } else {
            Ok(Comment { comment: owned(comment) })
        }
    }

    pub fn get_content(&self) -> (r: &str)
        ensures
            r@ == self.content(),
    {
        self.comment.as_str()
    }

    /// Replaces the content; fails, leaving it unchanged, if the new content
    /// holds `-->`.
    pub fn set_content(&mut self, content: &str) -> (r: Result<(), InvalidContent>)
        ensures
            r is Ok <==> !contains_seq(content@, comment_end()),
            r is Ok ==> final(self).content() == content@,
            r is Err ==> final(self).content() == old(self).content(),
    {
        let v = chars_of(content);
        let end = vec!['-', '-', '>'];
        proof {
            assert(end@ =~= comment_end());
        }
        if contains_exec(&v, &end) {
            Err(InvalidContent::new("Comments cannot contain '-->'"))
        } else {
            *self = Comment { comment: owned(content) };
            Ok(())
        }
    }

    /// The content.
    pub fn text(&self) -> (r: String)
        ensures
            r@ == self.content(),
    {
        self.comment.clone()
    }

    /// The comment as it stands in XML: `<!--` content `-->`.
    pub fn to_string_with_indent(&self, indent: &str) -> (r: String)
        ensures
            r@ == seq!['<', '!', '-', '-'] + self.content() + comment_end(),
    {
        let mut r = String::new();
        r.push('<'); r.push('!'); r.push('-'); r.push('-');
        push_text(&mut r, self.comment.as_str());
        r.push('-'); r.push('-'); r.push('>');
        proof {
            assert(r@ =~= seq!['<', '!', '-', '-'] + self.content() + comment_end());
        }
        r
    }

    /// This comment as a node.
    pub fn boxed(self) -> (r: Node)
        ensures
            r == Node::Comment(self),
    {
        Node::Comment(self)
    }
}

impl CData {
    #[verifier::type_invariant]
    spec fn inv(&self) -> bool {
        !contains_seq(self.cdata@, cdata_end())
    }

    pub closed spec fn content(&self) -> Seq<char> {
        self.cdata@
    }

    /// A CDATA section with the given content; fails if it holds `]]>`.
    pub fn new(cdata: &str) -> (r: Result<Self, InvalidContent>)
        ensures
            r is Ok <==> !contains_seq(cdata@, cdata_end()),
            r is Ok ==> r->Ok_0.content() == cdata@,
    {
        let v = chars_of(cdata);
        let end = vec![']', ']', '>'];
        proof {
            assert(end@ =~= cdata_end());
        }
        if contains_exec(&v, &end) {
            Err(InvalidContent::new("CDATA cannot contain ']]>' as content"))
        } else {
            Ok(CData { cdata: owned(cdata) })
        }
    }

    pub fn get_content(&self) -> (r: &str)
        ensures
            r@ == self.content(),
    {
        self.cdata.as_str()
    }

    /// Replaces the content; fails, leaving it unchanged, if the new content
    /// holds `]]>`.
    pub fn set_text(&mut self, content: &str) -> (r: Result<(), InvalidContent>)
        ensures
            r is Ok <==> !contains_seq(content@, cdata_end()),
            r is Ok ==> final(self).content() == content@,
            r is Err ==> final(self).content() == old(self).content(),
    {
        let v = chars_of(content);
        let end = vec![']', ']', '>'];
        proof {
            assert(end@ =~= cdata_end());
        }
        if contains_exec(&v, &end) {
            Err(InvalidContent::new("CDATA cannot contain ']]>'"))
        } else {
            *self = CData { cdata: owned(content) };
            Ok(())
        }
    }

    /// The content.
    pub fn text(&self) -> (r: String)
        ensures
            r@ == self.content(),
    {
        self.cdata.clone()
    }

    /// The section as it stands in XML: `<![CDATA[` content `]]>`.
    pub fn to_string_with_indent(&self, indent: &str) -> (r: String)
        ensures
            r@ == seq!['<', '!', '[', 'C', 'D', 'A', 'T', 'A', '['] + self.content() + cdata_end(),
    {
        let mut r = String::new();
        r.push('<'); r.push('!'); r.push('['); r.push('C'); r.push('D');
        r.push('A'); r.push('T'); r.push('A'); r.push('[');
        push_text(&mut r, self.cdata.as_str());
        r.push(']'); r.push(']'); r.push('>');
        proof {
            assert(r@ =~= seq!['<', '!', '[', 'C', 'D', 'A', 'T', 'A', '['] + self.content() + cdata_end());
        }
        r
    }

    /// This section as a node.
    pub fn boxed(self) -> (r: Node)
        ensures
            r == Node::CData(self),
    {
        Node::CData(self)
    }
}


/// Number of children of a node (zero for anything but an element).
pub open spec fn child_count(n: Node) -> int {
    match n {
        Node::Element(e) => e.children_v().len() as int,
        _ => 0,
    }
}

/// The plain text of the first `k` children of an element node, or the
/// content of any other node.
pub open spec fn text_upto(n: Node, k: int) -> Seq<char>
    decreases n, k,
{
    match n {
        Node::Element(e) => if 0 < k <= e.children_v().len() {
            let c = e.children_v()[k - 1];
            text_upto(n, k - 1) + (if c is Text || c is Element {
                text_upto(c, child_count(c))
            } else {
                Seq::empty()
            })
        } else {
            Seq::empty()
        },
        Node::Text(t) => t.content@,
        Node::Comment(c) => c.content(),
        Node::CData(c) => c.content(),
    }
}

/// The plain text of a node: for an element, the text of its text and
/// element children in order (comments and CDATA left out), recursively.
pub open spec fn node_text(n: Node) -> Seq<char> {
    text_upto(n, child_count(n))
}

/// Elements `x` and `y` agree on name, namespace, prefix, attributes and
/// number of children.
pub open spec fn same_head(x: Element, y: Element) -> bool {
    x.name_v() == y.name_v() && x.namespace_v() == y.namespace_v()
        && x.prefix_v() == y.prefix_v()
        && x.attributes_v() == y.attributes_v()
        && x.children_v().len() == y.children_v().len()
}

/// Structural equality, with only the first `k` children of an element
/// compared.
pub open spec fn same_upto(a: Node, b: Node, k: int) -> bool
    decreases a, k,
{
    match a {
        Node::Element(x) => match b {
            Node::Element(y) => if 0 < k <= x.children_v().len() {
                let c = x.children_v()[k - 1];
                same_upto(a, b, k - 1) && same_upto(c, y.children_v()[k - 1], child_count(c))
            } else {
                same_head(x, y)
            },
            _ => false,
        },
        Node::Text(x) => b is Text && x.content@ == b->Text_0.content@,
        Node::Comment(x) => b is Comment && x.content() == b->Comment_0.content(),
        Node::CData(x) => b is CData && x.content() == b->CData_0.content(),
    }
}

/// Structural equality: same kind; elements agree on name, namespace,
/// prefix, attributes and, pairwise and in order, children; other nodes on
/// content. The prefix bindings in scope are not compared.
pub open spec fn same_node(a: Node, b: Node) -> bool {
    same_upto(a, b, child_count(a))
}

pub open spec fn kind_of(n: Node) -> DomNodeType {
    match n {
        Node::Element(_) => DomNodeType::ElementNode,
        Node::Text(_) => DomNodeType::TextNode,
        Node::Comment(_) => DomNodeType::CommentNode,
        Node::CData(_) => DomNodeType::CDataNode,
    }
}

pub open spec fn derefs<T>(s: Seq<&T>) -> Seq<T> {
    s.map_values(|x: &T| *x)
}

/// The elements among `s`, in order.
pub open spec fn elements_of(s: Seq<Node>) -> Seq<Element>
    decreases s.len(),
{
    if s.len() == 0 {
        Seq::empty()
    } else {
        let r = elements_of(s.drop_last());
        match s.last() {
            Node::Element(e) => r.push(e),
            _ => r,
        }
    }
}

fn copy_pairs(v: &Vec<(String, String)>) -> (r: Vec<(String, String)>)
    ensures
        r@ == v@,
{
    let mut r: Vec<(String, String)> = Vec::new();
    let mut i: usize = 0;
    while i < v.len()
        invariant
            i <= v.len(),
            r@ == v@.take(i as int),
        decreases v.len() - i,
    {
        let p = (v[i].0.clone(), v[i].1.clone());
        r.push(p);
        proof {
            assert(r@ =~= v@.take(i + 1));
        }
        i = i + 1;
    }
    proof {
        assert(v@.take(v.len() as int) =~= v@);
    }
    r
}

impl Element {
    pub closed spec fn name_v(&self) -> Seq<char> {
        self.name@
    }

    pub closed spec fn children_v(&self) -> Seq<Node> {
        self.child_nodes@
    }

    pub closed spec fn attributes_v(&self) -> Seq<(Seq<char>, Seq<char>)> {
        pairs_view(self.attributes@)
    }

    pub closed spec fn namespace_v(&self) -> Option<Seq<char>> {
        opt_view(self.xmlns)
    }

    pub closed spec fn prefix_v(&self) -> Option<Seq<char>> {
        opt_view(self.xmlns_prefix)
    }

    /// Prefix bindings in scope; the first binding of a prefix counts.
    pub closed spec fn context_v(&self) -> Seq<(Seq<char>, Seq<char>)> {
        pairs_view(self.xmlns_context@)
    }

    /// The namespace that unprefixed children inherit.
    pub open spec fn default_namespace_v(&self) -> Option<Seq<char>> {
        if self.prefix_v() is None {
            self.namespace_v()
        } else {
            None
        }
    }

    /// The name as it stands in a tag: `prefix:name`, or the name alone.
    pub open spec fn tag_name_v(&self) -> Seq<char> {
        match self.prefix_v() {
            Some(p) => p + seq![':'] + self.name_v(),
            None => self.name_v(),
        }
    }

    /// The tag name of this element (`book` for `<book/>`).
    pub fn name(&self) -> (r: String)
        ensures
            r@ == self.name_v(),
    {
        self.name.clone()
    }

    /// The namespace of this element, if any. With no prefix, it is a
    /// default namespace, which unprefixed children inherit.
    pub fn namespace(&self) -> (r: Option<String>)
        ensures
            opt_view(r) == self.namespace_v(),
    {
        clone_opt(&self.xmlns)
    }

    /// The namespace that unprefixed children inherit: the namespace, when
    /// the element has no prefix.
    pub fn default_namespace(&self) -> (r: Option<String>)
        ensures
            opt_view(r) == self.default_namespace_v(),
    {
        match &self.xmlns_prefix {
            None => clone_opt(&self.xmlns),
            Some(_) => None,
        }
    }

    /// The name as it stands in serialized XML: `prefix:name`, or the name.
    pub fn tag_name(&self) -> (r: String)
        ensures
            r@ == self.tag_name_v(),
    {
        match &self.xmlns_prefix {
            None => self.name.clone(),
            Some(prefix) => {
                let mut r = prefix.clone();
                r.push(':');
                push_text(&mut r, self.name.as_str());
                r
            },
        }
    }

    /// The prefix of this element's namespace, if it has one.
    pub fn namespace_prefix(&self) -> (r: Option<String>)
        ensures
            opt_view(r) == self.prefix_v(),
    {
        clone_opt(&self.xmlns_prefix)
    }

    /// The child nodes, in order.
    pub fn children(&self) -> (r: &Vec<Node>)
        ensures
            r@ == self.children_v(),
    {
        &self.child_nodes
    }

    /// The child nodes, for editing in place.
    pub fn children_mut(&mut self) -> (r: &mut Vec<Node>)
        ensures
            r@ == old(self).children_v(),
            final(self).children_v() == final(r)@,
            final(self).name_v() == old(self).name_v(),
            final(self).attributes_v() == old(self).attributes_v(),
            final(self).namespace_v() == old(self).namespace_v(),
            final(self).prefix_v() == old(self).prefix_v(),
            final(self).context_v() == old(self).context_v(),
    {
        &mut self.child_nodes
    }

    /// The child elements, in order.
    pub fn child_elements(&self) -> (r: Vec<&Element>)
        ensures
            derefs(r@) == elements_of(self.children_v()),
    {
        let mut r: Vec<&Element> = Vec::new();
        let mut i: usize = 0;
        while i < self.child_nodes.len()
            invariant
                i <= self.child_nodes.len(),
                derefs(r@) == elements_of(self.child_nodes@.take(i as int)),
            decreases self.child_nodes.len() - i,
        {
            proof {
                assert(self.child_nodes@.take(i + 1).drop_last() =~= self.child_nodes@.take(i as int));
            }
            let ghost before = r@;
            match &self.child_nodes[i] {
                Node::Element(e) => {
                    r.push(e);
                    proof {
                        assert(derefs(r@) =~= derefs(before).push(*e));
                    }
                },
                _ => {},
            }
            i = i + 1;
        }
        proof {
            assert(self.child_nodes@.take(i as int) =~= self.child_nodes@);
        }
        r
    }

    /// The plain text of this element: the text of its text and element
    /// children in order, recursively; comments and CDATA are left out.
    pub fn text(&self) -> (r: String)
        ensures
            r@ == node_text(Node::Element(*self)),
        decreases self,
    {
        let ghost n = Node::Element(*self);
        let mut out = String::new();
        let mut i: usize = 0;
        while i < self.child_nodes.len()
            invariant
                n == Node::Element(*self),
                i <= self.child_nodes.len(),
                out@ == text_upto(n, i as int),
            decreases self.child_nodes.len() - i,
        {
            proof {
                assert(decreases_to!(self => self.child_nodes@[i as int]));
            }
            let ghost before = out@;
            let ghost c = self.child_nodes@[i as int];
            match &self.child_nodes[i] {
                Node::Element(e) => {
                    let t = e.text();
                    push_text(&mut out, t.as_str());
                },
                Node::Text(t) => {
                    push_text(&mut out, t.content.as_str());
                },
                _ => {},
            }
            proof {
                assert(text_upto(n, i + 1) == text_upto(n, i as int) + (if c is Text || c is Element {
                    text_upto(c, child_count(c))
                } else {
                    Seq::empty()
                }));
            }
            i = i + 1;
        }
        out
    }
}

impl Node {
    pub fn is_element(&self) -> (r: bool)
        ensures
            r == (*self is Element),
    {
        match self {
            Node::Element(_) => true,
            _ => false,
        }
    }

    pub fn is_text(&self) -> (r: bool)
        ensures
            r == (*self is Text),
    {
        match self {
            Node::Text(_) => true,
            _ => false,
        }
    }

    pub fn is_comment(&self) -> (r: bool)
        ensures
            r == (*self is Comment),
    {
        match self {
            Node::Comment(_) => true,
            _ => false,
        }
    }

    pub fn is_cdata(&self) -> (r: bool)
        ensures
            r == (*self is CData),
    {
        match self {
            Node::CData(_) => true,
            _ => false,
        }
    }

    /// The kind of this node.
    pub fn node_type(&self) -> (r: DomNodeType)
        ensures
            r == kind_of(*self),
    {
        match self {
            Node::Element(_) => DomNodeType::ElementNode,
            Node::Text(_) => DomNodeType::TextNode,
            Node::Comment(_) => DomNodeType::CommentNode,
            Node::CData(_) => DomNodeType::CDataNode,
        }
    }

    /// The plain text of this node: the content of a text, comment or CDATA
    /// node; for an element, the text of its text and element descendants.
    pub fn text(&self) -> (r: String)
        ensures
            r@ == node_text(*self),
    {
        match self {
            Node::Element(e) => e.text(),
            Node::Text(t) => t.content.clone(),
            Node::Comment(c) => c.comment.clone(),
            Node::CData(c) => c.cdata.clone(),
        }
    }

    pub fn as_element(&self) -> (r: Result<&Element, TypeCastError>)
        ensures
            r is Ok <==> *self is Element,
            r is Ok ==> *self == Node::Element(*r->Ok_0),
    {
        match self {
            Node::Element(e) => Ok(e),
            _ => Err(TypeCastError::new("Cannot cast this node as Element")),
        }
    }

    pub fn as_text(&self) -> (r: Result<&Text, TypeCastError>)
        ensures
            r is Ok <==> *self is Text,
            r is Ok ==> *self == Node::Text(*r->Ok_0),
    {
        match self {
            Node::Text(t) => Ok(t),
            _ => Err(TypeCastError::new("Cannot cast this node as Text")),
        }
    }

    pub fn as_comment(&self) -> (r: Result<&Comment, TypeCastError>)
        ensures
            r is Ok <==> *self is Comment,
            r is Ok ==> *self == Node::Comment(*r->Ok_0),
    {
        match self {
            Node::Comment(c) => Ok(c),
            _ => Err(TypeCastError::new("Cannot cast this node as Comment")),
        }
    }

    pub fn as_cdata(&self) -> (r: Result<&CData, TypeCastError>)
        ensures
            r is Ok <==> *self is CData,
            r is Ok ==> *self == Node::CData(*r->Ok_0),
    {
        match self {
            Node::CData(c) => Ok(c),
            _ => Err(TypeCastError::new("Cannot cast this node as CData")),
        }
    }

    pub fn as_element_mut(&mut self) -> (r: Result<&mut Element, TypeCastError>)
        ensures
            r is Ok <==> *old(self) is Element,
            r is Ok ==> *old(self) == Node::Element(*r->Ok_0)
                && *final(self) == Node::Element(*final(r->Ok_0)),
            r is Err ==> *final(self) == *old(self),
    {
        match self {
            Node::Element(e) => Ok(e),
            _ => Err(TypeCastError::new("Cannot cast this node as Element")),
        }
    }

    pub fn as_text_mut(&mut self) -> (r: Result<&mut Text, TypeCastError>)
        ensures
            r is Ok <==> *old(self) is Text,
            r is Ok ==> *old(self) == Node::Text(*r->Ok_0)
                && *final(self) == Node::Text(*final(r->Ok_0)),
            r is Err ==> *final(self) == *old(self),
    {
        match self {
            Node::Text(t) => Ok(t),
            _ => Err(TypeCastError::new("Cannot cast this node as Text")),
        }
    }

    pub fn as_comment_mut(&mut self) -> (r: Result<&mut Comment, TypeCastError>)
        ensures
            r is Ok <==> *old(self) is Comment,
            r is Ok ==> *old(self) == Node::Comment(*r->Ok_0)
                && *final(self) == Node::Comment(*final(r->Ok_0)),
            r is Err ==> *final(self) == *old(self),
    {
        match self {
            Node::Comment(c) => Ok(c),
            _ => Err(TypeCastError::new("Cannot cast this node as Comment")),
        }
    }

    pub fn as_cdata_mut(&mut self) -> (r: Result<&mut CData, TypeCastError>)
        ensures
            r is Ok <==> *old(self) is CData,
            r is Ok ==> *old(self) == Node::CData(*r->Ok_0)
                && *final(self) == Node::CData(*final(r->Ok_0)),
            r is Err ==> *final(self) == *old(self),
    {
        match self {
            Node::CData(c) => Ok(c),
            _ => Err(TypeCastError::new("Cannot cast this node as CData")),
        }
    }
}

/// Whether two nodes are structurally equal (see `same_node`).
pub fn node_eq(n1: &Node, n2: &Node) -> (r: bool)
    ensures
        r == same_node(*n1, *n2),
    decreases *n1, 1nat,
{
    match n1 {
        Node::Element(x) => match n2 {
            Node::Element(y) => x.same_as(y),
            _ => false,
        },
        Node::Text(x) => match n2 {
            Node::Text(y) => x.content.eq(&y.content),
            _ => false,
        },
        Node::Comment(x) => match n2 {
            Node::Comment(y) => x.comment.eq(&y.comment),
            _ => false,
        },
        Node::CData(x) => match n2 {
            Node::CData(y) => x.cdata.eq(&y.cdata),
            _ => false,
        },
    }
}

impl Element {
    /// Structural equality of two elements (see `same_node`).
    pub fn same_as(&self, other: &Element) -> (r: bool)
        ensures
            r == same_node(Node::Element(*self), Node::Element(*other)),
        decreases *self, 0nat,
    {
        let ghost a = Node::Element(*self);
        let ghost b = Node::Element(*other);
        if !(self.name.eq(&other.name) && opt_eq(&self.xmlns, &other.xmlns)
            && opt_eq(&self.xmlns_prefix, &other.xmlns_prefix)
            && pairs_eq(&self.attributes, &other.attributes)
            && self.child_nodes.len() == other.child_nodes.len()) {
            proof {
                lemma_same_upto_head(a, b, self.child_nodes.len() as int);
            }
            return false;
        }
        let mut i: usize = 0;
        while i < self.child_nodes.len()
            invariant
                a == Node::Element(*self),
                b == Node::Element(*other),
                self.child_nodes.len() == other.child_nodes.len(),
                i <= self.child_nodes.len(),
                same_upto(a, b, i as int),
            decreases self.child_nodes.len() - i,
        {
            proof {
                assert(decreases_to!(*self => self.child_nodes@[i as int]));
            }
            if !node_eq(&self.child_nodes[i], &other.child_nodes[i]) {
                proof {
                    lemma_same_upto_prefix(a, b, i + 1, self.child_nodes.len() as int);
                }
                return false;
            }
            i = i + 1;
        }
        true
    }
}

proof fn lemma_same_upto_children(a: Node, b: Node, k: int)
    requires
        a is Element,
        b is Element,
        same_head(a->Element_0, b->Element_0),
        0 <= k <= child_count(a),
        forall|j: int| 0 <= j < k ==> #[trigger] same_node(
            a->Element_0.child_nodes@[j], b->Element_0.child_nodes@[j]),
    ensures
        same_upto(a, b, k),
    decreases k,
{
    if k > 0 {
        lemma_same_upto_children(a, b, k - 1);
        assert(same_node(a->Element_0.child_nodes@[k - 1], b->Element_0.child_nodes@[k - 1]));
    }
}

proof fn lemma_same_upto_head(a: Node, b: Node, k: int)
    requires
        a is Element,
        b is Element,
        0 <= k <= child_count(a),
    ensures
        same_upto(a, b, k) ==> same_head(a->Element_0, b->Element_0),
    decreases k,
{
    if k > 0 {
        lemma_same_upto_head(a, b, k - 1);
    }
}

proof fn lemma_same_upto_prefix(a: Node, b: Node, j: int, k: int)
    requires
        a is Element,
        b is Element,
        0 <= j <= k <= child_count(a),
    ensures
        same_upto(a, b, k) ==> same_upto(a, b, j),
    decreases k,
{
    if k > j {
        lemma_same_upto_prefix(a, b, j, k - 1);
    }
}

fn pairs_eq(a: &Vec<(String, String)>, b: &Vec<(String, String)>) -> (r: bool)
    ensures
        r == (pairs_view(a@) == pairs_view(b@)),
{
    if a.len() != b.len() {
        proof {
            assert(pairs_view(a@).len() != pairs_view(b@).len());
        }
        return false;
    }
    let mut i: usize = 0;
    while i < a.len()
        invariant
            a.len() == b.len(),
            i <= a.len(),
            forall|j: int| 0 <= j < i ==> pair_view(#[trigger] a@[j]) == pair_view(b@[j]),
        decreases a.len() - i,
    {
        if !(a[i].0.eq(&b[i].0) && a[i].1.eq(&b[i].1)) {
            proof {
                assert(pairs_view(a@)[i as int] != pairs_view(b@)[i as int]);
            }
            return false;
        }
        i = i + 1;
    }
    proof {
        assert(pairs_view(a@) =~= pairs_view(b@));
    }
    true
}


/// Adjacent text pieces merged into one, in order.
pub open spec fn merge_texts(s: Seq<Piece>) -> Seq<Piece>
    decreases s.len(),
{
    if s.len() == 0 {
        s
    } else {
        let r = merge_texts(s.drop_last());
        match s.last() {
            Piece::Txt(t) => if r.len() > 0 && r.last() is Txt {
                r.drop_last().push(Piece::Txt(r.last()->Txt_0 + t))
            } else {
                r.push(Piece::Txt(t))
            },
            Piece::Other(n) => r.push(Piece::Other(n)),
        }
    }
}

/// A text piece that is white space only (and not empty).
pub open spec fn is_blank(p: Piece) -> bool {
    p is Txt && p->Txt_0.len() > 0 && all_space(p->Txt_0)
}

/// `s` without its blank text pieces.
pub open spec fn drop_blanks(s: Seq<Piece>) -> Seq<Piece>
    decreases s.len(),
{
    if s.len() == 0 {
        s
    } else if is_blank(s.last()) {
        drop_blanks(s.drop_last())
    } else {
        drop_blanks(s.drop_last()).push(s.last())
    }
}

/// A child list with adjacent texts merged, then white-space-only texts
/// removed.
pub open spec fn normalized(s: Seq<Piece>) -> Seq<Piece> {
    drop_blanks(merge_texts(s))
}

/// The namespace an element ends up with when it is attached: its own, or
/// else (unprefixed) the parent's default one; a prefixed element with no
/// namespace of its own takes the one its prefix is bound to.
pub open spec fn resolved_namespace(
    own: Option<Seq<char>>,
    prefix: Option<Seq<char>>,
    parent_default: Option<Seq<char>>,
    context: Seq<(Seq<char>, Seq<char>)>,
) -> Option<Seq<char>> {
    let ns = if prefix is None && own is None {
        parent_default
    } else {
        own
    };
    if ns is None && prefix is Some {
        lookup(context, prefix->0)
    } else {
        ns
    }
}

/// `a` and `b` agree on everything but their children.
pub open spec fn same_but_children(a: Element, b: Element) -> bool {
    a.name_v() == b.name_v() && a.attributes_v() == b.attributes_v()
        && a.namespace_v() == b.namespace_v() && a.prefix_v() == b.prefix_v()
        && a.context_v() == b.context_v()
}

/// `m` is node `n` as it is after being attached to `parent`: an element
/// inherits the parent's bindings and has its namespace resolved; other
/// nodes stay as they are.
pub open spec fn attached(m: Node, n: Node, parent: Element) -> bool {
    match n {
        Node::Element(e) => m is Element && {
            let f = m->Element_0;
            &&& f.name_v() == e.name_v()
            &&& f.children_v() == e.children_v()
            &&& f.attributes_v() == e.attributes_v()
            &&& f.prefix_v() == e.prefix_v()
            &&& f.context_v() == e.context_v() + parent.context_v()
            &&& f.namespace_v() == resolved_namespace(
                e.namespace_v(),
                e.prefix_v(),
                parent.default_namespace_v(),
                f.context_v(),
            )
        },
        _ => m == n,
    }
}

/// The value that the first pair with key `key` holds.
pub(crate) fn lookup_exec<'a>(v: &'a Vec<(String, String)>, key: &str) -> (r: Option<&'a String>)
    ensures
        match r {
            Some(x) => lookup(pairs_view(v@), key@) == Some(x@),
            None => lookup(pairs_view(v@), key@) is None,
        },
{
    let mut i: usize = 0;
    proof {
        assert(pairs_view(v@).skip(0) =~= pairs_view(v@));
    }
    while i < v.len()
        invariant
            i <= v.len(),
            lookup(pairs_view(v@), key@) == lookup(pairs_view(v@).skip(i as int), key@),
        decreases v.len() - i,
    {
        proof {
            assert(pairs_view(v@).skip(i as int).skip(1) =~= pairs_view(v@).skip(i + 1));
        }
        if str_eq(&v[i].0, key) {
            return Some(&v[i].1);
        }
        i = i + 1;
    }
    None
}

fn node_clone(n: &Node) -> (r: Node)
    ensures
        same_node(r, *n),
    decreases *n, 1nat,
{
    match n {
        Node::Element(e) => Node::Element(e.deep_clone()),
        Node::Text(t) => Node::Text(Text { content: t.content.clone() }),
        Node::Comment(c) => Node::Comment(c.copy()),
        Node::CData(c) => Node::CData(c.copy()),
    }
}

/// A copy of the node, element subtrees included.
pub fn clone_node(node: &Node) -> (r: Node)
    ensures
        same_node(r, *node),
{
    node_clone(node)
}

impl Comment {
    fn copy(&self) -> (r: Comment)
        ensures
            r == *self,
    {
        proof {
            use_type_invariant(self);
        }
        Comment { comment: self.comment.clone() }
    }
}

impl CData {
    fn copy(&self) -> (r: CData)
        ensures
            r == *self,
    {
        proof {
            use_type_invariant(self);
        }
        CData { cdata: self.cdata.clone() }
    }
}

impl Element {
    /// A copy of this element and its whole subtree.
    pub fn deep_clone(&self) -> (r: Element)
        ensures
            same_node(Node::Element(r), Node::Element(*self)),
            r.context_v() == self.context_v(),
        decreases *self, 0nat,
    {
        let mut kids: Vec<Node> = Vec::new();
        let mut i: usize = 0;
        while i < self.child_nodes.len()
            invariant
                i <= self.child_nodes.len(),
                kids@.len() == i,
                forall|j: int| 0 <= j < i ==> #[trigger] same_node(kids@[j], self.child_nodes@[j]),
            decreases self.child_nodes.len() - i,
        {
            proof {
                assert(decreases_to!(*self => self.child_nodes@[i as int]));
            }
            let c = node_clone(&self.child_nodes[i]);
            kids.push(c);
            i = i + 1;
        }
        let attributes = copy_pairs(&self.attributes);
        let xmlns_context = copy_pairs(&self.xmlns_context);
        let r = Element {
            name: self.name.clone(),
            child_nodes: kids,
            attributes,
            xmlns: clone_opt(&self.xmlns),
            xmlns_prefix: clone_opt(&self.xmlns_prefix),
            xmlns_context,
        };
        proof {
            lemma_same_upto_children(Node::Element(r), Node::Element(*self), self.child_nodes.len() as int);
        }
        r
    }

    /// Merges adjacent text children, then removes text children that are
    /// white space only.
    fn cleanup_text_nodes(&mut self)
        ensures
            pieces(final(self).children_v()) == normalized(pieces(old(self).children_v())),
            same_but_children(*final(self), *old(self)),
    {
        let mut nodes: Vec<Node> = Vec::new();
        std::mem::swap(&mut nodes, &mut self.child_nodes);
        let ghost all = nodes@;
        let mut merged: Vec<Node> = Vec::new();
        for n in it: nodes.into_iter()
            invariant
                it.seq() == all,
                pieces(merged@) == merge_texts(pieces(all.take(it.index() as int))),
        {
            let ghost before = merged@;
            proof {
                assert(pieces(all.take(it.index() + 1)).drop_last() =~= pieces(all.take(it.index() as int)));
                assert(pieces(all.take(it.index() + 1)).last() == piece(n));
            }
            match n {
                Node::Text(t) => {
                    match merged.pop() {
                        Some(Node::Text(last)) => {
                            let joined = last.concat(&t);
                            merged.push(Node::Text(joined));
                            proof {
                                assert(pieces(merged@) =~= pieces(before).drop_last().push(
                                    Piece::Txt(pieces(before).last()->Txt_0 + t.content@)));
                            }
                        },
                        Some(other) => {
                            merged.push(other);
                            merged.push(Node::Text(t));
                            proof {
                                assert(merged@ =~= before.push(Node::Text(t)));
                                assert(pieces(merged@) =~= pieces(before).push(Piece::Txt(t.content@)));
                            }
                        },
                        None => {
                            merged.push(Node::Text(t));
                            proof {
                                assert(pieces(merged@) =~= pieces(before).push(Piece::Txt(t.content@)));
                            }
                        },
                    }
                },
                other => {
                    merged.push(other);
                    proof {
                        assert(pieces(merged@) =~= pieces(before).push(piece(other)));
                    }
                },
            }
        }
        proof {
            assert(all.take(all.len() as int) =~= all);
        }
        let ghost mall = merged@;
        let mut kept: Vec<Node> = Vec::new();
        for n in it: merged.into_iter()
            invariant
                it.seq() == mall,
                pieces(kept@) == drop_blanks(pieces(mall.take(it.index() as int))),
        {
            let ghost before = kept@;
            proof {
                assert(pieces(mall.take(it.index() + 1)).drop_last() =~= pieces(mall.take(it.index() as int)));
                assert(pieces(mall.take(it.index() + 1)).last() == piece(n));
            }
            let blank = match &n {
                Node::Text(t) => t.is_whitespace(),
                _ => false,
            };
            if !blank {
                kept.push(n);
                proof {
                    assert(pieces(kept@) =~= pieces(before).push(piece(n)));
                }
            }
        }
        proof {
            assert(mall.take(mall.len() as int) =~= mall);
        }
        self.child_nodes = kept;
    }

    /// Resolves this element's namespace against what it inherits: the
    /// parent's default namespace and prefix bindings.
    pub(crate) fn set_namespace_context(
        &mut self,
        parent_default_namespace: Option<String>,
        parent_prefixes: Vec<(String, String)>,
    )
        ensures
            final(self).name_v() == old(self).name_v(),
            final(self).children_v() == old(self).children_v(),
            final(self).attributes_v() == old(self).attributes_v(),
            final(self).prefix_v() == old(self).prefix_v(),
            final(self).context_v() == old(self).context_v() + pairs_view(parent_prefixes@),
            final(self).namespace_v() == resolved_namespace(
                old(self).namespace_v(),
                old(self).prefix_v(),
                opt_view(parent_default_namespace),
                final(self).context_v(),
            ),
    {
        if self.xmlns_prefix.is_none() && self.xmlns.is_none() {
            self.xmlns = parent_default_namespace;
        }
        let mut i: usize = 0;
        let ghost start = self.xmlns_context@;
        while i < parent_prefixes.len()
            invariant
                i <= parent_prefixes.len(),
                self.xmlns_context@ == start + parent_prefixes@.take(i as int),
                self.name == old(self).name,
                self.child_nodes == old(self).child_nodes,
                self.attributes == old(self).attributes,
                self.xmlns_prefix == old(self).xmlns_prefix,
                self.xmlns == (if old(self).xmlns_prefix is None && old(self).xmlns is None {
                    parent_default_namespace
                } else {
                    old(self).xmlns
                }),
            decreases parent_prefixes.len() - i,
        {
            let p = (parent_prefixes[i].0.clone(), parent_prefixes[i].1.clone());
            self.xmlns_context.push(p);
            proof {
                assert(self.xmlns_context@ =~= start + parent_prefixes@.take(i + 1));
            }
            i = i + 1;
        }
        proof {
            assert(parent_prefixes@.take(i as int) =~= parent_prefixes@);
            assert(pairs_view(start + parent_prefixes@) =~= pairs_view(start) + pairs_view(parent_prefixes@));
        }
        if self.xmlns.is_none() {
            let found = match &self.xmlns_prefix {
                None => None,
                Some(prefix) => match lookup_exec(&self.xmlns_context, prefix.as_str()) {
                    Some(ns) => Some(ns.clone()),
                    None => None,
                },
            };
            self.xmlns = found;
        }
    }

    /// `node`, attached under this element: an element inherits this
    /// element's default namespace and prefix bindings.
    fn attach(&self, node: Node) -> (r: Node)
        ensures
            attached(r, node, *self),
    {
        match node {
            Node::Element(e) => {
                let mut e = e;
                e.set_namespace_context(self.default_namespace(), copy_pairs(&self.xmlns_context));
                proof {
                    assert(pairs_view(self.xmlns_context@) == self.context_v());
                }
                Node::Element(e)
            },
            other => other,
        }
    }

    /// Removes all child nodes.
    pub fn clear_children(&mut self)
        ensures
            final(self).children_v().len() == 0,
            same_but_children(*final(self), *old(self)),
    {
        self.child_nodes.clear();
    }

    /// Appends `node` to the children. An element inherits this element's
    /// namespace context; then adjacent texts are merged and
    /// white-space-only texts dropped.
    pub fn append(&mut self, node: Node)
        ensures
            exists|m: Node| #[trigger] attached(m, node, *old(self))
                && pieces(final(self).children_v()) == normalized(pieces(old(self).children_v().push(m))),
            same_but_children(*final(self), *old(self)),
    {
        let m = self.attach(node);
        self.child_nodes.push(m);
        self.cleanup_text_nodes();
    }

    /// Appends every node of `children`, in order, as `append` does, and
    /// normalizes the texts once at the end.
    pub fn append_all(&mut self, children: Vec<Node>)
        ensures
            exists|ms: Seq<Node>| #![trigger ms.len()] ms.len() == children@.len()
                && (forall|i: int| 0 <= i < ms.len() ==> attached(#[trigger] ms[i], children@[i], *old(self)))
                && pieces(final(self).children_v()) == normalized(pieces(old(self).children_v() + ms)),
            same_but_children(*final(self), *old(self)),
    {
        let ghost start = self.child_nodes@;
        let ghost all = children@;
        for n in it: children.into_iter()
            invariant
                it.seq() == all,
                self.child_nodes@.len() == start.len() + it.index(),
                self.child_nodes@.take(start.len() as int) == start,
                forall|i: int| 0 <= i < it.index() ==> attached(
                    #[trigger] self.child_nodes@[start.len() + i], all[i], *old(self)),
                same_but_children(*self, *old(self)),
                pairs_view(self.xmlns_context@) == old(self).context_v(),
                self.default_namespace_v() == old(self).default_namespace_v(),
        {
            let m = self.attach(n);
            self.child_nodes.push(m);
        }
        let ghost ms = self.child_nodes@.skip(start.len() as int);
        proof {
            assert(self.child_nodes@ =~= start + ms);
            assert forall|i: int| 0 <= i < ms.len() implies attached(#[trigger] ms[i], all[i], *old(self)) by {
                assert(ms[i] == self.child_nodes@[start.len() + i]);
            }
        }
        self.cleanup_text_nodes();
    }

    /// Inserts `node` before the child at `index` (at the end when `index`
    /// is the number of children), as `append` does; fails if `index` is
    /// past the end.
    pub fn insert(&mut self, index: usize, node: Node) -> (r: Result<(), IndexOutOfBounds>)
        ensures
            r is Err <==> index > old(self).children_v().len(),
            r is Err ==> *final(self) == *old(self),
            r is Err ==> r->Err_0.index as int == (if index <= isize::MAX { index as int } else { isize::MAX as int })
                && r->Err_0.bounds is Some && r->Err_0.bounds->0 == (0isize,
                    if old(self).children_v().len() <= isize::MAX { old(self).children_v().len() as isize } else { isize::MAX }),
            r is Ok ==> exists|m: Node| #[trigger] attached(m, node, *old(self))
                && pieces(final(self).children_v()) == normalized(pieces(old(self).children_v().insert(index as int, m))),
            same_but_children(*final(self), *old(self)),
    {
        if index > self.child_nodes.len() {
            return Err(IndexOutOfBounds::new(clamp_isize(index), Some((0, clamp_isize(self.child_nodes.len())))));
        }
        let m = self.attach(node);
        self.child_nodes.insert(index, m);
        self.cleanup_text_nodes();
        Ok(())
    }

    /// Replaces all children with one text node holding `text` (none, if
    /// `text` is white space only).
    pub fn set_text(&mut self, text: &str)
        ensures
            pieces(final(self).children_v()) == normalized(seq![Piece::Txt(text@)]),
            same_but_children(*final(self), *old(self)),
    {
        self.clear_children();
        let ghost before = *self;
        let t = Text::new(text);
        let ghost tn = Node::Text(t);
        self.append(Node::Text(t));
        proof {
            let m = choose|m: Node| #[trigger] attached(m, tn, before)
                && pieces(self.children_v()) == normalized(pieces(before.children_v().push(m)));
            assert(m == tn);
            assert(pieces(before.children_v().push(m)) =~= seq![Piece::Txt(text@)]);
        }
    }
}


/// A valid element or attribute name: an XML name, that is a name-start
/// character followed by name characters.
pub open spec fn valid_name(s: Seq<char>) -> bool {
    s.len() > 0 && is_name_start(s[0]) && forall|i: int| 1 <= i < s.len() ==> is_name_char(#[trigger] s[i])
}

pub fn is_valid_name(name: &str) -> (r: bool)
    ensures
        r == valid_name(name@),
{
    let v = chars_of(name);
    if v.len() == 0 || !name_start_exec(v[0]) {
        return false;
    }
    let mut i: usize = 1;
    while i < v.len()
        invariant
            1 <= i <= v.len(),
            v@ == name@,
            forall|j: int| 1 <= j < i ==> is_name_char(#[trigger] v@[j]),
        decreases v.len() - i,
    {
        if !name_char_exec(v[i]) {
            return false;
        }
        i = i + 1;
    }
    true
}

/// Lexicographic order of code points (the order of `str`'s `cmp`).
pub open spec fn lex_less(a: Seq<char>, b: Seq<char>) -> bool
    decreases a.len(),
{
    if a.len() == 0 {
        b.len() > 0
    } else if b.len() == 0 {
        false
    } else if a[0] != b[0] {
        a[0] < b[0]
    } else {
        lex_less(a.skip(1), b.skip(1))
    }
}

pub open spec fn xmlns_word() -> Seq<char> {
    seq!['x', 'm', 'l', 'n', 's']
}

/// An attribute that declares a namespace: its name begins with `xmlns`.
pub open spec fn is_xmlns_key(k: Seq<char>) -> bool {
    starts_with(k, xmlns_word())
}

/// The order of attributes in serialized XML: namespace declarations
/// first, then by name.
pub open spec fn attr_before(a: Seq<char>, b: Seq<char>) -> bool {
    (is_xmlns_key(a) && !is_xmlns_key(b)) || (is_xmlns_key(a) == is_xmlns_key(b) && lex_less(a, b))
}

/// The attribute list `s` with `k` set to `v`: the value of an existing
/// `k` is replaced, else the pair goes before the first attribute that does
/// not come before `k`.
pub open spec fn insert_attr(s: Seq<(Seq<char>, Seq<char>)>, k: Seq<char>, v: Seq<char>) -> Seq<(Seq<char>, Seq<char>)>
    decreases s.len(),
{
    if s.len() == 0 {
        seq![(k, v)]
    } else if s[0].0 == k {
        seq![(k, v)] + s.skip(1)
    } else if attr_before(s[0].0, k) {
        seq![s[0]] + insert_attr(s.skip(1), k, v)
    } else {
        seq![(k, v)] + s
    }
}

/// The attributes `s` set one after the other into `acc`.
pub open spec fn insert_attrs(acc: Seq<(Seq<char>, Seq<char>)>, s: Seq<(Seq<char>, Seq<char>)>) -> Seq<(Seq<char>, Seq<char>)>
    decreases s.len(),
{
    if s.len() == 0 {
        acc
    } else {
        insert_attr(insert_attrs(acc, s.drop_last()), s.last().0, s.last().1)
    }
}

/// `s` without the first pair with key `k`.
pub open spec fn remove_key(s: Seq<(Seq<char>, Seq<char>)>, k: Seq<char>) -> Seq<(Seq<char>, Seq<char>)>
    decreases s.len(),
{
    if s.len() == 0 {
        s
    } else if s[0].0 == k {
        s.skip(1)
    } else {
        seq![s[0]] + remove_key(s.skip(1), k)
    }
}

pub open spec fn xmlns_colon() -> Seq<char> {
    seq!['x', 'm', 'l', 'n', 's', ':']
}

/// The prefix bindings that the attributes `s` declare (`xmlns:p="uri"`
/// binds `p` to `uri`), in order.
pub open spec fn prefix_bindings(s: Seq<(Seq<char>, Seq<char>)>) -> Seq<(Seq<char>, Seq<char>)>
    decreases s.len(),
{
    if s.len() == 0 {
        s
    } else if starts_with(s.last().0, xmlns_colon()) {
        prefix_bindings(s.drop_last()).push((s.last().0.skip(6), s.last().1))
    } else {
        prefix_bindings(s.drop_last())
    }
}

proof fn lemma_insert_attr_at(s: Seq<(Seq<char>, Seq<char>)>, k: Seq<char>, v: Seq<char>, i: int)
    requires
        0 <= i <= s.len(),
        forall|j: int| 0 <= j < i ==> (#[trigger] s[j]).0 != k && attr_before(s[j].0, k),
    ensures
        insert_attr(s, k, v) == s.take(i) + insert_attr(s.skip(i), k, v),
    decreases i,
{
    if i == 0 {
        assert(s.skip(0) =~= s);
        assert(s.take(0) + insert_attr(s, k, v) =~= insert_attr(s, k, v));
    } else {
        let t = s.skip(1);
        assert forall|j: int| 0 <= j < i - 1 implies (#[trigger] t[j]).0 != k && attr_before(t[j].0, k) by {
            assert(t[j] == s[j + 1]);
        }
        lemma_insert_attr_at(t, k, v, i - 1);
        assert(t.skip(i - 1) =~= s.skip(i));
        assert(seq![s[0]] + t.take(i - 1) =~= s.take(i));
        assert(s[0].0 != k && attr_before(s[0].0, k));
        assert(insert_attr(s, k, v) == seq![s[0]] + insert_attr(t, k, v));
        assert(seq![s[0]] + (t.take(i - 1) + insert_attr(t.skip(i - 1), k, v))
            =~= s.take(i) + insert_attr(s.skip(i), k, v));
    }
}

proof fn lemma_remove_key_at(s: Seq<(Seq<char>, Seq<char>)>, k: Seq<char>, i: int)
    requires
        0 <= i <= s.len(),
        forall|j: int| 0 <= j < i ==> (#[trigger] s[j]).0 != k,
    ensures
        remove_key(s, k) == s.take(i) + remove_key(s.skip(i), k),
        lookup(s, k) == lookup(s.skip(i), k),
    decreases i,
{
    if i == 0 {
        assert(s.skip(0) =~= s);
        assert(s.take(0) + remove_key(s, k) =~= remove_key(s, k));
    } else {
        let t = s.skip(1);
        assert forall|j: int| 0 <= j < i - 1 implies (#[trigger] t[j]).0 != k by {
            assert(t[j] == s[j + 1]);
        }
        lemma_remove_key_at(t, k, i - 1);
        assert(t.skip(i - 1) =~= s.skip(i));
        assert(seq![s[0]] + t.take(i - 1) =~= s.take(i));
        assert(s[0].0 != k);
        assert(seq![s[0]] + (t.take(i - 1) + remove_key(t.skip(i - 1), k))
            =~= s.take(i) + remove_key(s.skip(i), k));
    }
}

fn lex_less_exec(a: &Vec<char>, b: &Vec<char>) -> (r: bool)
    ensures
        r == lex_less(a@, b@),
{
    let mut i: usize = 0;
    proof {
        assert(a@.skip(0) =~= a@);
        assert(b@.skip(0) =~= b@);
    }
    while i < a.len() && i < b.len()
        invariant
            i <= a.len(),
            i <= b.len(),
            lex_less(a@, b@) == lex_less(a@.skip(i as int), b@.skip(i as int)),
        decreases a.len() - i,
    {
        if a[i] != b[i] {
            return a[i] < b[i];
        }
        proof {
            assert(a@.skip(i as int).skip(1) =~= a@.skip(i + 1));
            assert(b@.skip(i as int).skip(1) =~= b@.skip(i + 1));
        }
        i = i + 1;
    }
    i == a.len() && i < b.len()
}

fn attr_before_exec(a: &String, b: &Vec<char>) -> (r: bool)
    ensures
        r == attr_before(a@, b@),
{
    let av = chars_of(a.as_str());
    let word = vec!['x', 'm', 'l', 'n', 's'];
    proof {
        assert(word@ =~= xmlns_word());
    }
    let ax = crate::chars::occurs_at_exec(&av, 0, &word);
    let bx = crate::chars::occurs_at_exec(b, 0, &word);
    (ax && !bx) || (ax == bx && lex_less_exec(&av, b))
}

impl Element {
    /// Attributes as stored: in serialization order.
    pub fn attributes(&self) -> (r: &Vec<(String, String)>)
        ensures
            pairs_view(r@) == self.attributes_v(),
    {
        &self.attributes
    }

    /// The value of the attribute `attr_name`, if present.
    pub fn get_attr(&self, attr_name: &str) -> (r: Option<&String>)
        ensures
            match r {
                Some(x) => lookup(self.attributes_v(), attr_name@) == Some(x@),
                None => lookup(self.attributes_v(), attr_name@) is None,
            },
    {
        lookup_exec(&self.attributes, attr_name)
    }

    fn put_attr(&mut self, k: String, v: String)
        ensures
            final(self).attributes_v() == insert_attr(old(self).attributes_v(), k@, v@),
            final(self).name_v() == old(self).name_v(),
            final(self).children_v() == old(self).children_v(),
            final(self).namespace_v() == old(self).namespace_v(),
            final(self).prefix_v() == old(self).prefix_v(),
            final(self).context_v() == old(self).context_v(),
    {
        let kv = chars_of(k.as_str());
        let ghost s = pairs_view(self.attributes@);
        let mut i: usize = 0;
        while i < self.attributes.len()
            invariant
                i <= self.attributes.len(),
                s == pairs_view(self.attributes@),
                kv@ == k@,
                forall|j: int| 0 <= j < i ==> (#[trigger] s[j]).0 != k@ && attr_before(s[j].0, k@),
            ensures
                i < self.attributes.len() ==> (s[i as int].0 == k@ || !attr_before(s[i as int].0, k@)),
            decreases self.attributes.len() - i,
        {
            if self.attributes[i].0 == k || !attr_before_exec(&self.attributes[i].0, &kv) {
                break;
            }
            i = i + 1;
        }
        proof {
            lemma_insert_attr_at(s, k@, v@, i as int);
        }
        if i < self.attributes.len() && self.attributes[i].0 == k {
            self.attributes.remove(i);
            self.attributes.insert(i, (k, v));
            proof {
                assert(insert_attr(s.skip(i as int), k@, v@) == seq![(k@, v@)] + s.skip(i as int).skip(1));
                assert(pairs_view(self.attributes@) =~= s.take(i as int) + insert_attr(s.skip(i as int), k@, v@));
            }
        } else {
            proof {
                if i < self.attributes.len() {
                    assert(s[i as int].0 != k@);
                    assert(insert_attr(s.skip(i as int), k@, v@) == seq![(k@, v@)] + s.skip(i as int));
                } else {
                    assert(s.skip(i as int).len() == 0);
                }
            }
            self.attributes.insert(i, (k, v));
            proof {
                assert(pairs_view(self.attributes@) =~= s.take(i as int) + insert_attr(s.skip(i as int), k@, v@));
            }
        }
    }

    /// Sets the attribute `attr_name` to `value`; fails, changing nothing,
    /// if the name is not valid.
    pub fn set_attr(&mut self, attr_name: &str, value: &str) -> (r: Result<(), InvalidAttributeName>)
        ensures
            r is Ok <==> valid_name(attr_name@),
            r is Ok ==> final(self).attributes_v() == insert_attr(old(self).attributes_v(), attr_name@, value@),
            r is Err ==> final(self).attributes_v() == old(self).attributes_v(),
            final(self).name_v() == old(self).name_v(),
            final(self).children_v() == old(self).children_v(),
            final(self).namespace_v() == old(self).namespace_v(),
            final(self).prefix_v() == old(self).prefix_v(),
            final(self).context_v() == old(self).context_v(),
    {
        if !is_valid_name(attr_name) {
            return Err(InvalidAttributeName::new("not a valid attribute name"));
        }
        self.put_attr(owned(attr_name), owned(value));
        Ok(())
    }

    /// Removes the attribute `attr_name`, returning its value if it was set.
    pub fn remove_attr(&mut self, attr_name: &str) -> (r: Option<String>)
        ensures
            opt_view(r) == lookup(old(self).attributes_v(), attr_name@),
            final(self).attributes_v() == remove_key(old(self).attributes_v(), attr_name@),
            same_but_attributes(*final(self), *old(self)),
    {
        let ghost s = pairs_view(self.attributes@);
        let mut i: usize = 0;
        while i < self.attributes.len()
            invariant
                i <= self.attributes.len(),
                s == pairs_view(self.attributes@),
                forall|j: int| 0 <= j < i ==> (#[trigger] s[j]).0 != attr_name@,
            ensures
                i < self.attributes.len() ==> s[i as int].0 == attr_name@,
            decreases self.attributes.len() - i,
        {
            if str_eq(&self.attributes[i].0, attr_name) {
                break;
            }
            i = i + 1;
        }
        proof {
            lemma_remove_key_at(s, attr_name@, i as int);
        }
        if i < self.attributes.len() {
            let (_, v) = self.attributes.remove(i);
            proof {
                assert(pairs_view(self.attributes@) =~= s.take(i as int) + s.skip(i as int).skip(1));
            }
            Some(v)
        } else {
            proof {
                assert(s.skip(i as int).len() == 0);
                assert(s.take(i as int) + s.skip(i as int) =~= s);
            }
            None
        }
    }

    /// Removes all attributes.
    pub fn clear_attributes(&mut self)
        ensures
            final(self).attributes_v().len() == 0,
            same_but_attributes(*final(self), *old(self)),
    {
        self.attributes.clear();
    }

    /// The prefix bindings that this element's own attributes declare, in
    /// order; `None` if there are none.
    pub fn namespace_prefixes(&self) -> (r: Option<Vec<(String, String)>>)
        ensures
            r is None <==> prefix_bindings(self.attributes_v()).len() == 0,
            r is Some ==> pairs_view(r->0@) == prefix_bindings(self.attributes_v()),
    {
        let v = xmlns_context_from_attributes(&self.attributes);
        if v.len() == 0 {
            None
        } else {
            Some(v)
        }
    }
}

/// The prefix bindings that the attributes `attrs` declare.
fn xmlns_context_from_attributes(attrs: &Vec<(String, String)>) -> (r: Vec<(String, String)>)
    ensures
        pairs_view(r@) == prefix_bindings(pairs_view(attrs@)),
{
    let word = vec!['x', 'm', 'l', 'n', 's', ':'];
    proof {
        assert(word@ =~= xmlns_colon());
    }
    let mut r: Vec<(String, String)> = Vec::new();
    let mut i: usize = 0;
    while i < attrs.len()
        invariant
            i <= attrs.len(),
            word@ == xmlns_colon(),
            pairs_view(r@) == prefix_bindings(pairs_view(attrs@.take(i as int))),
        decreases attrs.len() - i,
    {
        proof {
            assert(pairs_view(attrs@.take(i + 1)).drop_last() =~= pairs_view(attrs@.take(i as int)));
        }
        let key = chars_of(attrs[i].0.as_str());
        if crate::chars::occurs_at_exec(&key, 0, &word) {
            let ghost before = r@;
            r.push((string_of(&key, 6, key.len()), attrs[i].1.clone()));
            proof {
                assert(key@.subrange(6, key@.len() as int) =~= key@.skip(6));
                assert(pairs_view(r@) =~= pairs_view(before).push((key@.skip(6), attrs@[i as int].1@)));
            }
        }
        i = i + 1;
    }
    proof {
        assert(attrs@.take(attrs.len() as int) =~= attrs@);
    }
    r
}

/// `a` and `b` agree on everything but their attributes.
pub open spec fn same_but_attributes(a: Element, b: Element) -> bool {
    a.name_v() == b.name_v() && a.children_v() == b.children_v()
        && a.namespace_v() == b.namespace_v() && a.prefix_v() == b.prefix_v()
        && a.context_v() == b.context_v()
}


pub open spec fn str_opt(o: Option<&str>) -> Option<Seq<char>> {
    match o {
        Some(s) => Some(s@),
        None => None,
    }
}

pub open spec fn str_pairs(s: Seq<(&str, &str)>) -> Seq<(Seq<char>, Seq<char>)> {
    s.map_values(|p: (&str, &str)| (p.0@, p.1@))
}

/// Every attribute name in `s` is valid.
pub open spec fn valid_keys(s: Seq<(Seq<char>, Seq<char>)>) -> bool {
    forall|i: int| 0 <= i < s.len() ==> valid_name(#[trigger] s[i].0)
}

/// The namespace that attributes declare for an element with the given
/// prefix: `xmlns` when unprefixed, else `xmlns:prefix`.
pub open spec fn declared_namespace(attrs: Seq<(Seq<char>, Seq<char>)>, prefix: Option<Seq<char>>) -> Option<Seq<char>> {
    match prefix {
        None => lookup(attrs, xmlns_word()),
        Some(p) => lookup(attrs, xmlns_colon() + p),
    }
}

pub open spec fn text_pieces(text: Option<Seq<char>>) -> Seq<Piece> {
    match text {
        Some(t) => seq![Piece::Txt(t)],
        None => Seq::empty(),
    }
}

/// What `Element::new` builds, when it succeeds: the name, the attributes
/// in order, the namespace given or else declared by the attributes, the
/// prefix, the bindings the attributes declare, and as children the text
/// then the given nodes attached.
pub open spec fn built(
    e: Element,
    name: Seq<char>,
    text: Option<Seq<char>>,
    attrs: Seq<(Seq<char>, Seq<char>)>,
    xmlns: Option<Seq<char>>,
    prefix: Option<Seq<char>>,
    kids: Option<Seq<Node>>,
) -> bool {
    &&& e.name_v() == name
    &&& e.attributes_v() == insert_attrs(Seq::empty(), attrs)
    &&& e.prefix_v() == prefix
    &&& e.namespace_v() == (if xmlns is Some { xmlns } else { declared_namespace(e.attributes_v(), prefix) })
    &&& e.context_v() == prefix_bindings(e.attributes_v())
    &&& match kids {
        None => pieces(e.children_v()) == normalized(text_pieces(text)),
        Some(ks) => exists|ms: Seq<Node>| #![trigger ms.len()] ms.len() == ks.len()
            && (forall|i: int| 0 <= i < ms.len() ==> attached(#[trigger] ms[i], ks[i], e))
            && pieces(e.children_v()) == normalized(normalized(text_pieces(text)) + pieces(ms)),
    }
}

/// The outcome of `Element::new`: an invalid name fails first, then an
/// invalid attribute name; anything else succeeds.
pub open spec fn new_outcome(
    r: Result<Element, KissXmlError>,
    name: Seq<char>,
    text: Option<Seq<char>>,
    attrs: Seq<(Seq<char>, Seq<char>)>,
    xmlns: Option<Seq<char>>,
    prefix: Option<Seq<char>>,
    kids: Option<Seq<Node>>,
) -> bool {
    &&& (r is Ok <==> valid_name(name) && valid_keys(attrs))
    &&& (!valid_name(name) ==> r is Err && r->Err_0 is InvalidElementName)
    &&& (valid_name(name) && !valid_keys(attrs) ==> r is Err && r->Err_0 is InvalidAttributeName)
    &&& (r is Ok ==> built(r->Ok_0, name, text, attrs, xmlns, prefix, kids))
}

pub open spec fn opt_pairs(a: Option<Vec<(&str, &str)>>) -> Seq<(Seq<char>, Seq<char>)> {
    match a {
        Some(v) => str_pairs(v@),
        None => Seq::empty(),
    }
}

pub open spec fn opt_nodes(c: Option<Vec<Node>>) -> Option<Seq<Node>> {
    match c {
        Some(v) => Some(v@),
        None => None,
    }
}

/// Index of the first child element at or after `i` named `name`, or -1.
pub open spec fn first_named(s: Seq<Node>, name: Seq<char>, i: int) -> int
    decreases s.len() - i,
{
    if i < 0 || i >= s.len() {
        -1
    } else if s[i] is Element && s[i]->Element_0.name_v() == name {
        i
    } else {
        first_named(s, name, i + 1)
    }
}

/// Whether `e` has the given name, namespace and prefix, each where asked.
pub open spec fn element_matches(
    e: Element,
    name: Option<Seq<char>>,
    ns: Option<Option<Seq<char>>>,
    prefix: Option<Option<Seq<char>>>,
) -> bool {
    (name is None || e.name_v() == name->0) && (ns is None || e.namespace_v() == ns->0)
        && (prefix is None || e.prefix_v() == prefix->0)
}

/// The elements in `s` that match (see `element_matches`), in order.
pub open spec fn elements_where(
    s: Seq<Node>,
    name: Option<Seq<char>>,
    ns: Option<Option<Seq<char>>>,
    prefix: Option<Option<Seq<char>>>,
) -> Seq<Element>
    decreases s.len(),
{
    if s.len() == 0 {
        Seq::empty()
    } else {
        let r = elements_where(s.drop_last(), name, ns, prefix);
        match s.last() {
            Node::Element(e) => if element_matches(e, name, ns, prefix) { r.push(e) } else { r },
            _ => r,
        }
    }
}

pub open spec fn nested_opt(o: Option<Option<&str>>) -> Option<Option<Seq<char>>> {
    match o {
        Some(x) => Some(str_opt(x)),
        None => None,
    }
}

impl Element {
    fn head(name: &str, attrs: &Vec<(&str, &str)>, xmlns: Option<&str>, xmlns_prefix: Option<&str>) -> (r: Element)
        ensures
            r.name_v() == name@,
            r.children_v().len() == 0,
            r.attributes_v() == insert_attrs(Seq::empty(), str_pairs(attrs@)),
            r.prefix_v() == str_opt(xmlns_prefix),
            r.namespace_v() == (if xmlns is Some { str_opt(xmlns) } else {
                declared_namespace(r.attributes_v(), str_opt(xmlns_prefix))
            }),
            r.context_v() == prefix_bindings(r.attributes_v()),
    {
        let mut e = Element {
            name: owned(name),
            child_nodes: Vec::new(),
            attributes: Vec::new(),
            xmlns: None,
            xmlns_prefix: match xmlns_prefix {
                Some(p) => Some(owned(p)),
                None => None,
            },
            xmlns_context: Vec::new(),
        };
        let mut i: usize = 0;
        proof {
            assert(str_pairs(attrs@).take(0) =~= Seq::<(Seq<char>, Seq<char>)>::empty());
            assert(pairs_view(e.attributes@) =~= Seq::<(Seq<char>, Seq<char>)>::empty());
        }
        while i < attrs.len()
            invariant
                i <= attrs.len(),
                e.name@ == name@,
                e.child_nodes@.len() == 0,
                e.xmlns is None,
                opt_view(e.xmlns_prefix) == str_opt(xmlns_prefix),
                e.attributes_v() == insert_attrs(Seq::empty(), str_pairs(attrs@).take(i as int)),
            decreases attrs.len() - i,
        {
            proof {
                assert(str_pairs(attrs@).take(i + 1).drop_last() =~= str_pairs(attrs@).take(i as int));
            }
            e.put_attr(owned(attrs[i].0), owned(attrs[i].1));
            i = i + 1;
        }
        proof {
            assert(str_pairs(attrs@).take(attrs.len() as int) =~= str_pairs(attrs@));
        }
        let ns = match xmlns {
            Some(x) => Some(owned(x)),
            None => match xmlns_prefix {
                None => match lookup_exec(&e.attributes, "xmlns") {
                    Some(v) => Some(v.clone()),
                    None => None,
                },
                Some(p) => {
                    let mut key = owned("xmlns:");
                    push_text(&mut key, p);
                    match lookup_exec(&e.attributes, key.as_str()) {
                        Some(v) => Some(v.clone()),
                        None => None,
                    }
                },
            },
        };
        proof {
            reveal_strlit("xmlns");
            reveal_strlit("xmlns:");
            assert("xmlns"@ =~= xmlns_word());
            assert("xmlns:"@ =~= xmlns_colon());
        }
        e.xmlns = ns;
        e.xmlns_context = xmlns_context_from_attributes(&e.attributes);
        e
    }

    /// Creates an element. `name` and every attribute name must be valid
    /// names; `xmlns` overrides a namespace declared by the attributes; the
    /// text, then the children, are appended as `append` does.
    pub fn new(
        name: &str,
        text: Option<&str>,
        attributes: Option<Vec<(&str, &str)>>,
        xmlns: Option<&str>,
        xmlns_prefix: Option<&str>,
        children: Option<Vec<Node>>,
    ) -> (r: Result<Self, KissXmlError>)
        ensures
            new_outcome(r, name@, str_opt(text), opt_pairs(attributes), str_opt(xmlns),
                str_opt(xmlns_prefix), opt_nodes(children)),
    {
        if !is_valid_name(name) {
            return Err(KissXmlError::InvalidElementName(InvalidElementName::new("not a valid element name")));
        }
        let attrs = match attributes {
            Some(a) => a,
            None => Vec::new(),
        };
        let ghost av = str_pairs(attrs@);
        proof {
            assert(av =~= opt_pairs(attributes));
        }
        let mut i: usize = 0;
        while i < attrs.len()
            invariant
                i <= attrs.len(),
                av == str_pairs(attrs@),
                av == opt_pairs(attributes),
                valid_name(name@),
                forall|j: int| 0 <= j < i ==> valid_name(#[trigger] av[j].0),
            decreases attrs.len() - i,
        {
            if !is_valid_name(attrs[i].0) {
                proof {
                    assert(!valid_name(av[i as int].0));
                    assert(!valid_keys(av));
                }
                return Err(KissXmlError::InvalidAttributeName(InvalidAttributeName::new("not a valid attribute name")));
            }
            i = i + 1;
        }
        let mut e = Element::head(name, &attrs, xmlns, xmlns_prefix);
        let ghost e0 = e;
        match text {
            Some(t) => {
                let tn = Node::Text(Text::new(t));
                let ghost g = tn;
                e.append(tn);
                proof {
                    let m = choose|m: Node| #[trigger] attached(m, g, e0)
                        && pieces(e.children_v()) == normalized(pieces(e0.children_v().push(m)));
                    assert(pieces(e0.children_v().push(m)) =~= text_pieces(str_opt(text)));
                }
            },
            None => {
                proof {
                    assert(pieces(e.children_v()) =~= normalized(text_pieces(str_opt(text))));
                }
            },
        }
        let ghost e1 = e;
        match children {
            Some(kids) => {
                let ghost ks = kids@;
                e.append_all(kids);
                proof {
                    let ms = choose|ms: Seq<Node>| #![trigger ms.len()] ms.len() == ks.len()
                        && (forall|i: int| 0 <= i < ms.len() ==> attached(#[trigger] ms[i], ks[i], e1))
                        && pieces(e.children_v()) == normalized(pieces(e1.children_v() + ms));
                    assert(pieces(e1.children_v() + ms) =~= pieces(e1.children_v()) + pieces(ms));
                    assert(forall|i: int| 0 <= i < ms.len() ==> attached(#[trigger] ms[i], ks[i], e));
                }
            },
            None => {},
        }
        Ok(e)
    }

    /// Creates an element with the given name and nothing else.
    pub fn new_from_name(name: &str) -> (r: Result<Self, KissXmlError>)
        ensures
            new_outcome(r, name@, None, Seq::empty(), None, None, None),
    {
        Element::new(name, None, None, None, None, None)
    }

    /// Creates an element with the given name and attributes.
    pub fn new_with_attributes(name: &str, attributes: Vec<(&str, &str)>) -> (r: Result<Self, KissXmlError>)
        ensures
            new_outcome(r, name@, None, str_pairs(attributes@), None, None, None),
    {
        Element::new(name, None, Some(attributes), None, None, None)
    }

    /// Creates an element with the given name and text content.
    pub fn new_with_text(name: &str, text: &str) -> (r: Result<Self, KissXmlError>)
        ensures
            new_outcome(r, name@, Some(text@), Seq::empty(), None, None, None),
    {
        Element::new(name, Some(text), None, None, None, None)
    }

    /// Creates an element with the given name, attributes and text.
    pub fn new_with_attributes_and_text(name: &str, attributes: Vec<(&str, &str)>, text: &str) -> (r: Result<Self, KissXmlError>)
        ensures
            new_outcome(r, name@, Some(text@), str_pairs(attributes@), None, None, None),
    {
        Element::new(name, Some(text), Some(attributes), None, None, None)
    }

    /// Creates an element with the given name, attributes and children.
    pub fn new_with_attributes_and_children(name: &str, attributes: Vec<(&str, &str)>, children: Vec<Node>) -> (r: Result<Self, KissXmlError>)
        ensures
            new_outcome(r, name@, None, str_pairs(attributes@), None, None, Some(children@)),
    {
        Element::new(name, None, Some(attributes), None, None, Some(children))
    }

    /// Creates an element with the given name and children.
    pub fn new_with_children(name: &str, children: Vec<Node>) -> (r: Result<Self, KissXmlError>)
        ensures
            new_outcome(r, name@, None, Seq::empty(), None, None, Some(children@)),
    {
        Element::new(name, None, None, None, None, Some(children))
    }

    /// This element as a node.
    pub fn boxed(self) -> (r: Node)
        ensures
            r == Node::Element(self),
    {
        Node::Element(self)
    }

    /// The first child element named `name`; fails if there is none.
    pub fn first_element_by_name(&self, name: &str) -> (r: Result<&Element, DoesNotExistError>)
        ensures
            r is Ok <==> first_named(self.children_v(), name@, 0) >= 0,
            r is Ok ==> self.children_v()[first_named(self.children_v(), name@, 0)] == Node::Element(*r->Ok_0),
    {
        let i = self.first_index_by_name(name);
        match i {
            Some(k) => match &self.child_nodes[k] {
                Node::Element(e) => Ok(e),
                _ => Err(DoesNotExistError::default()),
            },
            None => Err(DoesNotExistError::default()),
        }
    }

    /// The first child element named `name`, for editing in place; fails if
    /// there is none.
    pub fn first_element_by_name_mut(&mut self, name: &str) -> (r: Result<&mut Element, DoesNotExistError>)
        ensures
            r is Ok <==> first_named(old(self).children_v(), name@, 0) >= 0,
            r is Ok ==> ({
                let k = first_named(old(self).children_v(), name@, 0);
                &&& old(self).children_v()[k] == Node::Element(*r->Ok_0)
                &&& final(self).children_v() == old(self).children_v().update(k, Node::Element(*final(r->Ok_0)))
            }),
            r is Err ==> *final(self) == *old(self),
            same_but_children(*final(self), *old(self)),
    {
        let i = self.first_index_by_name(name);
        match i {
            Some(k) => {
                match &mut self.child_nodes[k] {
                    Node::Element(e) => Ok(e),
                    _ => Err(DoesNotExistError::default()),
                }
            },
            None => Err(DoesNotExistError::default()),
        }
    }

    fn first_index_by_name(&self, name: &str) -> (r: Option<usize>)
        ensures
            r is Some <==> first_named(self.children_v(), name@, 0) >= 0,
            r is Some ==> r->0 == first_named(self.children_v(), name@, 0) && r->0 < self.children_v().len()
                && self.children_v()[r->0 as int] is Element,
    {
        let mut i: usize = 0;
        while i < self.child_nodes.len()
            invariant
                i <= self.child_nodes.len(),
                first_named(self.child_nodes@, name@, 0) == first_named(self.child_nodes@, name@, i as int),
            decreases self.child_nodes.len() - i,
        {
            match &self.child_nodes[i] {
                Node::Element(e) => {
                    if str_eq(&e.name, name) {
                        return Some(i);
                    }
                },
                _ => {},
            }
            i = i + 1;
        }
        None
    }

    fn elements_matching(&self, name: Option<&str>, ns: Option<Option<&str>>, prefix: Option<Option<&str>>) -> (r: Vec<&Element>)
        ensures
            derefs(r@) == elements_where(self.children_v(), str_opt(name), nested_opt(ns), nested_opt(prefix)),
    {
        let mut r: Vec<&Element> = Vec::new();
        let mut i: usize = 0;
        while i < self.child_nodes.len()
            invariant
                i <= self.child_nodes.len(),
                derefs(r@) == elements_where(self.child_nodes@.take(i as int), str_opt(name), nested_opt(ns), nested_opt(prefix)),
            decreases self.child_nodes.len() - i,
        {
            proof {
                assert(self.child_nodes@.take(i + 1).drop_last() =~= self.child_nodes@.take(i as int));
            }
            let ghost before = r@;
            match &self.child_nodes[i] {
                Node::Element(e) => {
                    let ok_name = match name {
                        Some(n) => str_eq(&e.name, n),
                        None => true,
                    };
                    let ok_ns = match ns {
                        Some(want) => match (&e.xmlns, want) {
                            (Some(x), Some(w)) => str_eq(x, w),
                            (None, None) => true,
                            _ => false,
                        },
                        None => true,
                    };
                    let ok_prefix = match prefix {
                        Some(want) => match (&e.xmlns_prefix, want) {
                            (Some(x), Some(w)) => str_eq(x, w),
                            (None, None) => true,
                            _ => false,
                        },
                        None => true,
                    };
                    if ok_name && ok_ns && ok_prefix {
                        r.push(e);
                        proof {
                            assert(derefs(r@) =~= derefs(before).push(*e));
                        }
                    }
                },
                _ => {},
            }
            i = i + 1;
        }
        proof {
            assert(self.child_nodes@.take(i as int) =~= self.child_nodes@);
        }
        r
    }

    /// The child elements named `name`, in order.
    pub fn elements_by_name(&self, name: &str) -> (r: Vec<&Element>)
        ensures
            derefs(r@) == elements_where(self.children_v(), Some(name@), None, None),
    {
        self.elements_matching(Some(name), None, None)
    }

    /// The child elements in namespace `namespace` (`None`: in no
    /// namespace), in order.
    pub fn elements_by_namespace(&self, namespace: Option<&str>) -> (r: Vec<&Element>)
        ensures
            derefs(r@) == elements_where(self.children_v(), None, Some(str_opt(namespace)), None),
    {
        self.elements_matching(None, Some(namespace), None)
    }

    /// The child elements with namespace prefix `prefix` (`None`: with no
    /// prefix), in order.
    pub fn elements_by_namespace_prefix(&self, prefix: Option<&str>) -> (r: Vec<&Element>)
        ensures
            derefs(r@) == elements_where(self.children_v(), None, None, Some(str_opt(prefix))),
    {
        self.elements_matching(None, None, Some(prefix))
    }
}


/// The attributes as they stand in a start tag: ` name="value"` each, the
/// value escaped.
pub open spec fn attrs_text(s: Seq<(Seq<char>, Seq<char>)>) -> Seq<char>
    decreases s.len(),
{
    if s.len() == 0 {
        Seq::empty()
    } else {
        attrs_text(s.drop_last()) + seq![' '] + s.last().0 + seq!['=', '"'] + escaped_markup(s.last().1)
            + seq!['"']
    }
}

/// A node other than an element as it stands in XML: text escaped,
/// comments and CDATA sections in their own brackets.
pub open spec fn leaf_text(c: Node) -> Seq<char> {
    match c {
        Node::Text(t) => escaped_text(t.content@),
        Node::Comment(x) => seq!['<', '!', '-', '-'] + x.content() + comment_end(),
        Node::CData(x) => seq!['<', '!', '[', 'C', 'D', 'A', 'T', 'A', '['] + x.content() + cdata_end(),
        Node::Element(_) => Seq::empty(),
    }
}

/// Some node of `s` is a text node.
pub open spec fn has_text(s: Seq<Node>) -> bool {
    exists|i: int| 0 <= i < s.len() && (#[trigger] s[i]) is Text
}

pub open spec fn end_tag(tag: Seq<char>) -> Seq<char> {
    seq!['<', '/'] + tag + seq!['>']
}

/// Serialization. With `whole`, node `n` on its own: an element starts
/// with `prefix` (unless `inline`), then its start tag; no children gives
/// `/>`; one child that is not an element stands inline; otherwise the
/// element is mixed content if `inline` or if a child is text, and mixed
/// content gets no added white space at all, while other content puts each
/// child on a line of its own, one `indent` deeper. Without `whole`, the
/// first `k` children of element `n`, with `prefix` the children's prefix.
pub open spec fn rend(n: Node, k: int, prefix: Seq<char>, indent: Seq<char>, inline: bool, whole: bool) -> Seq<char>
    decreases n, (if whole { child_count(n) + 1 } else { k }),
{
    match n {
        Node::Element(e) => {
            let len = e.children_v().len() as int;
            let tag = e.tag_name_v();
            if whole {
                let open_tag = (if inline { Seq::empty() } else { prefix }) + seq!['<'] + tag
                    + attrs_text(e.attributes_v());
                if len == 0 {
                    open_tag + seq!['/', '>']
                } else if len == 1 && !(e.children_v()[0] is Element) {
                    open_tag + seq!['>'] + leaf_text(e.children_v()[0]) + end_tag(tag)
                } else {
                    let mixed = inline || has_text(e.children_v());
                    open_tag + seq!['>'] + (if mixed { Seq::empty() } else { seq!['\n'] })
                        + rend(n, len, prefix + indent, indent, mixed, false)
                        + (if mixed { Seq::empty() } else { prefix }) + end_tag(tag)
                }
            } else if 0 < k <= len {
                let c = e.children_v()[k - 1];
                rend(n, k - 1, prefix, indent, inline, false) + (match c {
                    Node::Element(_) => rend(c, 0, prefix, indent, inline, true),
                    Node::Text(t) => escaped_text(t.content@),
                    _ => (if inline { Seq::empty() } else { prefix }) + leaf_text(c),
                }) + (if inline { Seq::empty() } else { seq!['\n'] })
            } else {
                Seq::empty()
            }
        },
        _ => leaf_text(n),
    }
}

/// An element serialized with the given prefix and indent.
pub open spec fn render_element(e: Element, prefix: Seq<char>, indent: Seq<char>, inline: bool) -> Seq<char> {
    rend(Node::Element(e), 0, prefix, indent, inline, true)
}

/// A usable indent: one tab, or any number of spaces.
pub open spec fn valid_indent(s: Seq<char>) -> bool {
    s == seq!['\t'] || forall|i: int| 0 <= i < s.len() ==> s[i] == ' '
}

/// The indent actually used: `indent` if usable, else two spaces.
pub open spec fn effective_indent(indent: Seq<char>) -> Seq<char> {
    if valid_indent(indent) { indent } else { seq![' ', ' '] }
}

/// Whether `indent` is one tab or any number of spaces.
pub fn validate_indent(indent: &str) -> (r: bool)
    ensures
        r == valid_indent(indent@),
{
    let v = chars_of(indent);
    if v.len() == 1 && v[0] == '\t' {
        proof {
            assert(v@ =~= seq!['\t']);
        }
        return true;
    }
    proof {
        if v@ == seq!['\t'] {
            assert(v@.len() == 1 && v@[0] == '\t');
        }
    }
    let mut i: usize = 0;
    while i < v.len()
        invariant
            i <= v.len(),
            v@ == indent@,
            v@ != seq!['\t'],
            forall|j: int| 0 <= j < i ==> v@[j] == ' ',
        decreases v.len() - i,
    {
        if v[i] != ' ' {
            return false;
        }
        i = i + 1;
    }
    true
}

fn push_attrs(out: &mut String, attrs: &Vec<(String, String)>)
    ensures
        final(out)@ == old(out)@ + attrs_text(pairs_view(attrs@)),
{
    let mut i: usize = 0;
    let ghost start = out@;
    while i < attrs.len()
        invariant
            i <= attrs.len(),
            out@ == start + attrs_text(pairs_view(attrs@.take(i as int))),
        decreases attrs.len() - i,
    {
        proof {
            assert(pairs_view(attrs@.take(i + 1)).drop_last() =~= pairs_view(attrs@.take(i as int)));
        }
        out.push(' ');
        push_text(out, attrs[i].0.as_str());
        out.push('=');
        out.push('"');
        let v = crate::codec::attribute_escape(attrs[i].1.as_str());
        push_text(out, v.as_str());
        out.push('"');
        i = i + 1;
        proof {
            assert(out@ =~= start + attrs_text(pairs_view(attrs@.take(i as int))));
        }
    }
    proof {
        assert(attrs@.take(attrs.len() as int) =~= attrs@);
    }
}

fn push_end_tag(out: &mut String, tag: &String)
    ensures
        final(out)@ == old(out)@ + end_tag(tag@),
{
    let ghost start = out@;
    out.push('<');
    out.push('/');
    push_text(out, tag.as_str());
    out.push('>');
    proof {
        assert(out@ =~= start + end_tag(tag@));
    }
}

impl Node {
    /// A node other than an element, as it stands in XML.
    fn leaf_string(&self) -> (r: String)
        ensures
            r@ == leaf_text(*self),
    {
        match self {
            Node::Text(t) => t.to_string_with_indent(""),
            Node::Comment(c) => c.to_string_with_indent(""),
            Node::CData(c) => c.to_string_with_indent(""),
            Node::Element(_) => String::new(),
        }
    }

    /// The node as XML text, indenting with `indent` (one tab or any number
    /// of spaces; anything else is replaced by two spaces).
    pub fn to_string_with_indent(&self, indent: &str) -> (r: String)
        ensures
            self is Element ==> r@ == render_element(self->Element_0, Seq::empty(), effective_indent(indent@), false),
            !(self is Element) ==> r@ == leaf_text(*self),
    {
        match self {
            Node::Element(e) => e.to_string_with_indent(indent),
            _ => self.leaf_string(),
        }
    }

    /// The node as XML text, indented by two spaces per level.
    pub fn to_string(&self) -> (r: String)
        ensures
            self is Element ==> r@ == render_element(self->Element_0, Seq::empty(), seq![' ', ' '], false),
            !(self is Element) ==> r@ == leaf_text(*self),
    {
        let r = self.to_string_with_indent("  ");
        proof {
            reveal_strlit("  ");
            assert("  "@ =~= seq![' ', ' ']);
        }
        r
    }
}

impl Element {
    fn has_text_child(&self) -> (r: bool)
        ensures
            r == has_text(self.children_v()),
    {
        let mut i: usize = 0;
        while i < self.child_nodes.len()
            invariant
                i <= self.child_nodes.len(),
                forall|j: int| 0 <= j < i ==> !((#[trigger] self.child_nodes@[j]) is Text),
            decreases self.child_nodes.len() - i,
        {
            if self.child_nodes[i].is_text() {
                return true;
            }
            i = i + 1;
        }
        false
    }

    /// The element as XML text: `prefix` starts its line (unless `inline`),
    /// and each level of children is indented by one more `indent`.
    pub fn to_string_with_prefix_and_indent(&self, prefix: &str, indent: &str, inline: bool) -> (r: String)
        ensures
            r@ == render_element(*self, prefix@, indent@, inline),
        decreases *self,
    {
        let ghost n = Node::Element(*self);
        let mut out = String::new();
        if !inline {
            push_text(&mut out, prefix);
        }
        let tag = self.tag_name();
        out.push('<');
        push_text(&mut out, tag.as_str());
        push_attrs(&mut out, &self.attributes);
        let count = self.child_nodes.len();
        if count == 0 {
            out.push('/');
            out.push('>');
            proof {
                assert(out@ =~= rend(n, 0, prefix@, indent@, inline, true));
            }
            return out;
        }
        if count == 1 && !self.child_nodes[0].is_element() {
            out.push('>');
            let inner = self.child_nodes[0].leaf_string();
            push_text(&mut out, inner.as_str());
            push_end_tag(&mut out, &tag);
            proof {
                assert(out@ =~= rend(n, 0, prefix@, indent@, inline, true));
            }
            return out;
        }
        out.push('>');
        let mixed = inline || self.has_text_child();
        if !mixed {
            out.push('\n');
        }
        let ghost head = out@;
        let mut next_prefix = owned(prefix);
        push_text(&mut next_prefix, indent);
        let mut i: usize = 0;
        while i < count
            invariant
                n == Node::Element(*self),
                count == self.child_nodes.len(),
                i <= count,
                next_prefix@ == prefix@ + indent@,
                out@ == head + rend(n, i as int, next_prefix@, indent@, mixed, false),
            decreases count - i,
        {
            proof {
                assert(decreases_to!(*self => self.child_nodes@[i as int]));
            }
            let ghost before = out@;
            match &self.child_nodes[i] {
                Node::Text(t) => {
                    let s = t.to_string_with_indent(indent);
                    push_text(&mut out, s.as_str());
                },
                Node::Element(e) => {
                    let s = e.to_string_with_prefix_and_indent(next_prefix.as_str(), indent, mixed);
                    push_text(&mut out, s.as_str());
                },
                other => {
                    if !mixed {
                        push_text(&mut out, next_prefix.as_str());
                    }
                    let s = other.leaf_string();
                    push_text(&mut out, s.as_str());
                },
            }
            if !mixed {
                out.push('\n');
            }
            proof {
                assert(out@ =~= head + rend(n, i + 1, next_prefix@, indent@, mixed, false));
            }
            i = i + 1;
        }
        if !mixed {
            push_text(&mut out, prefix);
        }
        push_end_tag(&mut out, &tag);
        proof {
            assert(out@ =~= rend(n, 0, prefix@, indent@, inline, true));
        }
        out
    }

    /// The element as XML text, indenting with `indent` (one tab or any
    /// number of spaces; anything else is replaced by two spaces).
    pub fn to_string_with_indent(&self, indent: &str) -> (r: String)
        ensures
            r@ == render_element(*self, Seq::empty(), effective_indent(indent@), false),
    {
        let r = if validate_indent(indent) {
            self.to_string_with_prefix_and_indent("", indent, false)
        } else {
            self.to_string_with_prefix_and_indent("", "  ", false)
        };
        proof {
            reveal_strlit("");
            reveal_strlit("  ");
            assert(""@ =~= Seq::<char>::empty());
            assert("  "@ =~= seq![' ', ' ']);
        }
        r
    }

    /// The element as XML text, indented by two spaces per level.
    pub fn to_string(&self) -> (r: String)
        ensures
            r@ == render_element(*self, Seq::empty(), seq![' ', ' '], false),
    {
        let r = self.to_string_with_indent("  ");
        proof {
            reveal_strlit("  ");
            assert("  "@ =~= seq![' ', ' ']);
        }
        r
    }
}


/// Index of the first character at or after `i` that is not white space
/// (the length, if there is none).
pub open spec fn skip_space(s: Seq<char>, i: int) -> int
    decreases s.len() - i,
{
    if i < 0 || i >= s.len() {
        s.len() as int
    } else if is_space(s[i]) {
        skip_space(s, i + 1)
    } else {
        i
    }
}

/// End of `s[lo..j]` with trailing white space cut off.
pub open spec fn back_space(s: Seq<char>, j: int, lo: int) -> int
    decreases j,
{
    if j <= lo || j <= 0 || j > s.len() {
        if lo <= j { lo } else { j }
    } else if is_space(s[j - 1]) {
        back_space(s, j - 1, lo)
    } else {
        j
    }
}

/// `s` without leading and trailing white space.
pub open spec fn trimmed(s: Seq<char>) -> Seq<char> {
    let lo = skip_space(s, 0);
    s.subrange(lo, back_space(s, s.len() as int, lo))
}

/// The characters of `s` without leading and trailing white space.
pub(crate) fn trim_chars(s: &str) -> (r: Vec<char>)
    ensures
        r@ == trimmed(s@),
{
    let v = chars_of(s);
    let mut lo: usize = 0;
    while lo < v.len() && is_space_char(v[lo])
        invariant
            lo <= v.len(),
            skip_space(v@, 0) == skip_space(v@, lo as int),
        decreases v.len() - lo,
    {
        lo = lo + 1;
    }
    let mut hi: usize = v.len();
    while hi > lo && is_space_char(v[hi - 1])
        invariant
            lo <= hi <= v.len(),
            lo == skip_space(v@, 0),
            back_space(v@, v.len() as int, lo as int) == back_space(v@, hi as int, lo as int),
        decreases hi,
    {
        hi = hi - 1;
    }
    let mut r: Vec<char> = Vec::new();
    let mut i = lo;
    while i < hi
        invariant
            lo <= i <= hi <= v.len(),
            r@ == v@.subrange(lo as int, i as int),
        decreases hi - i,
    {
        r.push(v[i]);
        proof {
            assert(r@ =~= v@.subrange(lo as int, i + 1));
        }
        i = i + 1;
    }
    r
}

/// An XML declaration such as `<?xml version="1.0"?>`, kept verbatim: only
/// what stands between `<?` and `?>` is stored.
#[derive(Debug)]
pub struct Declaration {
    decl_str: String,
}

pub open spec fn decl_open() -> Seq<char> {
    seq!['<', '?']
}

pub open spec fn decl_close() -> Seq<char> {
    seq!['?', '>']
}

pub open spec fn doctype_open() -> Seq<char> {
    seq!['<', '!', 'D', 'O', 'C', 'T', 'Y', 'P', 'E']
}

impl Declaration {
    pub closed spec fn content(&self) -> Seq<char> {
        self.decl_str@
    }

    /// Reads a declaration `<?...?>` (surrounding white space allowed).
    pub fn from_str(decl: &str) -> (r: Result<Self, KissXmlError>)
        ensures
            r is Ok <==> ({
                let t = trimmed(decl@);
                t.len() >= 4 && starts_with(t, decl_open()) && ends_with(t, decl_close())
            }),
            r is Ok ==> r->Ok_0.content() == trimmed(decl@).subrange(2, trimmed(decl@).len() - 2),
            r is Err ==> r->Err_0 is ParsingError,
    {
        let t = trim_chars(decl);
        let n = t.len();
        if n >= 4 && t[0] == '<' && t[1] == '?' && t[n - 2] == '?' && t[n - 1] == '>' {
            proof {
                assert(t@.subrange(0, 2) =~= decl_open());
                assert(t@.subrange(n - 2, n as int) =~= decl_close());
            }
            Ok(Declaration { decl_str: string_of(&t, 2, n - 2) })
        } else {
            proof {
                if n >= 4 && starts_with(t@, decl_open()) && ends_with(t@, decl_close()) {
                    assert(t@.subrange(0, 2)[0] == t@[0]);
                    assert(t@.subrange(0, 2)[1] == t@[1]);
                    assert(t@.subrange(n - 2, n as int)[0] == t@[n - 2]);
                    assert(t@.subrange(n - 2, n as int)[1] == t@[n - 1]);
                }
            }
            Err(KissXmlError::ParsingError(crate::errors::ParsingError::new("Invalid XML declaration syntax")))
        }
    }

    /// The usual declaration `<?xml version="1.0" encoding="UTF-8"?>`.
    pub fn new() -> (r: Self)
        ensures
            r.content() == "xml version=\"1.0\" encoding=\"UTF-8\""@,
    {
        Declaration { decl_str: owned("xml version=\"1.0\" encoding=\"UTF-8\"") }
    }

    /// The declaration as it stands in XML.
    pub fn to_string(&self) -> (r: String)
        ensures
            r@ == decl_open() + self.content() + decl_close(),
    {
        let mut r = String::new();
        r.push('<');
        r.push('?');
        push_text(&mut r, self.decl_str.as_str());
        r.push('?');
        r.push('>');
        proof {
            assert(r@ =~= decl_open() + self.content() + decl_close());
        }
        r
    }
}

impl Default for Declaration {
    fn default() -> (r: Self)
        ensures
            r.content() == "xml version=\"1.0\" encoding=\"UTF-8\""@,
    {
        Declaration::new()
    }
}

/// A document type declaration `<!DOCTYPE ...>`, kept verbatim: only what
/// follows `<!DOCTYPE` up to the closing `>` is stored.
#[derive(Debug)]
pub struct DTD {
    dtd_str: String,
}

impl DTD {
    pub closed spec fn content(&self) -> Seq<char> {
        self.dtd_str@
    }

    /// Reads a `<!DOCTYPE ...>` block (surrounding white space allowed).
    pub fn from_string(text: &str) -> (r: Result<DTD, KissXmlError>)
        ensures
            r is Ok <==> ({
                let t = trimmed(text@);
                t.len() >= 10 && starts_with(t, doctype_open()) && t.last() == '>'
            }),
            r is Ok ==> r->Ok_0.content() == trimmed(text@).subrange(9, trimmed(text@).len() - 1),
            r is Err ==> r->Err_0 is ParsingError,
    {
        let t = trim_chars(text);
        let n = t.len();
        let word = vec!['<', '!', 'D', 'O', 'C', 'T', 'Y', 'P', 'E'];
        proof {
            assert(word@ =~= doctype_open());
        }
        if n >= 10 && crate::chars::occurs_at_exec(&t, 0, &word) && t[n - 1] == '>' {
            Ok(DTD { dtd_str: string_of(&t, 9, n - 1) })
        } else {
            Err(KissXmlError::ParsingError(crate::errors::ParsingError::new("Invalid DTD syntax")))
        }
    }

    /// The block as it stands in XML.
    pub fn to_string(&self) -> (r: String)
        ensures
            r@ == doctype_open() + self.content() + seq!['>'],
    {
        let mut r = String::new();
        let word = vec!['<', '!', 'D', 'O', 'C', 'T', 'Y', 'P', 'E'];
        crate::chars::push_chars(&mut r, &word);
        push_text(&mut r, self.dtd_str.as_str());
        r.push('>');
        proof {
            assert(r@ =~= doctype_open() + self.content() + seq!['>']);
        }
        r
    }
}

/// A document: an optional XML declaration, any number of DTD blocks, and
/// exactly one root element.
#[derive(Debug)]
pub struct Document {
    declaration: Option<Declaration>,
    dtds: Vec<DTD>,
    root_element: Element,
}

/// The lines that DTD blocks take in serialized XML.
pub open spec fn dtds_text(s: Seq<DTD>) -> Seq<char>
    decreases s.len(),
{
    if s.len() == 0 {
        Seq::empty()
    } else {
        dtds_text(s.drop_last()) + doctype_open() + s.last().content() + seq!['>', '\n']
    }
}

impl Document {
    pub closed spec fn declaration_v(&self) -> Option<Declaration> {
        self.declaration
    }

    pub closed spec fn dtds_v(&self) -> Seq<DTD> {
        self.dtds@
    }

    pub closed spec fn root_v(&self) -> Element {
        self.root_element
    }

    /// The document as XML text with the given indent (see
    /// `effective_indent`).
    pub open spec fn text_v(&self, indent: Seq<char>) -> Seq<char> {
        (match self.declaration_v() {
            Some(d) => decl_open() + d.content() + decl_close() + seq!['\n'],
            None => Seq::empty(),
        }) + dtds_text(self.dtds_v())
            + render_element(self.root_v(), Seq::empty(), effective_indent(indent), false) + seq!['\n']
    }

    /// A document with the given root and the usual XML declaration.
    pub fn new(root: Element) -> (r: Self)
        ensures
            r.root_v() == root,
            r.declaration_v() is Some,
            r.declaration_v()->0.content() == "xml version=\"1.0\" encoding=\"UTF-8\""@,
            r.dtds_v().len() == 0,
    {
        Document::new_with_decl_dtd(root, Some(Declaration::new()), None)
    }

    /// A document with the given root, declaration and DTD blocks.
    pub fn new_with_decl_dtd(root: Element, declaration: Option<Declaration>, dtd: Option<Vec<DTD>>) -> (r: Self)
        ensures
            r.root_v() == root,
            r.declaration_v() == declaration,
            dtd is Some ==> r.dtds_v() == dtd->0@,
            dtd is None ==> r.dtds_v().len() == 0,
    {
        Document {
            declaration,
            dtds: match dtd {
                None => Vec::new(),
                Some(d) => d,
            },
            root_element: root,
        }
    }

    /// The DTD blocks, in order.
    pub fn doctype_defs(&self) -> (r: &Vec<DTD>)
        ensures
            r@ == self.dtds_v(),
    {
        &self.dtds
    }

    /// The DTD blocks, for editing in place.
    pub fn doctype_defs_mut(&mut self) -> (r: &mut Vec<DTD>)
        ensures
            r@ == old(self).dtds_v(),
            final(self).dtds_v() == final(r)@,
            final(self).declaration_v() == old(self).declaration_v(),
            final(self).root_v() == old(self).root_v(),
    {
        &mut self.dtds
    }

    /// Replaces the DTD blocks (`None` removes them all).
    pub fn set_doctype_defs(&mut self, dtds: Option<Vec<DTD>>)
        ensures
            dtds is Some ==> final(self).dtds_v() == dtds->0@,
            dtds is None ==> final(self).dtds_v().len() == 0,
            final(self).declaration_v() == old(self).declaration_v(),
            final(self).root_v() == old(self).root_v(),
    {
        match dtds {
            None => { self.dtds = Vec::new(); },
            Some(d) => { self.dtds = d; },
        }
    }

    /// The XML declaration, if the document has one.
    pub fn declaration(&self) -> (r: &Option<Declaration>)
        ensures
            *r == self.declaration_v(),
    {
        &self.declaration
    }

    /// Sets the XML declaration.
    pub fn set_declaration(&mut self, decl: Declaration)
        ensures
            final(self).declaration_v() == Some(decl),
            final(self).dtds_v() == old(self).dtds_v(),
            final(self).root_v() == old(self).root_v(),
    {
        self.declaration = Some(decl);
    }

    /// The root element.
    pub fn root_element(&self) -> (r: &Element)
        ensures
            *r == self.root_v(),
    {
        &self.root_element
    }

    /// The root element, for editing in place.
    pub fn root_element_mut(&mut self) -> (r: &mut Element)
        ensures
            *r == old(self).root_v(),
            final(self).root_v() == *final(r),
            final(self).declaration_v() == old(self).declaration_v(),
            final(self).dtds_v() == old(self).dtds_v(),
    {
        &mut self.root_element
    }

    /// The document as XML text: the declaration and each DTD block on a
    /// line of its own, then the root element indented with `indent` (one
    /// tab or any number of spaces; anything else is replaced by two
    /// spaces), then a newline.
    pub fn to_string_with_indent(&self, indent: &str) -> (r: String)
        ensures
            r@ == self.text_v(indent@),
    {
        let mut out = String::new();
        match &self.declaration {
            Some(d) => {
                let s = d.to_string();
                push_text(&mut out, s.as_str());
                out.push('\n');
            },
            None => {},
        }
        let ghost head = out@;
        let mut i: usize = 0;
        while i < self.dtds.len()
            invariant
                i <= self.dtds.len(),
                out@ == head + dtds_text(self.dtds@.take(i as int)),
            decreases self.dtds.len() - i,
        {
            proof {
                assert(self.dtds@.take(i + 1).drop_last() =~= self.dtds@.take(i as int));
            }
            let s = self.dtds[i].to_string();
            push_text(&mut out, s.as_str());
            out.push('\n');
            i = i + 1;
            proof {
                assert(out@ =~= head + dtds_text(self.dtds@.take(i as int)));
            }
        }
        proof {
            assert(self.dtds@.take(i as int) =~= self.dtds@);
        }
        let root = self.root_element.to_string_with_indent(indent);
        push_text(&mut out, root.as_str());
        out.push('\n');
        proof {
            assert(out@ =~= self.text_v(indent@));
        }
        out
    }

    /// The document as XML text, indented by two spaces per level.
    pub fn to_string(&self) -> (r: String)
        ensures
            r@ == self.text_v(seq![' ', ' ']),
    {
        let r = self.to_string_with_indent("  ");
        proof {
            reveal_strlit("  ");
            assert("  "@ =~= seq![' ', ' ']);
        }
        r
    }
}


impl Element {
    /// The prefix bindings in scope here, inherited ones included (the
    /// first binding of a prefix counts).
    pub(crate) fn get_namespace_context(&self) -> (r: Vec<(String, String)>)
        ensures
            pairs_view(r@) == self.context_v(),
    {
        copy_pairs(&self.xmlns_context)
    }

    /// Puts `node` in front of the children, as it is.
    pub(crate) fn adopt_front(&mut self, node: Node)
        ensures
            final(self).children_v() == seq![node] + old(self).children_v(),
            same_but_children(*final(self), *old(self)),
    {
        self.child_nodes.insert(0, node);
        proof {
            assert(self.child_nodes@ =~= seq![node] + old(self).child_nodes@);
        }
    }
}


/// The items of `s` whose mark is false, in order.
pub open spec fn unmarked<T>(s: Seq<T>, marked: Seq<bool>) -> Seq<T>
    decreases s.len(),
{
    if s.len() == 0 || marked.len() != s.len() {
        Seq::empty()
    } else if marked.last() {
        unmarked(s.drop_last(), marked.drop_last())
    } else {
        unmarked(s.drop_last(), marked.drop_last()).push(s.last())
    }
}

/// The items of `s` whose mark is true, in order.
pub open spec fn marked_items<T>(s: Seq<T>, marked: Seq<bool>) -> Seq<T>
    decreases s.len(),
{
    if s.len() == 0 || marked.len() != s.len() {
        Seq::empty()
    } else if marked.last() {
        marked_items(s.drop_last(), marked.drop_last()).push(s.last())
    } else {
        marked_items(s.drop_last(), marked.drop_last())
    }
}

/// Number of true marks.
pub open spec fn count_marked(marked: Seq<bool>) -> nat
    decreases marked.len(),
{
    if marked.len() == 0 {
        0
    } else {
        count_marked(marked.drop_last()) + if marked.last() { 1nat } else { 0nat }
    }
}

/// Index in `s`, at or after `i`, of the `k`-th element node from there
/// (counting from 0), or -1.
pub open spec fn nth_element_from(s: Seq<Node>, k: int, i: int) -> int
    decreases s.len() - i,
{
    if i < 0 || i >= s.len() {
        -1
    } else if s[i] is Element {
        if k == 0 { i } else { nth_element_from(s, k - 1, i + 1) }
    } else {
        nth_element_from(s, k, i + 1)
    }
}

/// The text nodes in `s`, in order.
pub open spec fn texts_of(s: Seq<Node>) -> Seq<Text>
    decreases s.len(),
{
    if s.len() == 0 {
        Seq::empty()
    } else {
        match s.last() {
            Node::Text(t) => texts_of(s.drop_last()).push(t),
            _ => texts_of(s.drop_last()),
        }
    }
}

/// The comment nodes in `s`, in order.
pub open spec fn comments_of(s: Seq<Node>) -> Seq<Comment>
    decreases s.len(),
{
    if s.len() == 0 {
        Seq::empty()
    } else {
        match s.last() {
            Node::Comment(c) => comments_of(s.drop_last()).push(c),
            _ => comments_of(s.drop_last()),
        }
    }
}

/// `n` as an `isize`, or `isize::MAX` if it does not fit.
pub(crate) fn clamp_isize(n: usize) -> (r: isize)
    ensures
        n <= isize::MAX ==> r as int == n as int,
        n > isize::MAX ==> r == isize::MAX,
{
    if n <= isize::MAX as usize { n as isize } else { isize::MAX }
}

/// Marks the element children of `s` named `name`.
pub open spec fn name_marks(s: Seq<Node>, name: Seq<char>) -> Seq<bool> {
    Seq::new(s.len(), |i: int| s[i] is Element && s[i]->Element_0.name_v() == name)
}

/// All nodes below an element: its children, then the nodes below each
/// child element in turn. With `whole` false, only what lies below the
/// first `k` children.
pub open spec fn below(n: Node, k: int, whole: bool) -> Seq<Node>
    decreases n, (if whole { child_count(n) + 1 } else { k }),
{
    match n {
        Node::Element(e) => {
            let len = e.children_v().len() as int;
            if whole {
                e.children_v() + below(n, len, false)
            } else if 0 < k <= len {
                let c = e.children_v()[k - 1];
                below(n, k - 1, false) + (if c is Element { below(c, 0, true) } else { Seq::empty() })
            } else {
                Seq::empty()
            }
        },
        _ => Seq::empty(),
    }
}

/// Every node below `n`, in the order `below` gives.
pub open spec fn descendants(n: Node) -> Seq<Node> {
    below(n, 0, true)
}

impl Element {
    /// Every node below this element: its children, then the nodes below
    /// each child element in turn.
    pub fn children_recursive(&self) -> (r: Vec<&Node>)
        ensures
            derefs(r@) == descendants(Node::Element(*self)),
        decreases *self,
    {
        let ghost n = Node::Element(*self);
        let mut out: Vec<&Node> = Vec::new();
        let mut i: usize = 0;
        while i < self.child_nodes.len()
            invariant
                i <= self.child_nodes.len(),
                derefs(out@) == self.child_nodes@.take(i as int),
            decreases self.child_nodes.len() - i,
        {
            let ghost before = out@;
            let c = &self.child_nodes[i];
            out.push(c);
            proof {
                assert(derefs(out@) =~= derefs(before).push(*c));
                assert(derefs(out@) =~= self.child_nodes@.take(i + 1));
            }
            i = i + 1;
        }
        proof {
            assert(self.child_nodes@.take(i as int) =~= self.child_nodes@);
        }
        let ghost head = derefs(out@);
        let mut j: usize = 0;
        while j < self.child_nodes.len()
            invariant
                n == Node::Element(*self),
                j <= self.child_nodes.len(),
                head == self.child_nodes@,
                derefs(out@) == head + below(n, j as int, false),
            decreases self.child_nodes.len() - j,
        {
            proof {
                assert(decreases_to!(*self => self.child_nodes@[j as int]));
            }
            let ghost before = out@;
            match &self.child_nodes[j] {
                Node::Element(e) => {
                    let mut sub = e.children_recursive();
                    let ghost subv = sub@;
                    out.append(&mut sub);
                    proof {
                        assert(derefs(out@) =~= derefs(before) + derefs(subv));
                    }
                },
                _ => {},
            }
            proof {
                assert(derefs(out@) =~= head + below(n, j + 1, false));
            }
            j = j + 1;
        }
        out
    }

    /// Every node below this element (see `children_recursive`).
    pub fn all_children(&self) -> (r: Vec<&Node>)
        ensures
            derefs(r@) == descendants(Node::Element(*self)),
    {
        self.children_recursive()
    }

    /// The nodes below this element (see `children_recursive`) for which
    /// `predicate` holds.
    pub fn search<P: Fn(&Node) -> bool>(&self, predicate: P) -> (r: Vec<&Node>)
        requires
            forall|n: &Node| #[trigger] predicate.requires((n,)),
        ensures
            exists|keep: Seq<bool>| #![trigger keep.len()] keep.len() == descendants(Node::Element(*self)).len()
                && (forall|i: int| 0 <= i < keep.len()
                    ==> predicate.ensures((&descendants(Node::Element(*self))[i],), #[trigger] keep[i]))
                && derefs(r@) == marked_items(descendants(Node::Element(*self)), keep),
    {
        let all = self.children_recursive();
        let ghost d = derefs(all@);
        let mut r: Vec<&Node> = Vec::new();
        let ghost mut keep: Seq<bool> = Seq::empty();
        let mut i: usize = 0;
        while i < all.len()
            invariant
                i <= all.len(),
                d == derefs(all@),
                keep.len() == i,
                forall|j: int| 0 <= j < i ==> predicate.ensures((&d[j],), #[trigger] keep[j]),
                forall|n: &Node| #[trigger] predicate.requires((n,)),
                derefs(r@) == marked_items(d.take(i as int), keep),
            decreases all.len() - i,
        {
            let x = all[i];
            let b = predicate(x);
            let ghost before = r@;
            proof {
                assert(d.take(i + 1).drop_last() =~= d.take(i as int));
                assert(keep.push(b).drop_last() =~= keep);
            }
            if b {
                r.push(x);
                proof {
                    assert(derefs(r@) =~= derefs(before).push(*x));
                }
            }
            proof {
                keep = keep.push(b);
            }
            i = i + 1;
        }
        proof {
            assert(d.take(i as int) =~= d);
        }
        r
    }

    /// Removes the child at `index`, returning it; fails if there is none.
    pub fn remove(&mut self, index: usize) -> (r: Result<Node, IndexOutOfBounds>)
        ensures
            r is Err <==> index >= old(self).children_v().len(),
            r is Err ==> r->Err_0.index as int == (if index <= isize::MAX { index as int } else { isize::MAX as int })
                && r->Err_0.bounds is Some && r->Err_0.bounds->0 == (0isize,
                    if old(self).children_v().len() <= isize::MAX { old(self).children_v().len() as isize } else { isize::MAX }),
            r is Ok ==> r->Ok_0 == old(self).children_v()[index as int]
                && final(self).children_v() == old(self).children_v().remove(index as int),
            r is Err ==> final(self).children_v() == old(self).children_v(),
            same_but_children(*final(self), *old(self)),
    {
        if index >= self.child_nodes.len() {
            return Err(IndexOutOfBounds::new(clamp_isize(index), Some((0, clamp_isize(self.child_nodes.len())))));
        }
        Ok(self.child_nodes.remove(index))
    }

    /// Removes the children for which `predicate` holds, returning how many
    /// were removed.
    pub fn remove_by<P: Fn(&Node) -> bool>(&mut self, predicate: &P) -> (r: usize)
        requires
            forall|n: &Node| #[trigger] predicate.requires((n,)),
        ensures
            exists|marked: Seq<bool>| #![trigger marked.len()] marked.len() == old(self).children_v().len()
                && (forall|i: int| 0 <= i < marked.len()
                    ==> predicate.ensures((&old(self).children_v()[i],), #[trigger] marked[i]))
                && final(self).children_v() == unmarked(old(self).children_v(), marked)
                && r == count_marked(marked),
            same_but_children(*final(self), *old(self)),
    {
        let mut nodes: Vec<Node> = Vec::new();
        std::mem::swap(&mut nodes, &mut self.child_nodes);
        let ghost all = nodes@;
        let total = nodes.len();
        let ghost mut marked: Seq<bool> = Seq::empty();
        let mut count: usize = 0;
        for n in it: nodes.into_iter()
            invariant
                it.seq() == all,
                all.len() == total,
                marked.len() == it.index(),
                forall|j: int| 0 <= j < it.index() ==> predicate.ensures((&all[j],), #[trigger] marked[j]),
                forall|n: &Node| #[trigger] predicate.requires((n,)),
                self.child_nodes@ == unmarked(all.take(it.index() as int), marked),
                count == count_marked(marked),
                count <= it.index(),
                same_but_children(*self, *old(self)),
        {
            let b = predicate(&n);
            proof {
                assert(all.take(it.index() + 1).drop_last() =~= all.take(it.index() as int));
                assert(marked.push(b).drop_last() =~= marked);
            }
            proof {
                assert(it.index() < all.len());
            }
            if b {
                count = count + 1;
            } else {
                self.child_nodes.push(n);
            }
            proof {
                marked = marked.push(b);
            }
        }
        proof {
            assert(all.take(all.len() as int) =~= all);
        }
        count
    }

    /// Removes the children for which `predicate` holds, then does the same
    /// inside every remaining child element, at every depth; returns how
    /// many nodes were removed in all (saturating at `usize::MAX`).
    pub fn remove_all<P: Fn(&Node) -> bool>(&mut self, predicate: &P) -> (r: usize)
        requires
            forall|n: &Node| #[trigger] predicate.requires((n,)),
        ensures
            exists|marked: Seq<bool>| #![trigger marked.len()] marked.len() == old(self).children_v().len()
                && (forall|i: int| 0 <= i < marked.len()
                    ==> predicate.ensures((&old(self).children_v()[i],), #[trigger] marked[i]))
                && final(self).children_v().len() == unmarked(old(self).children_v(), marked).len()
                && (forall|i: int| 0 <= i < final(self).children_v().len()
                    ==> kept_shape(#[trigger] final(self).children_v()[i], unmarked(old(self).children_v(), marked)[i])),
            same_but_children(*final(self), *old(self)),
            node_test_deterministic(predicate) ==> pruned(node_marks(predicate), Node::Element(*old(self)),
                Node::Element(*final(self))),
            node_test_deterministic(predicate) ==> r as int == sat(removed_count(node_marks(predicate),
                Node::Element(*old(self))) as int),
        decreases *old(self),
    {
        let ghost start = *self;
        let mut count = self.remove_by(predicate);
        let ghost first = *self;
        let ghost marked = choose|marked: Seq<bool>| #![trigger marked.len()] marked.len() == start.children_v().len()
            && (forall|i: int| 0 <= i < marked.len()
                ==> predicate.ensures((&start.children_v()[i],), #[trigger] marked[i]))
            && first.children_v() == unmarked(start.children_v(), marked)
            && count == count_marked(marked);
        let ghost mk = node_marks(predicate);
        let ghost det = node_test_deterministic(predicate);
        proof {
            if det {
                assert forall|t: int| 0 <= t < marked.len() implies #[trigger] marked[t] == mk(start.children_v()[t]) by {
                    let c = start.children_v()[t];
                    assert(predicate.ensures((&c,), marked[t]));
                    if mk(c) {
                        assert(predicate.ensures((&c,), true));
                    }
                }
            }
        }
        let mut i: usize = 0;
        while i < self.child_nodes.len()
            invariant
                forall|n: &Node| #[trigger] predicate.requires((n,)),
                same_but_children(*self, *old(self)),
                first.child_nodes@ == unmarked(start.child_nodes@, marked),
                marked.len() == start.child_nodes@.len(),
                start == *old(self),
                self.child_nodes.len() == first.child_nodes.len(),
                i <= self.child_nodes.len(),
                forall|j: int| 0 <= j < i ==> kept_shape(#[trigger] self.child_nodes@[j], first.child_nodes@[j]),
                forall|j: int| i <= j < self.child_nodes.len() ==> #[trigger] self.child_nodes@[j] == first.child_nodes@[j],
                mk == node_marks(predicate),
                det == node_test_deterministic(predicate),
                det ==> forall|j: int| 0 <= j < i ==> pruned(mk, first.child_nodes@[j], #[trigger] self.child_nodes@[j]),
                det ==> count as int == sat((count_marked(marked) + sum_removed(mk, first.child_nodes@, i as int)) as int),
                det ==> forall|t: int| 0 <= t < marked.len() ==> #[trigger] marked[t] == mk(start.children_v()[t]),
            decreases self.child_nodes.len() - i,
        {
            let ghost cur = self.child_nodes@;
            proof {
                lemma_unmarked_from(start.child_nodes@, marked, i as int);
                let idx = choose|idx: int| 0 <= idx < start.child_nodes@.len()
                    && #[trigger] start.child_nodes@[idx] == unmarked(start.child_nodes@, marked)[i as int];
                assert(decreases_to!(start => start.child_nodes@[idx]));
            }
            let ghost before_count = count;
            let ghost c0 = first.child_nodes@[i as int];
            match &mut self.child_nodes[i] {
                Node::Element(e) => {
                    let k = e.remove_all(predicate);
                    count = if count <= usize::MAX - k { count + k } else { usize::MAX };
                    proof {
                        if det {
                            let a: int = (count_marked(marked) + sum_removed(mk, first.child_nodes@, i as int)) as int;
                            let b: int = removed_count(mk, c0) as int;
                            assert(before_count as int == sat(a));
                            assert(k as int == sat(b));
                            assert(count as int == sat(a + b));
                        }
                    }
                },
                _ => {},
            }
            proof {
                if det {
                    assert(sum_removed(mk, first.child_nodes@, i + 1)
                        == sum_removed(mk, first.child_nodes@, i as int) + removed_count(mk, c0));
                    if !(c0 is Element) {
                        assert(self.child_nodes@[i as int] == c0);
                        assert(removed_count(mk, c0) == 0);
                        assert(pruned(mk, c0, self.child_nodes@[i as int]));
                    }
                    assert forall|j: int| 0 <= j < i + 1 implies pruned(mk, first.child_nodes@[j], #[trigger] self.child_nodes@[j]) by {
                        if j < i {
                            assert(self.child_nodes@[j] == cur[j]);
                        }
                    }
                }
                assert(kept_shape(self.child_nodes@[i as int], first.child_nodes@[i as int]));
                assert forall|j: int| 0 <= j < i + 1 implies kept_shape(#[trigger] self.child_nodes@[j], first.child_nodes@[j]) by {
                    if j < i {
                        assert(self.child_nodes@[j] == cur[j]);
                    }
                }
            }
            i = i + 1;
        }
        proof {
            if det {
                lemma_pruned_whole(mk, Node::Element(start), Node::Element(*self), marked);
            }
        }
        count
    }
}

/// `a` is `b` with, at most, nodes removed below it: same kind, and an
/// element keeps its name, attributes, namespace, prefix and bindings.
pub open spec fn kept_shape(a: Node, b: Node) -> bool {
    match b {
        Node::Element(y) => a is Element && same_but_children(a->Element_0, y),
        _ => a == b,
    }
}

proof fn lemma_unmarked_from<T>(s: Seq<T>, marked: Seq<bool>, j: int)
    requires
        0 <= j < unmarked(s, marked).len(),
    ensures
        exists|idx: int| 0 <= idx < s.len() && #[trigger] s[idx] == unmarked(s, marked)[j],
    decreases s.len(),
{
    if s.len() > 0 && marked.len() == s.len() {
        let r = unmarked(s.drop_last(), marked.drop_last());
        if marked.last() {
            lemma_unmarked_from(s.drop_last(), marked.drop_last(), j);
            let idx = choose|idx: int| 0 <= idx < s.drop_last().len() && #[trigger] s.drop_last()[idx] == r[j];
            assert(s[idx] == unmarked(s, marked)[j]);
        } else if j < r.len() {
            lemma_unmarked_from(s.drop_last(), marked.drop_last(), j);
            let idx = choose|idx: int| 0 <= idx < s.drop_last().len() && #[trigger] s.drop_last()[idx] == r[j];
            assert(s[idx] == unmarked(s, marked)[j]);
        } else {
            assert(s[s.len() - 1] == unmarked(s, marked)[j]);
        }
    }
}


impl Element {
    /// The number of child elements.
    pub fn count_elements(&self) -> (r: usize)
        ensures
            r == elements_of(self.children_v()).len(),
    {
        let mut n: usize = 0;
        let mut i: usize = 0;
        while i < self.child_nodes.len()
            invariant
                i <= self.child_nodes.len(),
                n == elements_of(self.child_nodes@.take(i as int)).len(),
                n <= i,
            decreases self.child_nodes.len() - i,
        {
            proof {
                assert(self.child_nodes@.take(i + 1).drop_last() =~= self.child_nodes@.take(i as int));
            }
            if self.child_nodes[i].is_element() {
                n = n + 1;
            }
            i = i + 1;
        }
        proof {
            assert(self.child_nodes@.take(i as int) =~= self.child_nodes@);
        }
        n
    }

    /// Removes the child element at position `index` among the child
    /// elements, returning it; fails if there are not that many.
    pub fn remove_element(&mut self, index: usize) -> (r: Result<Element, IndexOutOfBounds>)
        ensures
            r is Err <==> nth_element_from(old(self).children_v(), index as int, 0) == -1,
            r is Err ==> r->Err_0.index as int == (if index <= isize::MAX { index as int } else { isize::MAX as int })
                && r->Err_0.bounds is Some && r->Err_0.bounds->0 == (0isize, (
                    if elements_of(old(self).children_v()).len() <= isize::MAX {
                        elements_of(old(self).children_v()).len() as isize
                    } else {
                        isize::MAX
                    })),
            r is Ok ==> ({
                let k = nth_element_from(old(self).children_v(), index as int, 0);
                &&& old(self).children_v()[k] == Node::Element(r->Ok_0)
                &&& final(self).children_v() == old(self).children_v().remove(k)
            }),
            r is Err ==> final(self).children_v() == old(self).children_v(),
            same_but_children(*final(self), *old(self)),
    {
        let mut i: usize = 0;
        let mut left: usize = index;
        while i < self.child_nodes.len()
            invariant
                i <= self.child_nodes.len(),
                nth_element_from(self.child_nodes@, index as int, 0) == nth_element_from(self.child_nodes@, left as int, i as int),
            ensures
                i < self.child_nodes.len() ==> self.child_nodes@[i as int] is Element && left == 0,
                nth_element_from(self.child_nodes@, index as int, 0) == nth_element_from(self.child_nodes@, left as int, i as int),
            decreases self.child_nodes.len() - i,
        {
            if self.child_nodes[i].is_element() {
                if left == 0 {
                    break;
                }
                left = left - 1;
            }
            i = i + 1;
        }
        if i >= self.child_nodes.len() {
            let n = self.count_elements();
            return Err(IndexOutOfBounds::new(clamp_isize(index), Some((0, clamp_isize(n)))));
        }
        let n = self.count_elements();
        match self.child_nodes.remove(i) {
            Node::Element(e) => Ok(e),
            other => {
                self.child_nodes.insert(i, other);
                proof {
                    assert(self.child_nodes@ =~= old(self).child_nodes@);
                }
                Err(IndexOutOfBounds::new(clamp_isize(index), Some((0, clamp_isize(n)))))
            },
        }
    }

    /// Removes the child elements for which `predicate` holds, returning
    /// how many were removed.
    pub fn remove_elements<P: Fn(&Element) -> bool>(&mut self, predicate: &P) -> (r: usize)
        requires
            forall|e: &Element| #[trigger] predicate.requires((e,)),
        ensures
            exists|marked: Seq<bool>| #![trigger marked.len()] marked.len() == old(self).children_v().len()
                && (forall|i: int| 0 <= i < marked.len() ==> (#[trigger] old(self).children_v()[i] is Element
                    ==> predicate.ensures((&old(self).children_v()[i]->Element_0,), marked[i])))
                && (forall|i: int| 0 <= i < marked.len() ==> !(#[trigger] old(self).children_v()[i] is Element)
                    ==> !marked[i])
                && final(self).children_v() == unmarked(old(self).children_v(), marked)
                && r == count_marked(marked),
            same_but_children(*final(self), *old(self)),
    {
        let mut nodes: Vec<Node> = Vec::new();
        std::mem::swap(&mut nodes, &mut self.child_nodes);
        let ghost all = nodes@;
        let total = nodes.len();
        let ghost mut marked: Seq<bool> = Seq::empty();
        let mut count: usize = 0;
        for n in it: nodes.into_iter()
            invariant
                it.seq() == all,
                all.len() == total,
                marked.len() == it.index(),
                forall|j: int| 0 <= j < it.index() ==> (#[trigger] all[j] is Element
                    ==> predicate.ensures((&all[j]->Element_0,), marked[j])),
                forall|j: int| 0 <= j < it.index() ==> !(#[trigger] all[j] is Element) ==> !marked[j],
                forall|e: &Element| #[trigger] predicate.requires((e,)),
                self.child_nodes@ == unmarked(all.take(it.index() as int), marked),
                count == count_marked(marked),
                count <= it.index(),
                same_but_children(*self, *old(self)),
        {
            let b = match &n {
                Node::Element(e) => predicate(e),
                _ => false,
            };
            proof {
                assert(all.take(it.index() + 1).drop_last() =~= all.take(it.index() as int));
                assert(marked.push(b).drop_last() =~= marked);
                assert(it.index() < all.len());
            }
            if b {
                count = count + 1;
            } else {
                self.child_nodes.push(n);
            }
            proof {
                marked = marked.push(b);
            }
        }
        proof {
            assert(all.take(all.len() as int) =~= all);
        }
        count
    }

    /// Removes the child elements named `name`, returning how many were
    /// removed.
    pub fn remove_elements_by_name(&mut self, name: &str) -> (r: usize)
        ensures
            final(self).children_v() == unmarked(old(self).children_v(), name_marks(old(self).children_v(), name@)),
            r == count_marked(name_marks(old(self).children_v(), name@)),
            same_but_children(*final(self), *old(self)),
    {
        let mut nodes: Vec<Node> = Vec::new();
        std::mem::swap(&mut nodes, &mut self.child_nodes);
        let ghost all = nodes@;
        let ghost marks = name_marks(all, name@);
        let total = nodes.len();
        let mut count: usize = 0;
        for n in it: nodes.into_iter()
            invariant
                it.seq() == all,
                all.len() == total,
                marks == name_marks(all, name@),
                self.child_nodes@ == unmarked(all.take(it.index() as int), marks.take(it.index() as int)),
                count == count_marked(marks.take(it.index() as int)),
                count <= it.index(),
                same_but_children(*self, *old(self)),
        {
            let b = match &n {
                Node::Element(e) => str_eq(&e.name, name),
                _ => false,
            };
            proof {
                assert(all.take(it.index() + 1).drop_last() =~= all.take(it.index() as int));
                assert(marks.take(it.index() + 1).drop_last() =~= marks.take(it.index() as int));
                assert(marks[it.index() as int] == b);
                assert(it.index() < all.len());
            }
            if b {
                count = count + 1;
            } else {
                self.child_nodes.push(n);
            }
        }
        proof {
            assert(all.take(all.len() as int) =~= all);
            assert(marks.take(all.len() as int) =~= marks);
        }
        count
    }

    /// The elements below this element (see `children_recursive`) for
    /// which `predicate` holds.
    pub fn search_elements<P: Fn(&Element) -> bool>(&self, predicate: P) -> (r: Vec<&Element>)
        requires
            forall|e: &Element| #[trigger] predicate.requires((e,)),
        ensures
            exists|keep: Seq<bool>| #![trigger keep.len()] keep.len() == elements_of(descendants(Node::Element(*self))).len()
                && (forall|i: int| 0 <= i < keep.len()
                    ==> predicate.ensures((&elements_of(descendants(Node::Element(*self)))[i],), #[trigger] keep[i]))
                && derefs(r@) == marked_items(elements_of(descendants(Node::Element(*self))), keep),
    {
        let all = self.children_recursive();
        let ghost d = derefs(all@);
        let mut r: Vec<&Element> = Vec::new();
        let ghost mut keep: Seq<bool> = Seq::empty();
        let mut i: usize = 0;
        while i < all.len()
            invariant
                i <= all.len(),
                d == derefs(all@),
                keep.len() == elements_of(d.take(i as int)).len(),
                forall|j: int| 0 <= j < keep.len() ==> predicate.ensures((&elements_of(d.take(i as int))[j],), #[trigger] keep[j]),
                forall|e: &Element| #[trigger] predicate.requires((e,)),
                derefs(r@) == marked_items(elements_of(d.take(i as int)), keep),
            decreases all.len() - i,
        {
            proof {
                assert(d.take(i + 1).drop_last() =~= d.take(i as int));
            }
            let ghost before = r@;
            let ghost old_els = elements_of(d.take(i as int));
            proof {
                assert(d.take(i + 1).last() == d[i as int]);
            }
            match all[i] {
                Node::Element(e) => {
                    let b = predicate(e);
                    proof {
                        assert(old_els.push(*e).drop_last() =~= old_els);
                        assert(elements_of(d.take(i + 1)) == old_els.push(*e));
                        assert(keep.push(b).drop_last() =~= keep);
                    }
                    if b {
                        r.push(e);
                        proof {
                            assert(derefs(r@) =~= derefs(before).push(*e));
                        }
                    }
                    proof {
                        keep = keep.push(b);
                    }
                },
                _ => {},
            }
            i = i + 1;
        }
        proof {
            assert(d.take(i as int) =~= d);
        }
        r
    }

    /// The elements below this element (see `children_recursive`) named
    /// `name`.
    pub fn search_elements_by_name(&self, name: &str) -> (r: Vec<&Element>)
        ensures
            derefs(r@) == elements_where(descendants(Node::Element(*self)), Some(name@), None, None),
    {
        let all = self.children_recursive();
        let ghost d = derefs(all@);
        let mut r: Vec<&Element> = Vec::new();
        let mut i: usize = 0;
        while i < all.len()
            invariant
                i <= all.len(),
                d == derefs(all@),
                derefs(r@) == elements_where(d.take(i as int), Some(name@), None, None),
            decreases all.len() - i,
        {
            proof {
                assert(d.take(i + 1).drop_last() =~= d.take(i as int));
            }
            let ghost before = r@;
            match all[i] {
                Node::Element(e) => {
                    if str_eq(&e.name, name) {
                        r.push(e);
                        proof {
                            assert(derefs(r@) =~= derefs(before).push(*e));
                        }
                    }
                },
                _ => {},
            }
            i = i + 1;
        }
        proof {
            assert(d.take(i as int) =~= d);
        }
        r
    }

    /// The text nodes below this element (see `children_recursive`) for
    /// which `predicate` holds.
    pub fn search_text<P: Fn(&Text) -> bool>(&self, predicate: P) -> (r: Vec<&Text>)
        requires
            forall|t: &Text| #[trigger] predicate.requires((t,)),
        ensures
            exists|keep: Seq<bool>| #![trigger keep.len()] keep.len() == texts_of(descendants(Node::Element(*self))).len()
                && (forall|i: int| 0 <= i < keep.len()
                    ==> predicate.ensures((&texts_of(descendants(Node::Element(*self)))[i],), #[trigger] keep[i]))
                && derefs(r@) == marked_items(texts_of(descendants(Node::Element(*self))), keep),
    {
        let all = self.children_recursive();
        let ghost d = derefs(all@);
        let mut r: Vec<&Text> = Vec::new();
        let ghost mut keep: Seq<bool> = Seq::empty();
        let mut i: usize = 0;
        while i < all.len()
            invariant
                i <= all.len(),
                d == derefs(all@),
                keep.len() == texts_of(d.take(i as int)).len(),
                forall|j: int| 0 <= j < keep.len() ==> predicate.ensures((&texts_of(d.take(i as int))[j],), #[trigger] keep[j]),
                forall|t: &Text| #[trigger] predicate.requires((t,)),
                derefs(r@) == marked_items(texts_of(d.take(i as int)), keep),
            decreases all.len() - i,
        {
            proof {
                assert(d.take(i + 1).drop_last() =~= d.take(i as int));
            }
            let ghost before = r@;
            let ghost old_ts = texts_of(d.take(i as int));
            proof {
                assert(d.take(i + 1).last() == d[i as int]);
            }
            match all[i] {
                Node::Text(t) => {
                    let b = predicate(t);
                    proof {
                        assert(old_ts.push(*t).drop_last() =~= old_ts);
                        assert(texts_of(d.take(i + 1)) == old_ts.push(*t));
                        assert(keep.push(b).drop_last() =~= keep);
                    }
                    if b {
                        r.push(t);
                        proof {
                            assert(derefs(r@) =~= derefs(before).push(*t));
                        }
                    }
                    proof {
                        keep = keep.push(b);
                    }
                },
                _ => {},
            }
            i = i + 1;
        }
        proof {
            assert(d.take(i as int) =~= d);
        }
        r
    }

    /// The comment nodes below this element (see `children_recursive`) for
    /// which `predicate` holds.
    pub fn search_comments<P: Fn(&Comment) -> bool>(&self, predicate: P) -> (r: Vec<&Comment>)
        requires
            forall|c: &Comment| #[trigger] predicate.requires((c,)),
        ensures
            exists|keep: Seq<bool>| #![trigger keep.len()] keep.len() == comments_of(descendants(Node::Element(*self))).len()
                && (forall|i: int| 0 <= i < keep.len()
                    ==> predicate.ensures((&comments_of(descendants(Node::Element(*self)))[i],), #[trigger] keep[i]))
                && derefs(r@) == marked_items(comments_of(descendants(Node::Element(*self))), keep),
    {
        let all = self.children_recursive();
        let ghost d = derefs(all@);
        let mut r: Vec<&Comment> = Vec::new();
        let ghost mut keep: Seq<bool> = Seq::empty();
        let mut i: usize = 0;
        while i < all.len()
            invariant
                i <= all.len(),
                d == derefs(all@),
                keep.len() == comments_of(d.take(i as int)).len(),
                forall|j: int| 0 <= j < keep.len() ==> predicate.ensures((&comments_of(d.take(i as int))[j],), #[trigger] keep[j]),
                forall|c: &Comment| #[trigger] predicate.requires((c,)),
                derefs(r@) == marked_items(comments_of(d.take(i as int)), keep),
            decreases all.len() - i,
        {
            proof {
                assert(d.take(i + 1).drop_last() =~= d.take(i as int));
            }
            let ghost before = r@;
            let ghost old_cs = comments_of(d.take(i as int));
            proof {
                assert(d.take(i + 1).last() == d[i as int]);
            }
            match all[i] {
                Node::Comment(c) => {
                    let b = predicate(c);
                    proof {
                        assert(old_cs.push(*c).drop_last() =~= old_cs);
                        assert(comments_of(d.take(i + 1)) == old_cs.push(*c));
                        assert(keep.push(b).drop_last() =~= keep);
                    }
                    if b {
                        r.push(c);
                        proof {
                            assert(derefs(r@) =~= derefs(before).push(*c));
                        }
                    }
                    proof {
                        keep = keep.push(b);
                    }
                },
                _ => {},
            }
            i = i + 1;
        }
        proof {
            assert(d.take(i as int) =~= d);
        }
        r
    }
}


/// Two documents are equal: same declaration, same DTD blocks, and
/// structurally equal roots.
pub open spec fn same_document(a: Document, b: Document) -> bool {
    &&& match (a.declaration_v(), b.declaration_v()) {
        (Some(x), Some(y)) => x.content() == y.content(),
        (None, None) => true,
        _ => false,
    }
    &&& a.dtds_v().len() == b.dtds_v().len()
    &&& forall|i: int| 0 <= i < a.dtds_v().len() ==> (#[trigger] a.dtds_v()[i]).content() == b.dtds_v()[i].content()
    &&& same_node(Node::Element(a.root_v()), Node::Element(b.root_v()))
}

impl Document {
    /// Whether the two documents are equal (see `same_document`).
    pub fn same_as(&self, other: &Document) -> (r: bool)
        ensures
            r == same_document(*self, *other),
    {
        let decl_same = match (&self.declaration, &other.declaration) {
            (Some(x), Some(y)) => x.decl_str.eq(&y.decl_str),
            (None, None) => true,
            _ => false,
        };
        if !decl_same || self.dtds.len() != other.dtds.len() {
            return false;
        }
        let mut i: usize = 0;
        while i < self.dtds.len()
            invariant
                i <= self.dtds.len(),
                self.dtds.len() == other.dtds.len(),
                forall|j: int| 0 <= j < i ==> (#[trigger] self.dtds@[j]).content() == other.dtds@[j].content(),
            decreases self.dtds.len() - i,
        {
            if !self.dtds[i].dtd_str.eq(&other.dtds[i].dtd_str) {
                return false;
            }
            i = i + 1;
        }
        self.root_element.same_as(&other.root_element)
    }
}

impl PartialEq for Document {
    fn eq(&self, other: &Document) -> (r: bool) {
        self.same_as(other)
    }
}

impl vstd::std_specs::cmp::PartialEqSpecImpl for Document {
    open spec fn obeys_eq_spec() -> bool {
        false
    }

    open spec fn eq_spec(&self, other: &Document) -> bool {
        same_document(*self, *other)
    }
}

impl PartialEq for Element {
    fn eq(&self, other: &Element) -> (r: bool) {
        self.same_as(other)
    }
}

impl vstd::std_specs::cmp::PartialEqSpecImpl for Element {
    open spec fn obeys_eq_spec() -> bool {
        false
    }

    open spec fn eq_spec(&self, other: &Element) -> bool {
        same_node(Node::Element(*self), Node::Element(*other))
    }
}

impl PartialEq for Node {
    fn eq(&self, other: &Node) -> (r: bool) {
        node_eq(self, other)
    }
}

impl vstd::std_specs::cmp::PartialEqSpecImpl for Node {
    open spec fn obeys_eq_spec() -> bool {
        false
    }

    open spec fn eq_spec(&self, other: &Node) -> bool {
        same_node(*self, *other)
    }
}

impl Clone for Node {
    fn clone(&self) -> (r: Node)
        ensures
            same_node(r, *self),
    {
        node_clone(self)
    }
}

impl Clone for Element {
    fn clone(&self) -> (r: Element)
        ensures
            same_node(Node::Element(r), Node::Element(*self)),
    {
        self.deep_clone()
    }
}


/// The contents of the text nodes of `ts`, joined in order.
pub open spec fn joined_text(ts: Seq<Node>) -> Seq<char>
    decreases ts.len(),
{
    if ts.len() == 0 {
        Seq::empty()
    } else {
        joined_text(ts.drop_last()) + match ts.last() {
            Node::Text(t) => t.content@,
            _ => Seq::empty(),
        }
    }
}

proof fn lemma_merge_all_texts(ts: Seq<Node>)
    requires
        ts.len() > 0,
        forall|i: int| 0 <= i < ts.len() ==> (#[trigger] ts[i]) is Text,
    ensures
        merge_texts(pieces(ts)) == seq![Piece::Txt(joined_text(ts))],
    decreases ts.len(),
{
    let s = pieces(ts);
    let t = ts.last()->Text_0.content@;
    assert(s.drop_last() =~= pieces(ts.drop_last()));
    assert(ts[ts.len() - 1] is Text);
    assert(s.last() == Piece::Txt(t));
    assert(joined_text(ts) == joined_text(ts.drop_last()) + t);
    let r = merge_texts(s.drop_last());
    assert(merge_texts(s) == (if r.len() > 0 && r.last() is Txt {
        r.drop_last().push(Piece::Txt(r.last()->Txt_0 + t))
    } else {
        r.push(Piece::Txt(t))
    }));
    if ts.len() == 1 {
        assert(s.drop_last().len() == 0);
        assert(r.len() == 0);
        assert(joined_text(ts.drop_last()) =~= Seq::<char>::empty());
        assert(Seq::<char>::empty() + t =~= t);
        assert(r.push(Piece::Txt(t)) =~= seq![Piece::Txt(joined_text(ts))]);
    } else {
        assert forall|i: int| 0 <= i < ts.drop_last().len() implies (#[trigger] ts.drop_last()[i]) is Text by {
            assert(ts.drop_last()[i] == ts[i]);
        }
        lemma_merge_all_texts(ts.drop_last());
        assert(r == seq![Piece::Txt(joined_text(ts.drop_last()))]);
        assert(r.drop_last().push(Piece::Txt(r.last()->Txt_0 + t)) =~= seq![Piece::Txt(joined_text(ts))]);
    }
}

/// Appending text nodes in a row merges them: after `append_all` of one or
/// more text nodes to an element with no children, the element holds one
/// text child with their contents joined, or none if that is white space
/// only. The hypotheses are what `append_all` ensures.
pub proof fn law_appended_texts_merge(before: Element, after: Element, ts: Seq<Node>, ms: Seq<Node>)
    requires
        before.children_v().len() == 0,
        ts.len() > 0,
        forall|i: int| 0 <= i < ts.len() ==> (#[trigger] ts[i]) is Text,
        ms.len() == ts.len(),
        forall|i: int| 0 <= i < ms.len() ==> attached(#[trigger] ms[i], ts[i], before),
        pieces(after.children_v()) == normalized(pieces(before.children_v() + ms)),
    ensures
        is_blank(Piece::Txt(joined_text(ts))) ==> after.children_v().len() == 0,
        !is_blank(Piece::Txt(joined_text(ts))) ==> after.children_v().len() == 1
            && after.children_v()[0] is Text
            && after.children_v()[0]->Text_0.content@ == joined_text(ts),
{
    assert forall|i: int| 0 <= i < ms.len() implies #[trigger] ms[i] == ts[i] by {
        assert(attached(ms[i], ts[i], before));
        assert(ts[i] is Text);
    }
    assert(before.children_v() + ms =~= ts);
    lemma_merge_all_texts(ts);
    let m = seq![Piece::Txt(joined_text(ts))];
    assert(m.drop_last() =~= Seq::<Piece>::empty());
    assert(drop_blanks(m.drop_last()) =~= Seq::<Piece>::empty());
    let c = after.children_v();
    assert(pieces(c).len() == c.len());
    if !is_blank(Piece::Txt(joined_text(ts))) {
        assert(drop_blanks(m) =~= seq![Piece::Txt(joined_text(ts))]);
        assert(pieces(c)[0] == piece(c[0]));
    }
}

/// An unprefixed element with no namespace of its own, attached under a
/// parent, takes the parent's default namespace and stays unprefixed.
pub proof fn law_default_namespace_inherited(m: Node, e: Element, parent: Element)
    requires
        e.prefix_v() is None,
        e.namespace_v() is None,
        attached(m, Node::Element(e), parent),
    ensures
        m->Element_0.namespace_v() == parent.default_namespace_v(),
        m->Element_0.prefix_v() is None,
{
}

/// A prefixed element with no namespace of its own, attached under a
/// parent, takes the namespace its prefix is bound to among its own and the
/// parent's bindings (its own first).
pub proof fn law_prefix_resolved_in_scope(m: Node, e: Element, parent: Element, p: Seq<char>)
    requires
        e.prefix_v() == Some(p),
        e.namespace_v() is None,
        attached(m, Node::Element(e), parent),
    ensures
        m->Element_0.namespace_v() == lookup(e.context_v() + parent.context_v(), p),
{
}

/// Prefix bindings never reach unprefixed elements: an unprefixed element
/// with no namespace of its own, attached under a parent that has no
/// default namespace, has no namespace, whatever prefixes are bound.
pub proof fn law_unprefixed_ignores_bindings(m: Node, e: Element, parent: Element)
    requires
        e.prefix_v() is None,
        e.namespace_v() is None,
        parent.default_namespace_v() is None,
        attached(m, Node::Element(e), parent),
    ensures
        m->Element_0.namespace_v() is None,
{
}


impl Element {
    /// `append` for a node that arrives boxed.
    pub fn append_boxed(&mut self, node: Box<Node>)
        ensures
            exists|m: Node| #[trigger] attached(m, *node, *old(self))
                && pieces(final(self).children_v()) == normalized(pieces(old(self).children_v().push(m))),
            same_but_children(*final(self), *old(self)),
    {
        self.append(*node);
    }

    /// Removes the child elements for which `predicate` holds, then does the
    /// same inside every remaining child element, at every depth; returns
    /// how many elements were removed in all (saturating at `usize::MAX`).
    pub fn remove_all_elements<P: Fn(&Element) -> bool>(&mut self, predicate: &P) -> (r: usize)
        requires
            forall|e: &Element| #[trigger] predicate.requires((e,)),
        ensures
            exists|marked: Seq<bool>| #![trigger marked.len()] marked.len() == old(self).children_v().len()
                && (forall|i: int| 0 <= i < marked.len() ==> (#[trigger] old(self).children_v()[i] is Element
                    ==> predicate.ensures((&old(self).children_v()[i]->Element_0,), marked[i])))
                && (forall|i: int| 0 <= i < marked.len() ==> !(#[trigger] old(self).children_v()[i] is Element)
                    ==> !marked[i])
                && final(self).children_v().len() == unmarked(old(self).children_v(), marked).len()
                && (forall|i: int| 0 <= i < final(self).children_v().len()
                    ==> kept_shape(#[trigger] final(self).children_v()[i], unmarked(old(self).children_v(), marked)[i])),
            same_but_children(*final(self), *old(self)),
            element_test_deterministic(predicate) ==> pruned(element_marks(predicate), Node::Element(*old(self)),
                Node::Element(*final(self))),
            element_test_deterministic(predicate) ==> r as int == sat(removed_count(element_marks(predicate),
                Node::Element(*old(self))) as int),
        decreases *old(self),
    {
        let ghost start = *self;
        let mut count = self.remove_elements(predicate);
        let ghost first = *self;
        let ghost marked = choose|marked: Seq<bool>| #![trigger marked.len()] marked.len() == start.children_v().len()
            && (forall|i: int| 0 <= i < marked.len() ==> (#[trigger] start.children_v()[i] is Element
                ==> predicate.ensures((&start.children_v()[i]->Element_0,), marked[i])))
            && (forall|i: int| 0 <= i < marked.len() ==> !(#[trigger] start.children_v()[i] is Element)
                ==> !marked[i])
            && first.children_v() == unmarked(start.children_v(), marked)
            && count == count_marked(marked);
        let ghost mk = element_marks(predicate);
        let ghost det = element_test_deterministic(predicate);
        proof {
            if det {
                assert forall|t: int| 0 <= t < marked.len() implies #[trigger] marked[t] == mk(start.children_v()[t]) by {
                    let c = start.children_v()[t];
                    if c is Element {
                        assert(predicate.ensures((&c->Element_0,), marked[t]));
                        if mk(c) {
                            assert(predicate.ensures((&c->Element_0,), true));
                        }
                    }
                }
            }
        }
        let mut i: usize = 0;
        while i < self.child_nodes.len()
            invariant
                forall|e: &Element| #[trigger] predicate.requires((e,)),
                same_but_children(*self, *old(self)),
                first.child_nodes@ == unmarked(start.child_nodes@, marked),
                marked.len() == start.child_nodes@.len(),
                start == *old(self),
                self.child_nodes.len() == first.child_nodes.len(),
                i <= self.child_nodes.len(),
                forall|j: int| 0 <= j < i ==> kept_shape(#[trigger] self.child_nodes@[j], first.child_nodes@[j]),
                forall|j: int| i <= j < self.child_nodes.len() ==> #[trigger] self.child_nodes@[j] == first.child_nodes@[j],
                mk == element_marks(predicate),
                det == element_test_deterministic(predicate),
                det ==> forall|j: int| 0 <= j < i ==> pruned(mk, first.child_nodes@[j], #[trigger] self.child_nodes@[j]),
                det ==> count as int == sat((count_marked(marked) + sum_removed(mk, first.child_nodes@, i as int)) as int),
                det ==> forall|t: int| 0 <= t < marked.len() ==> #[trigger] marked[t] == mk(start.children_v()[t]),
            decreases self.child_nodes.len() - i,
        {
            let ghost cur = self.child_nodes@;
            proof {
                lemma_unmarked_from(start.child_nodes@, marked, i as int);
                let idx = choose|idx: int| 0 <= idx < start.child_nodes@.len()
                    && #[trigger] start.child_nodes@[idx] == unmarked(start.child_nodes@, marked)[i as int];
                assert(decreases_to!(start => start.child_nodes@[idx]));
            }
            let ghost before_count = count;
            let ghost c0 = first.child_nodes@[i as int];
            match &mut self.child_nodes[i] {
                Node::Element(e) => {
                    let k = e.remove_all_elements(predicate);
                    count = if count <= usize::MAX - k { count + k } else { usize::MAX };
                    proof {
                        if det {
                            let a: int = (count_marked(marked) + sum_removed(mk, first.child_nodes@, i as int)) as int;
                            let b: int = removed_count(mk, c0) as int;
                            assert(before_count as int == sat(a));
                            assert(k as int == sat(b));
                            assert(count as int == sat(a + b));
                        }
                    }
                },
                _ => {},
            }
            proof {
                if det {
                    assert(sum_removed(mk, first.child_nodes@, i + 1)
                        == sum_removed(mk, first.child_nodes@, i as int) + removed_count(mk, c0));
                    if !(c0 is Element) {
                        assert(self.child_nodes@[i as int] == c0);
                        assert(removed_count(mk, c0) == 0);
                        assert(pruned(mk, c0, self.child_nodes@[i as int]));
                    }
                    assert forall|j: int| 0 <= j < i + 1 implies pruned(mk, first.child_nodes@[j], #[trigger] self.child_nodes@[j]) by {
                        if j < i {
                            assert(self.child_nodes@[j] == cur[j]);
                        }
                    }
                }
                assert(kept_shape(self.child_nodes@[i as int], first.child_nodes@[i as int]));
                assert forall|j: int| 0 <= j < i + 1 implies kept_shape(#[trigger] self.child_nodes@[j], first.child_nodes@[j]) by {
                    if j < i {
                        assert(self.child_nodes@[j] == cur[j]);
                    }
                }
            }
            i = i + 1;
        }
        proof {
            if det {
                lemma_pruned_whole(mk, Node::Element(start), Node::Element(*self), marked);
            }
        }
        count
    }
}

impl DomNodeType {
    /// The name of this node kind: `CDATA`, `Comment`, `Element` or `Text`.
    pub fn to_string(&self) -> (r: String)
        ensures
            *self is CDataNode ==> r@ == "CDATA"@,
            *self is CommentNode ==> r@ == "Comment"@,
            *self is ElementNode ==> r@ == "Element"@,
            *self is TextNode ==> r@ == "Text"@,
    {
        match self {
            DomNodeType::CDataNode => owned("CDATA"),
            DomNodeType::CommentNode => owned("Comment"),
            DomNodeType::ElementNode => owned("Element"),
            DomNodeType::TextNode => owned("Text"),
        }
    }
}


/// `v` is the tree that slot `j` of an arena describes, with only its first
/// `k` children checked: `heads[j]` is the node itself, children aside, and
/// `kids(j)` lists the slots of its children in order.
pub open spec fn assembled_upto(v: Node, heads: Seq<Node>, kids: spec_fn(int) -> Seq<int>, j: int, k: int) -> bool
    decreases v, k,
{
    0 <= j < heads.len() && match v {
        Node::Element(e) => heads[j] is Element && if 0 < k <= e.children_v().len() {
            let c = e.children_v()[k - 1];
            &&& assembled_upto(v, heads, kids, j, k - 1)
            &&& k - 1 < kids(j).len()
            &&& assembled_upto(c, heads, kids, kids(j)[k - 1], child_count(c))
        } else {
            same_but_children(e, heads[j]->Element_0) && e.children_v().len() == kids(j).len()
        },
        _ => v == heads[j] && kids(j).len() == 0,
    }
}

/// `v` is the tree that slot `j` of an arena describes (see
/// `assembled_upto`).
pub open spec fn assembled(v: Node, heads: Seq<Node>, kids: spec_fn(int) -> Seq<int>, j: int) -> bool {
    assembled_upto(v, heads, kids, j, child_count(v))
}

proof fn lemma_assembled_upto(v: Node, heads: Seq<Node>, kids: spec_fn(int) -> Seq<int>, j: int, k: int)
    requires
        v is Element,
        0 <= j < heads.len(),
        heads[j] is Element,
        same_but_children(v->Element_0, heads[j]->Element_0),
        v->Element_0.children_v().len() == kids(j).len(),
        0 <= k <= v->Element_0.children_v().len(),
        forall|m: int| 0 <= m < v->Element_0.children_v().len()
            ==> assembled(#[trigger] v->Element_0.children_v()[m], heads, kids, kids(j)[m]),
    ensures
        assembled_upto(v, heads, kids, j, k),
    decreases k,
{
    if k > 0 {
        lemma_assembled_upto(v, heads, kids, j, k - 1);
        assert(assembled(v->Element_0.children_v()[k - 1], heads, kids, kids(j)[k - 1]));
    }
}

/// An element is the tree that slot `j` describes when it has slot `j`'s
/// head and each child is the tree of the matching child slot.
pub proof fn lemma_assembled_from_children(v: Node, heads: Seq<Node>, kids: spec_fn(int) -> Seq<int>, j: int)
    requires
        v is Element,
        0 <= j < heads.len(),
        heads[j] is Element,
        same_but_children(v->Element_0, heads[j]->Element_0),
        v->Element_0.children_v().len() == kids(j).len(),
        forall|m: int| 0 <= m < v->Element_0.children_v().len()
            ==> assembled(#[trigger] v->Element_0.children_v()[m], heads, kids, kids(j)[m]),
    ensures
        assembled(v, heads, kids, j),
{
    lemma_assembled_upto(v, heads, kids, j, v->Element_0.children_v().len() as int);
}

/// A node other than an element is the tree of a slot that holds it and
/// has no child slots.
pub proof fn lemma_assembled_leaf(v: Node, heads: Seq<Node>, kids: spec_fn(int) -> Seq<int>, j: int)
    requires
        !(v is Element),
        0 <= j < heads.len(),
        v == heads[j],
        kids(j).len() == 0,
    ensures
        assembled(v, heads, kids, j),
{
}


/// No two text pieces of `s` stand next to each other.
pub open spec fn texts_separated(s: Seq<Piece>) -> bool {
    forall|i: int| 0 <= i < s.len() - 1 ==> !((#[trigger] s[i]) is Txt && s[i + 1] is Txt)
}

/// No piece of `s` is a white-space-only text.
pub open spec fn no_blank_text(s: Seq<Piece>) -> bool {
    forall|i: int| 0 <= i < s.len() ==> !is_blank(#[trigger] s[i])
}

proof fn lemma_merge_separates(s: Seq<Piece>)
    ensures
        texts_separated(merge_texts(s)),
        s.len() > 0 ==> merge_texts(s).len() > 0 && (merge_texts(s).last() is Txt <==> s.last() is Txt),
    decreases s.len(),
{
    if s.len() > 0 {
        lemma_merge_separates(s.drop_last());
        let r = merge_texts(s.drop_last());
        let m = merge_texts(s);
        match s.last() {
            Piece::Txt(t) => {
                if r.len() > 0 && r.last() is Txt {
                    let r2 = r.drop_last();
                    assert(m == r2.push(Piece::Txt(r.last()->Txt_0 + t)));
                    assert forall|i: int| 0 <= i < m.len() - 1 implies !((#[trigger] m[i]) is Txt && m[i + 1] is Txt) by {
                        assert(m[i] == r[i]);
                        if i + 1 < m.len() - 1 {
                            assert(m[i + 1] == r[i + 1]);
                        } else {
                            assert(r.len() >= 2);
                            assert(!(r[r.len() - 2] is Txt && r[r.len() - 1] is Txt));
                        }
                    }
                } else {
                    assert(m == r.push(Piece::Txt(t)));
                    assert forall|i: int| 0 <= i < m.len() - 1 implies !((#[trigger] m[i]) is Txt && m[i + 1] is Txt) by {
                        assert(m[i] == r[i]);
                        if i + 1 < m.len() - 1 {
                            assert(m[i + 1] == r[i + 1]);
                        }
                    }
                }
            },
            Piece::Other(n) => {
                assert(m == r.push(Piece::Other(n)));
                assert forall|i: int| 0 <= i < m.len() - 1 implies !((#[trigger] m[i]) is Txt && m[i + 1] is Txt) by {
                    assert(m[i] == r[i]);
                    if i + 1 < m.len() - 1 {
                        assert(m[i + 1] == r[i + 1]);
                    }
                }
            },
        }
    }
}

proof fn lemma_drop_blanks_keeps(s: Seq<Piece>)
    requires
        texts_separated(s),
    ensures
        texts_separated(drop_blanks(s)),
        no_blank_text(drop_blanks(s)),
        s.len() > 0 && !is_blank(s.last()) ==> drop_blanks(s).len() > 0 && drop_blanks(s).last() == s.last(),
        drop_blanks(s).len() > 0 ==> s.len() > 0 && (drop_blanks(s).last() is Txt ==> exists|k: int|
            0 <= k < s.len() && s[k] == drop_blanks(s).last() && forall|j: int| k < j < s.len() ==> is_blank(#[trigger] s[j])),
    decreases s.len(),
{
    if s.len() > 0 {
        let t = s.drop_last();
        assert forall|i: int| 0 <= i < t.len() - 1 implies !((#[trigger] t[i]) is Txt && t[i + 1] is Txt) by {
            assert(t[i] == s[i] && t[i + 1] == s[i + 1]);
        }
        lemma_drop_blanks_keeps(t);
        let r = drop_blanks(t);
        let d = drop_blanks(s);
        if is_blank(s.last()) {
            assert(d == r);
            if d.len() > 0 && d.last() is Txt {
                let k = choose|k: int| 0 <= k < t.len() && t[k] == r.last() && forall|j: int| k < j < t.len() ==> is_blank(#[trigger] t[j]);
                assert(s[k] == d.last());
                assert forall|j: int| k < j < s.len() implies is_blank(#[trigger] s[j]) by {
                    if j < t.len() {
                        assert(t[j] == s[j]);
                    }
                }
            }
        } else {
            assert(d == r.push(s.last()));
            if r.len() > 0 && r.last() is Txt && s.last() is Txt {
                let k = choose|k: int| 0 <= k < t.len() && t[k] == r.last() && forall|j: int| k < j < t.len() ==> is_blank(#[trigger] t[j]);
                if k < t.len() - 1 {
                    assert(is_blank(t[t.len() - 1]));
                    assert(t[t.len() - 1] == s[s.len() - 2]);
                    assert(!(s[s.len() - 2] is Txt && s[s.len() - 1] is Txt));
                } else {
                    assert(s[s.len() - 2] == t[k]);
                    assert(!(s[s.len() - 2] is Txt && s[s.len() - 1] is Txt));
                }
            }
            assert forall|i: int| 0 <= i < d.len() - 1 implies !((#[trigger] d[i]) is Txt && d[i + 1] is Txt) by {
                assert(d[i] == r[i]);
                if i + 1 < d.len() - 1 {
                    assert(d[i + 1] == r[i + 1]);
                }
            }
            assert forall|i: int| 0 <= i < d.len() implies !is_blank(#[trigger] d[i]) by {
                if i < r.len() {
                    assert(d[i] == r[i]);
                }
            }
            if d.last() is Txt {
                assert(s[s.len() - 1] == d.last());
            }
        }
    }
}

/// The child list that insertion leaves behind keeps the DOM invariant: no
/// two text children stand next to each other and no text child is white
/// space only. (`append`, `append_all`, `insert` and `set_text` leave the
/// children equal to some `normalized(..)`.)
pub proof fn law_normalized_children(s: Seq<Piece>)
    ensures
        texts_separated(normalized(s)),
        no_blank_text(normalized(s)),
{
    lemma_merge_separates(s);
    lemma_drop_blanks_keeps(merge_texts(s));
}


impl Default for Element {
    /// An element named `x`, with nothing else.
    fn default() -> (r: Element)
        ensures
            r.name_v() == seq!['x'],
            r.children_v().len() == 0,
            r.attributes_v().len() == 0,
            r.namespace_v() is None,
            r.prefix_v() is None,
            r.context_v().len() == 0,
    {
        let mut name = String::new();
        name.push('x');
        Element {
            name,
            child_nodes: Vec::new(),
            attributes: Vec::new(),
            xmlns: None,
            xmlns_prefix: None,
            xmlns_context: Vec::new(),
        }
    }
}


impl Element {
    /// The child element at position `index` among the child elements, for
    /// editing in place; fails if there are not that many.
    pub fn child_element_mut(&mut self, index: usize) -> (r: Result<&mut Element, IndexOutOfBounds>)
        ensures
            r is Err <==> nth_element_from(old(self).children_v(), index as int, 0) == -1,
            r is Ok ==> ({
                let k = nth_element_from(old(self).children_v(), index as int, 0);
                &&& old(self).children_v()[k] == Node::Element(*r->Ok_0)
                &&& final(self).children_v() == old(self).children_v().update(k, Node::Element(*final(r->Ok_0)))
            }),
            r is Err ==> *final(self) == *old(self),
            same_but_children(*final(self), *old(self)),
    {
        let mut i: usize = 0;
        let mut left: usize = index;
        while i < self.child_nodes.len()
            invariant
                i <= self.child_nodes.len(),
                nth_element_from(self.child_nodes@, index as int, 0) == nth_element_from(self.child_nodes@, left as int, i as int),
            ensures
                i < self.child_nodes.len() ==> self.child_nodes@[i as int] is Element && left == 0,
                nth_element_from(self.child_nodes@, index as int, 0) == nth_element_from(self.child_nodes@, left as int, i as int),
            decreases self.child_nodes.len() - i,
        {
            if self.child_nodes[i].is_element() {
                if left == 0 {
                    break;
                }
                left = left - 1;
            }
            i = i + 1;
        }
        if i >= self.child_nodes.len() {
            return Err(IndexOutOfBounds::new(clamp_isize(index), None));
        }
        match &mut self.child_nodes[i] {
            Node::Element(e) => Ok(e),
            _ => Err(IndexOutOfBounds::new(clamp_isize(index), None)),
        }
    }
}


proof fn lemma_same_upto_sym(a: Node, b: Node, k: int)
    requires
        same_upto(a, b, k),
        0 <= k <= child_count(a),
    ensures
        same_upto(b, a, k),
    decreases a, k,
{
    if a is Element && k > 0 {
        lemma_same_upto_sym(a, b, k - 1);
        let c = a->Element_0.children_v()[k - 1];
        let d = b->Element_0.children_v()[k - 1];
        assert(decreases_to!(a => c));
        assert(same_upto(c, d, child_count(c)));
        if c is Element {
            assert(d is Element);
            lemma_same_upto_head(c, d, child_count(c));
        }
        lemma_same_upto_sym(c, d, child_count(c));
        lemma_same_upto_head(a, b, k);
    } else if a is Element {
        lemma_same_upto_head(a, b, k);
    }
}

/// Structural equality is symmetric.
pub proof fn law_same_node_symmetric(a: Node, b: Node)
    requires
        same_node(a, b),
    ensures
        same_node(b, a),
{
    if a is Element {
        lemma_same_upto_head(a, b, child_count(a));
    }
    lemma_same_upto_sym(a, b, child_count(a));
}

proof fn lemma_same_upto_refl(a: Node, k: int)
    requires
        0 <= k <= child_count(a),
    ensures
        same_upto(a, a, k),
    decreases a, k,
{
    if a is Element && k > 0 {
        lemma_same_upto_refl(a, k - 1);
        let c = a->Element_0.children_v()[k - 1];
        assert(decreases_to!(a => c));
        lemma_same_upto_refl(c, child_count(c));
    }
}

/// Structural equality is reflexive.
pub proof fn law_same_node_reflexive(a: Node)
    ensures
        same_node(a, a),
{
    lemma_same_upto_refl(a, child_count(a));
}

/// Appending one text node after a text child merges the two: when the
/// last child is a text `t` and `append` adds a text `u` whose join with
/// `t` is not white space only, the children are the old ones with `t`
/// replaced by `t + u`. (The hypotheses are what `append` ensures, on a
/// normalized child list.) Repeated, this merges a run of appended texts
/// into one.
pub proof fn law_append_text_merges(before: Element, after: Element, u: Node, m: Node)
    requires
        u is Text,
        before.children_v().len() > 0,
        before.children_v().last() is Text,
        texts_separated(pieces(before.children_v())),
        no_blank_text(pieces(before.children_v())),
        attached(m, u, before),
        pieces(after.children_v()) == normalized(pieces(before.children_v().push(m))),
        !is_blank(Piece::Txt(before.children_v().last()->Text_0.content@ + u->Text_0.content@)),
    ensures
        pieces(after.children_v()) == pieces(before.children_v()).drop_last().push(
            Piece::Txt(before.children_v().last()->Text_0.content@ + u->Text_0.content@)),
{
    let s0 = pieces(before.children_v());
    let t = before.children_v().last()->Text_0.content@;
    assert(m == u);
    assert(pieces(before.children_v().push(m)) =~= s0.push(Piece::Txt(u->Text_0.content@)));
    lemma_merge_identity(s0);
    assert(s0.last() == Piece::Txt(t));
    let x = Piece::Txt(t + u->Text_0.content@);
    assert(merge_texts(s0.push(Piece::Txt(u->Text_0.content@))) == s0.drop_last().push(x)) by {
        assert(s0.push(Piece::Txt(u->Text_0.content@)).drop_last() =~= s0);
    }
    assert forall|i: int| 0 <= i < s0.drop_last().len() implies !is_blank(#[trigger] s0.drop_last()[i]) by {
        assert(s0.drop_last()[i] == s0[i]);
    }
    lemma_drop_blanks_identity(s0.drop_last());
    assert(s0.drop_last().push(x).drop_last() =~= s0.drop_last());
}

proof fn lemma_merge_identity(s: Seq<Piece>)
    requires
        texts_separated(s),
    ensures
        merge_texts(s) == s,
    decreases s.len(),
{
    if s.len() > 0 {
        let t = s.drop_last();
        assert forall|i: int| 0 <= i < t.len() - 1 implies !((#[trigger] t[i]) is Txt && t[i + 1] is Txt) by {
            assert(t[i] == s[i] && t[i + 1] == s[i + 1]);
        }
        lemma_merge_identity(t);
        if s.len() > 1 {
            assert(!(s[s.len() - 2] is Txt && s[s.len() - 1] is Txt));
            assert(t.last() == s[s.len() - 2]);
        }
        assert(t.push(s.last()) =~= s);
    }
}

proof fn lemma_drop_blanks_identity(s: Seq<Piece>)
    requires
        forall|i: int| 0 <= i < s.len() ==> !is_blank(#[trigger] s[i]),
    ensures
        drop_blanks(s) == s,
    decreases s.len(),
{
    if s.len() > 0 {
        let t = s.drop_last();
        assert forall|i: int| 0 <= i < t.len() implies !is_blank(#[trigger] t[i]) by {
            assert(t[i] == s[i]);
        }
        lemma_drop_blanks_identity(t);
        assert(!is_blank(s[s.len() - 1]));
        assert(t.push(s.last()) =~= s);
    }
}


/// What a node is, children aside, as the parser describes it.
pub enum HeadV {
    Elem {
        name: Seq<char>,
        prefix: Option<Seq<char>>,
        attrs: Seq<(Seq<char>, Seq<char>)>,
        ns: Option<Seq<char>>,
        ctx: Seq<(Seq<char>, Seq<char>)>,
    },
    Txt(Seq<char>),
    Com(Seq<char>),
    Cd(Seq<char>),
}

/// Node `n` is, children aside, what `h` describes.
pub open spec fn head_matches(n: Node, h: HeadV) -> bool {
    match n {
        Node::Element(e) => match h {
            HeadV::Elem { name, prefix, attrs, ns, ctx } => e.name_v() == name && e.prefix_v() == prefix
                && e.attributes_v() == attrs && e.namespace_v() == ns && e.context_v() == ctx,
            _ => false,
        },
        Node::Text(t) => h == HeadV::Txt(t.content@),
        Node::Comment(c) => h == HeadV::Com(c.content()),
        Node::CData(c) => h == HeadV::Cd(c.content()),
    }
}

/// `v` is the tree that entry `j` of a list of node descriptions gives,
/// with only its first `k` children checked: `heads[j]` describes the node,
/// `kids(j)` lists the entries of its children in order.
pub open spec fn assembled_v(v: Node, heads: Seq<HeadV>, kids: spec_fn(int) -> Seq<int>, j: int, k: int) -> bool
    decreases v, k,
{
    0 <= j < heads.len() && head_matches(v, heads[j]) && match v {
        Node::Element(e) => if 0 < k <= e.children_v().len() {
            let c = e.children_v()[k - 1];
            &&& assembled_v(v, heads, kids, j, k - 1)
            &&& k - 1 < kids(j).len()
            &&& assembled_v(c, heads, kids, kids(j)[k - 1], child_count(c))
        } else {
            e.children_v().len() == kids(j).len()
        },
        _ => kids(j).len() == 0,
    }
}

/// A tree assembled from arena slots is the tree their descriptions give.
pub proof fn lemma_assembled_to_views(
    v: Node,
    heads: Seq<Node>,
    kids: spec_fn(int) -> Seq<int>,
    hv: Seq<HeadV>,
    kv: spec_fn(int) -> Seq<int>,
    j: int,
    k: int,
)
    requires
        assembled_upto(v, heads, kids, j, k),
        heads.len() == hv.len(),
        forall|i: int| 0 <= i < heads.len() ==> head_matches(#[trigger] heads[i], hv[i]),
        forall|i: int| #[trigger] kids(i) == kv(i),
        0 <= k <= child_count(v),
    ensures
        assembled_v(v, hv, kv, j, k),
    decreases v, k,
{
    assert(head_matches(heads[j], hv[j]));
    if v is Element && k > 0 {
        lemma_assembled_to_views(v, heads, kids, hv, kv, j, k - 1);
        let c = v->Element_0.children_v()[k - 1];
        assert(decreases_to!(v => c));
        assert(kids(j) == kv(j));
        lemma_assembled_to_views(c, heads, kids, hv, kv, kids(j)[k - 1], child_count(c));
    } else if v is Element {
        lemma_assembled_head(v, heads, kids, j, k);
        assert(kids(j) == kv(j));
    } else {
        assert(kids(j) == kv(j));
    }
}

proof fn lemma_assembled_head(v: Node, heads: Seq<Node>, kids: spec_fn(int) -> Seq<int>, j: int, k: int)
    requires
        assembled_upto(v, heads, kids, j, k),
        v is Element,
        0 <= k <= child_count(v),
    ensures
        heads[j] is Element && same_but_children(v->Element_0, heads[j]->Element_0)
            && v->Element_0.children_v().len() == kids(j).len(),
    decreases k,
{
    if k > 0 {
        lemma_assembled_head(v, heads, kids, j, k - 1);
    }
}


/// The attribute list is in serialization order with no key twice: each
/// key comes strictly before the next ones (see `attr_before`).
pub open spec fn attrs_sorted(s: Seq<(Seq<char>, Seq<char>)>) -> bool {
    forall|i: int, j: int| 0 <= i < j < s.len() ==> attr_before(#[trigger] s[i].0, #[trigger] s[j].0)
}

proof fn lemma_lex_irrefl(a: Seq<char>)
    ensures
        !lex_less(a, a),
    decreases a.len(),
{
    if a.len() > 0 {
        lemma_lex_irrefl(a.skip(1));
    }
}

proof fn lemma_lex_total(a: Seq<char>, b: Seq<char>)
    requires
        a != b,
    ensures
        lex_less(a, b) || lex_less(b, a),
    decreases a.len(),
{
    if a.len() > 0 && b.len() > 0 && a[0] == b[0] {
        if a.skip(1) == b.skip(1) {
            assert(a =~= seq![a[0]] + a.skip(1));
            assert(b =~= seq![b[0]] + b.skip(1));
        }
        lemma_lex_total(a.skip(1), b.skip(1));
    } else if a.len() == 0 && b.len() == 0 {
        assert(a =~= b);
    }
}

proof fn lemma_lex_trans(a: Seq<char>, b: Seq<char>, c: Seq<char>)
    requires
        lex_less(a, b),
        lex_less(b, c),
    ensures
        lex_less(a, c),
    decreases a.len(),
{
    if a.len() > 0 && b.len() > 0 && c.len() > 0 && a[0] == b[0] && b[0] == c[0] {
        lemma_lex_trans(a.skip(1), b.skip(1), c.skip(1));
    }
}

proof fn lemma_before_total(a: Seq<char>, b: Seq<char>)
    requires
        a != b,
    ensures
        attr_before(a, b) || attr_before(b, a),
{
    lemma_lex_total(a, b);
}

proof fn lemma_before_trans(a: Seq<char>, b: Seq<char>, c: Seq<char>)
    requires
        attr_before(a, b),
        attr_before(b, c),
    ensures
        attr_before(a, c),
{
    if is_xmlns_key(a) == is_xmlns_key(b) && is_xmlns_key(b) == is_xmlns_key(c) {
        lemma_lex_trans(a, b, c);
    }
}

proof fn lemma_insert_attr_keys(s: Seq<(Seq<char>, Seq<char>)>, k: Seq<char>, v: Seq<char>, i: int)
    requires
        0 <= i < insert_attr(s, k, v).len(),
    ensures
        insert_attr(s, k, v)[i].0 == k || exists|j: int| 0 <= j < s.len() && #[trigger] s[j].0 == insert_attr(s, k, v)[i].0,
    decreases s.len(),
{
    if s.len() > 0 && s[0].0 != k && attr_before(s[0].0, k) {
        if i > 0 {
            lemma_insert_attr_keys(s.skip(1), k, v, i - 1);
            let r = insert_attr(s, k, v);
            assert(r[i] == insert_attr(s.skip(1), k, v)[i - 1]);
            if r[i].0 != k {
                let j = choose|j: int| 0 <= j < s.skip(1).len() && #[trigger] s.skip(1)[j].0 == r[i].0;
                assert(s[j + 1].0 == r[i].0);
            }
        } else {
            assert(s[0].0 == insert_attr(s, k, v)[0].0);
        }
    } else if s.len() > 0 && s[0].0 == k {
        if i > 0 {
            assert(s[i].0 == insert_attr(s, k, v)[i].0);
        }
    } else if s.len() > 0 {
        if i > 0 {
            assert(s[i - 1].0 == insert_attr(s, k, v)[i].0);
        }
    }
}

/// Setting an attribute keeps the attribute list in order with no key
/// twice (see `attrs_sorted`).
pub proof fn law_insert_attr_sorted(s: Seq<(Seq<char>, Seq<char>)>, k: Seq<char>, v: Seq<char>)
    requires
        attrs_sorted(s),
    ensures
        attrs_sorted(insert_attr(s, k, v)),
    decreases s.len(),
{
    let r = insert_attr(s, k, v);
    if s.len() == 0 {
    } else if s[0].0 == k {
        assert forall|i: int, j: int| 0 <= i < j < r.len() implies attr_before(#[trigger] r[i].0, #[trigger] r[j].0) by {
            assert(r[i].0 == s[i].0 && r[j].0 == s[j].0);
        }
    } else if attr_before(s[0].0, k) {
        let t = s.skip(1);
        assert forall|i: int, j: int| 0 <= i < j < t.len() implies attr_before(#[trigger] t[i].0, #[trigger] t[j].0) by {
            assert(t[i] == s[i + 1] && t[j] == s[j + 1]);
        }
        law_insert_attr_sorted(t, k, v);
        assert forall|i: int, j: int| 0 <= i < j < r.len() implies attr_before(#[trigger] r[i].0, #[trigger] r[j].0) by {
            if i == 0 {
                assert(r[j] == insert_attr(t, k, v)[j - 1]);
                lemma_insert_attr_keys(t, k, v, j - 1);
                if r[j].0 != k {
                    let m = choose|m: int| 0 <= m < t.len() && #[trigger] t[m].0 == insert_attr(t, k, v)[j - 1].0;
                    assert(s[m + 1].0 == r[j].0);
                    assert(attr_before(s[0].0, s[m + 1].0));
                }
            } else {
                assert(r[i] == insert_attr(t, k, v)[i - 1]);
                assert(r[j] == insert_attr(t, k, v)[j - 1]);
            }
        }
    } else {
        lemma_before_total(s[0].0, k);
        assert forall|i: int, j: int| 0 <= i < j < r.len() implies attr_before(#[trigger] r[i].0, #[trigger] r[j].0) by {
            if i == 0 {
                assert(r[j] == s[j - 1]);
                if j - 1 > 0 {
                    assert(attr_before(s[0].0, s[j - 1].0));
                    lemma_before_trans(k, s[0].0, s[j - 1].0);
                }
            } else {
                assert(r[i] == s[i - 1] && r[j] == s[j - 1]);
            }
        }
    }
}

/// Attributes set one after the other into an ordered list stay ordered;
/// in particular every element that `Element::new` or the parser builds
/// has its attributes in order with no key twice.
pub proof fn law_insert_attrs_sorted(acc: Seq<(Seq<char>, Seq<char>)>, s: Seq<(Seq<char>, Seq<char>)>)
    requires
        attrs_sorted(acc),
    ensures
        attrs_sorted(insert_attrs(acc, s)),
    decreases s.len(),
{
    if s.len() > 0 {
        law_insert_attrs_sorted(acc, s.drop_last());
        law_insert_attr_sorted(insert_attrs(acc, s.drop_last()), s.last().0, s.last().1);
    }
}

/// Removing an attribute keeps the list ordered.
pub proof fn law_remove_key_sorted(s: Seq<(Seq<char>, Seq<char>)>, k: Seq<char>)
    requires
        attrs_sorted(s),
    ensures
        attrs_sorted(remove_key(s, k)),
    decreases s.len(),
{
    if s.len() > 0 && s[0].0 != k {
        let t = s.skip(1);
        assert forall|i: int, j: int| 0 <= i < j < t.len() implies attr_before(#[trigger] t[i].0, #[trigger] t[j].0) by {
            assert(t[i] == s[i + 1] && t[j] == s[j + 1]);
        }
        law_remove_key_sorted(t, k);
        lemma_remove_key_sub(t, k);
        let r = remove_key(s, k);
        assert forall|i: int, j: int| 0 <= i < j < r.len() implies attr_before(#[trigger] r[i].0, #[trigger] r[j].0) by {
            if i == 0 {
                assert(r[j] == remove_key(t, k)[j - 1]);
                let m = choose|m: int| 0 <= m < t.len() && #[trigger] t[m] == remove_key(t, k)[j - 1];
                assert(s[m + 1] == r[j]);
            } else {
                assert(r[i] == remove_key(t, k)[i - 1]);
                assert(r[j] == remove_key(t, k)[j - 1]);
            }
        }
    } else if s.len() > 0 {
        let r = remove_key(s, k);
        assert forall|i: int, j: int| 0 <= i < j < r.len() implies attr_before(#[trigger] r[i].0, #[trigger] r[j].0) by {
            assert(r[i] == s[i + 1] && r[j] == s[j + 1]);
        }
    }
}

proof fn lemma_remove_key_sub(s: Seq<(Seq<char>, Seq<char>)>, k: Seq<char>)
    ensures
        forall|i: int| 0 <= i < remove_key(s, k).len() ==> exists|m: int| 0 <= m < s.len() && #[trigger] s[m] == #[trigger] remove_key(s, k)[i],
    decreases s.len(),
{
    if s.len() > 0 {
        let t = s.skip(1);
        lemma_remove_key_sub(t, k);
        let r = remove_key(s, k);
        assert forall|i: int| 0 <= i < r.len() implies exists|m: int| 0 <= m < s.len() && #[trigger] s[m] == #[trigger] r[i] by {
            if s[0].0 == k {
                assert(s[i + 1] == r[i]);
            } else if i == 0 {
                assert(s[0] == r[0]);
            } else {
                assert(r[i] == remove_key(t, k)[i - 1]);
                let m = choose|m: int| 0 <= m < t.len() && #[trigger] t[m] == #[trigger] remove_key(t, k)[i - 1];
                assert(s[m + 1] == r[i]);
            }
        }
    }
}


/// `x` capped at `usize::MAX`.
pub open spec fn sat(x: int) -> int {
    if x <= usize::MAX { x } else { usize::MAX as int }
}

/// How many subtrees removing the nodes that `m` marks detaches from the
/// first `i` children of `a`: one per marked child, plus what goes from
/// inside each unmarked one.
pub open spec fn removed_upto(m: spec_fn(Node) -> bool, a: Node, i: int) -> nat
    decreases a, i,
{
    match a {
        Node::Element(x) => if 0 < i <= x.children_v().len() {
            let c = x.children_v()[i - 1];
            removed_upto(m, a, i - 1) + if m(c) { 1nat } else { removed_upto(m, c, child_count(c)) }
        } else {
            0
        },
        _ => 0,
    }
}

/// How many subtrees removing the nodes that `m` marks detaches below `a`.
pub open spec fn removed_count(m: spec_fn(Node) -> bool, a: Node) -> nat {
    removed_upto(m, a, child_count(a))
}

/// `b` is `a` with every node that `m` marks removed, at every depth, the
/// rest kept in order; only the first `i` children of `a` and the first
/// `j` of `b` are compared.
pub open spec fn pruned_upto(m: spec_fn(Node) -> bool, a: Node, b: Node, i: int, j: int) -> bool
    decreases a, i,
{
    match a {
        Node::Element(x) => b is Element && same_but_children(b->Element_0, x)
            && 0 <= j <= b->Element_0.children_v().len() && if 0 < i <= x.children_v().len() {
                let c = x.children_v()[i - 1];
                if m(c) {
                    pruned_upto(m, a, b, i - 1, j)
                } else {
                    let d = b->Element_0.children_v()[j - 1];
                    j > 0 && pruned_upto(m, c, d, child_count(c), child_count(d)) && pruned_upto(m, a, b, i - 1, j - 1)
                }
            } else {
                i <= 0 && j == 0
            },
        _ => b == a,
    }
}

/// `b` is `a` with every node that `m` marks removed, at every depth.
pub open spec fn pruned(m: spec_fn(Node) -> bool, a: Node, b: Node) -> bool {
    pruned_upto(m, a, b, child_count(a), child_count(b))
}

/// The total of `removed_count` over the first `i` of `ks`.
pub open spec fn sum_removed(m: spec_fn(Node) -> bool, ks: Seq<Node>, i: int) -> nat
    decreases i,
{
    if 0 < i <= ks.len() { sum_removed(m, ks, i - 1) + removed_count(m, ks[i - 1]) } else { 0 }
}

proof fn lemma_unmarked_prefix(s: Seq<Node>, marks: Seq<bool>, i: int)
    requires
        marks.len() == s.len(),
        0 <= i <= s.len(),
    ensures
        unmarked(s.take(i), marks.take(i)).len() <= unmarked(s, marks).len(),
        forall|t: int| 0 <= t < unmarked(s.take(i), marks.take(i)).len()
            ==> #[trigger] unmarked(s.take(i), marks.take(i))[t] == unmarked(s, marks)[t],
    decreases s.len() - i,
{
    if i < s.len() {
        lemma_unmarked_prefix(s, marks, i + 1);
        assert(s.take(i + 1).drop_last() =~= s.take(i));
        assert(marks.take(i + 1).drop_last() =~= marks.take(i));
        assert(s.take(i + 1).last() == s[i]);
        assert(marks.take(i + 1).last() == marks[i]);
        let u0 = unmarked(s.take(i), marks.take(i));
        let u1 = unmarked(s.take(i + 1), marks.take(i + 1));
        assert(u1 == if marks[i] { u0 } else { u0.push(s[i]) });
        assert forall|t: int| 0 <= t < u0.len() implies #[trigger] u0[t] == unmarked(s, marks)[t] by {
            assert(u0[t] == u1[t]);
        }
    } else {
        assert(s.take(i) =~= s);
        assert(marks.take(i) =~= marks);
    }
}

/// Putting a pruned element together from its top-level pass (children
/// `marks` marks removed) and its pruned children, and counting.
proof fn lemma_pruned_assemble(m: spec_fn(Node) -> bool, a: Node, b: Node, marks: Seq<bool>, i: int)
    requires
        a is Element,
        b is Element,
        same_but_children(b->Element_0, a->Element_0),
        marks.len() == a->Element_0.children_v().len(),
        forall|t: int| 0 <= t < marks.len() ==> #[trigger] marks[t] == m(a->Element_0.children_v()[t]),
        b->Element_0.children_v().len() == unmarked(a->Element_0.children_v(), marks).len(),
        forall|t: int| 0 <= t < b->Element_0.children_v().len() ==> pruned(m,
            unmarked(a->Element_0.children_v(), marks)[t], #[trigger] b->Element_0.children_v()[t]),
        0 <= i <= marks.len(),
    ensures
        pruned_upto(m, a, b, i, unmarked(a->Element_0.children_v().take(i), marks.take(i)).len() as int),
        removed_upto(m, a, i) == count_marked(marks.take(i)) + sum_removed(m, unmarked(a->Element_0.children_v(), marks),
            unmarked(a->Element_0.children_v().take(i), marks.take(i)).len() as int),
    decreases i,
{
    let s = a->Element_0.children_v();
    let kept = unmarked(s, marks);
    lemma_unmarked_prefix(s, marks, i);
    if i > 0 {
        lemma_pruned_assemble(m, a, b, marks, i - 1);
        lemma_unmarked_prefix(s, marks, i - 1);
        assert(s.take(i).drop_last() =~= s.take(i - 1));
        assert(marks.take(i).drop_last() =~= marks.take(i - 1));
        assert(s.take(i).last() == s[i - 1]);
        assert(marks.take(i).last() == marks[i - 1]);
        let j0 = unmarked(s.take(i - 1), marks.take(i - 1)).len() as int;
        if !marks[i - 1] {
            assert(unmarked(s.take(i), marks.take(i)) == unmarked(s.take(i - 1), marks.take(i - 1)).push(s[i - 1]));
            assert(unmarked(s.take(i), marks.take(i))[j0] == kept[j0]);
            assert(kept[j0] == s[i - 1]);
            assert(pruned(m, kept[j0], b->Element_0.children_v()[j0]));
        }
    } else {
        assert(s.take(0).len() == 0);
        assert(marks.take(0).len() == 0);
    }
}

/// With the marks of the top-level pass, an element whose children are
/// pruned is pruned, and the count adds up.
proof fn lemma_pruned_whole(m: spec_fn(Node) -> bool, a: Node, b: Node, marks: Seq<bool>)
    requires
        a is Element,
        b is Element,
        same_but_children(b->Element_0, a->Element_0),
        marks.len() == a->Element_0.children_v().len(),
        forall|t: int| 0 <= t < marks.len() ==> #[trigger] marks[t] == m(a->Element_0.children_v()[t]),
        b->Element_0.children_v().len() == unmarked(a->Element_0.children_v(), marks).len(),
        forall|t: int| 0 <= t < b->Element_0.children_v().len() ==> pruned(m,
            unmarked(a->Element_0.children_v(), marks)[t], #[trigger] b->Element_0.children_v()[t]),
    ensures
        pruned(m, a, b),
        removed_count(m, a) == count_marked(marks) + sum_removed(m, unmarked(a->Element_0.children_v(), marks),
            unmarked(a->Element_0.children_v(), marks).len() as int),
{
    let s = a->Element_0.children_v();
    lemma_pruned_assemble(m, a, b, marks, marks.len() as int);
    assert(s.take(marks.len() as int) =~= s);
    assert(marks.take(marks.len() as int) =~= marks);
}

/// The nodes for which the predicate answers true.
pub open spec fn node_marks<P: Fn(&Node) -> bool>(p: &P) -> spec_fn(Node) -> bool {
    |n: Node| p.ensures((&n,), true)
}

/// The nodes that are elements for which the predicate answers true.
pub open spec fn element_marks<P: Fn(&Element) -> bool>(p: &P) -> spec_fn(Node) -> bool {
    |n: Node| n is Element && p.ensures((&n->Element_0,), true)
}

/// The predicate gives one answer per node.
pub open spec fn node_test_deterministic<P: Fn(&Node) -> bool>(p: &P) -> bool {
    forall|n: &Node, b1: bool, b2: bool| p.ensures((n,), b1) && p.ensures((n,), b2) ==> b1 == b2
}

/// The predicate gives one answer per element.
pub open spec fn element_test_deterministic<P: Fn(&Element) -> bool>(p: &P) -> bool {
    forall|e: &Element, b1: bool, b2: bool| p.ensures((e,), b1) && p.ensures((e,), b2) ==> b1 == b2
}

} // verus!
