//! The grammar of element tags: `<`, an optional `/`, an XML name, then
//! attributes `name="value"` or `name='value'` (one space is tolerated on
//! each side of `=`), optional white space, an optional `/`, and `>`.
use vstd::prelude::*;
use crate::chars::{chars_of, is_space, is_space_char, string_of};
use crate::codec::{find_char, find_char_exec};
use crate::dom::trimmed;
use crate::chars::occurs_at;
use crate::scanner::{is_quote, plus, quote_state, quoted_find};

verus! {

/// A character that may start an XML name.
pub open spec fn is_name_start(c: char) -> bool {
    c == ':' || ('A' <= c && c <= 'Z') || c == '_' || ('a' <= c && c <= 'z')
        || ('\u{C0}' <= c && c <= '\u{D6}') || ('\u{D8}' <= c && c <= '\u{F6}')
        || ('\u{F8}' <= c && c <= '\u{2FF}') || ('\u{370}' <= c && c <= '\u{37D}')
        || ('\u{37F}' <= c && c <= '\u{1FFF}') || ('\u{200C}' <= c && c <= '\u{200D}')
        || ('\u{2070}' <= c && c <= '\u{218F}') || ('\u{2C00}' <= c && c <= '\u{2FEF}')
        || ('\u{3001}' <= c && c <= '\u{D7FF}') || ('\u{F900}' <= c && c <= '\u{FDCF}')
        || ('\u{FDF0}' <= c && c <= '\u{FFFD}') || ('\u{10000}' <= c && c <= '\u{EFFFF}')
}

/// A character that may continue an XML name.
pub open spec fn is_name_char(c: char) -> bool {
    is_name_start(c) || c == '.' || c == '-' || ('0' <= c && c <= '9') || c == '\u{B7}'
        || ('\u{300}' <= c && c <= '\u{36F}') || ('\u{203F}' <= c && c <= '\u{2040}')
}

pub(crate) fn name_start_exec(c: char) -> (r: bool)
    ensures
        r == is_name_start(c),
{
    c == ':' || ('A' <= c && c <= 'Z') || c == '_' || ('a' <= c && c <= 'z')
        || ('\u{C0}' <= c && c <= '\u{D6}') || ('\u{D8}' <= c && c <= '\u{F6}')
        || ('\u{F8}' <= c && c <= '\u{2FF}') || ('\u{370}' <= c && c <= '\u{37D}')
        || ('\u{37F}' <= c && c <= '\u{1FFF}') || ('\u{200C}' <= c && c <= '\u{200D}')
        || ('\u{2070}' <= c && c <= '\u{218F}') || ('\u{2C00}' <= c && c <= '\u{2FEF}')
        || ('\u{3001}' <= c && c <= '\u{D7FF}') || ('\u{F900}' <= c && c <= '\u{FDCF}')
        || ('\u{FDF0}' <= c && c <= '\u{FFFD}') || ('\u{10000}' <= c && c <= '\u{EFFFF}')
}

pub(crate) fn name_char_exec(c: char) -> (r: bool)
    ensures
        r == is_name_char(c),
{
    name_start_exec(c) || c == '.' || c == '-' || ('0' <= c && c <= '9') || c == '\u{B7}'
        || ('\u{300}' <= c && c <= '\u{36F}') || ('\u{203F}' <= c && c <= '\u{2040}')
}

/// End of the run of name characters that starts at `i`.
pub open spec fn name_end(s: Seq<char>, i: int) -> int
    decreases s.len() - i,
{
    if 0 <= i < s.len() && is_name_char(s[i]) {
        name_end(s, i + 1)
    } else {
        i
    }
}

/// End of the run of white space that starts at `i`.
pub open spec fn space_end(s: Seq<char>, i: int) -> int
    decreases s.len() - i,
{
    if 0 <= i < s.len() && is_space(s[i]) {
        space_end(s, i + 1)
    } else {
        i
    }
}

/// For an attribute whose name starts at `j`: the index of the quote that
/// opens its value, or -1.
pub open spec fn value_start(s: Seq<char>, j: int) -> int {
    let m = name_end(s, j + 1);
    let m1 = if m < s.len() && s[m] == ' ' { m + 1 } else { m };
    if m1 < s.len() && s[m1] == '=' {
        let m2 = if m1 + 1 < s.len() && s[m1 + 1] == ' ' { m1 + 2 } else { m1 + 1 };
        if m2 < s.len() && is_quote(s[m2]) { m2 } else { -1 }
    } else {
        -1
    }
}

/// For an attribute that starts at `j`: the index just past its closing
/// quote, or -1 if no attribute starts there.
pub open spec fn attr_end(s: Seq<char>, j: int) -> int {
    if 0 <= j < s.len() && is_name_start(s[j]) && value_start(s, j) >= 0 {
        let q = value_start(s, j);
        plus(find_char(s, s[q], q + 1), 1)
    } else {
        -1
    }
}

/// `s[j..]` is `>` or `/>`.
pub open spec fn tag_tail(s: Seq<char>, j: int) -> bool {
    (j == s.len() - 1 && s[j] == '>') || (j == s.len() - 2 && s[j] == '/' && s[j + 1] == '>')
}

/// From `i` on, `s` is a list of attributes, each after white space, then
/// optional white space and `>` or `/>`.
pub open spec fn attrs_ok(s: Seq<char>, i: int) -> bool
    decreases s.len() - i,
{
    let j = space_end(s, i);
    if i < 0 || i > s.len() || j < i {
        false
    } else if tag_tail(s, j) {
        true
    } else if j == i {
        false
    } else {
        let k = attr_end(s, j);
        j < k <= s.len() && attrs_ok(s, k)
    }
}

/// The attributes (name, value) listed from `i` on.
pub open spec fn attr_list(s: Seq<char>, i: int) -> Seq<(Seq<char>, Seq<char>)>
    decreases s.len() - i,
{
    let j = space_end(s, i);
    if i < 0 || i > s.len() || j < i || tag_tail(s, j) || j == i {
        Seq::empty()
    } else {
        let k = attr_end(s, j);
        if j < k <= s.len() {
            seq![(s.subrange(j, name_end(s, j + 1)), s.subrange(value_start(s, j) + 1, k - 1))]
                + attr_list(s, k)
        } else {
            Seq::empty()
        }
    }
}

/// Where the element name of tag `s` starts: after `<` or `</`.
pub open spec fn name_start(s: Seq<char>) -> int {
    if s.len() > 1 && s[1] == '/' { 2 } else { 1 }
}

/// `s` is a well-formed element tag (start, end or empty-element tag).
pub open spec fn valid_element_tag(s: Seq<char>) -> bool {
    let i = name_start(s);
    s.len() >= 2 && s[0] == '<' && i < s.len() && is_name_start(s[i]) && attrs_ok(s, name_end(s, i + 1))
}

/// The parts of a well-formed element tag.
pub struct TagParts {
    /// The tag is an end tag `</...>`.
    pub closing: bool,
    /// The element name as written, prefix included.
    pub name: String,
    /// The attributes in the order written.
    pub attributes: Vec<(String, String)>,
    /// The tag ends with `/>`.
    pub self_closing: bool,
}

fn name_end_exec(s: &Vec<char>, i: usize) -> (r: usize)
    requires
        i <= s.len(),
    ensures
        r as int == name_end(s@, i as int),
        i <= r <= s.len(),
{
    let mut k = i;
    while k < s.len() && name_char_exec(s[k])
        invariant
            i <= k <= s.len(),
            name_end(s@, i as int) == name_end(s@, k as int),
        decreases s.len() - k,
    {
        k = k + 1;
    }
    k
}

fn space_end_exec(s: &Vec<char>, i: usize) -> (r: usize)
    requires
        i <= s.len(),
    ensures
        r as int == space_end(s@, i as int),
        i <= r <= s.len(),
{
    let mut k = i;
    while k < s.len() && is_space_char(s[k])
        invariant
            i <= k <= s.len(),
            space_end(s@, i as int) == space_end(s@, k as int),
        decreases s.len() - k,
    {
        k = k + 1;
    }
    k
}

/// For an attribute starting at `j`: the index of its opening quote and
/// the index just past its closing quote.
fn attr_end_exec(s: &Vec<char>, j: usize) -> (r: Option<(usize, usize)>)
    requires
        j <= s.len(),
    ensures
        r is None <==> attr_end(s@, j as int) == -1,
        r is Some ==> ({
            let (q, k) = r->0;
            q as int == value_start(s@, j as int) && k as int == attr_end(s@, j as int) && j < q && q + 1 < k <= s.len()
        }),
{
    if j >= s.len() || !name_start_exec(s[j]) {
        return None;
    }
    let m = name_end_exec(s, j + 1);
    let m1 = if m < s.len() && s[m] == ' ' { m + 1 } else { m };
    if !(m1 < s.len() && s[m1] == '=') {
        return None;
    }
    let m2 = if m1 + 1 < s.len() && s[m1 + 1] == ' ' { m1 + 2 } else { m1 + 1 };
    if !(m2 < s.len() && (s[m2] == '"' || s[m2] == '\'')) {
        return None;
    }
    match find_char_exec(s, s[m2], m2 + 1) {
        Some(c) => Some((m2, c + 1)),
        None => None,
    }
}

/// The parts of element tag `s`, or `None` if it is not well formed.
pub fn parse_tag(s: &Vec<char>) -> (r: Option<TagParts>)
    ensures
        r is Some <==> valid_element_tag(s@),
        r is Some ==> ({
            let p = r->0;
            let i = name_start(s@);
            &&& p.closing == (s@[1] == '/')
            &&& p.name@ == s@.subrange(i, name_end(s@, i + 1))
            &&& p.self_closing == (s@[s.len() - 2] == '/')
            &&& crate::dom::pairs_view(p.attributes@) == attr_list(s@, name_end(s@, i + 1))
        }),
{
    if s.len() < 2 || s[0] != '<' {
        return None;
    }
    let closing = s[1] == '/';
    let i: usize = if closing { 2 } else { 1 };
    if i >= s.len() || !name_start_exec(s[i]) {
        return None;
    }
    let n = name_end_exec(s, i + 1);
    let name = string_of(s, i, n);
    proof {
        assert(valid_element_tag(s@) == attrs_ok(s@, n as int));
    }
    let mut attrs: Vec<(String, String)> = Vec::new();
    let mut pos = n;
    proof {
        assert(crate::dom::pairs_view(attrs@) + attr_list(s@, pos as int) =~= attr_list(s@, pos as int));
    }
    loop
        invariant
            n <= pos <= s.len(),
            s.len() >= 2,
            i as int == name_start(s@),
            n as int == name_end(s@, i + 1),
            valid_element_tag(s@) == attrs_ok(s@, n as int),
            closing == (s@[1] == '/'),
            name@ == s@.subrange(i as int, n as int),
            attrs_ok(s@, n as int) == attrs_ok(s@, pos as int),
            crate::dom::pairs_view(attrs@) + attr_list(s@, pos as int) == attr_list(s@, n as int),
        decreases s.len() - pos,
    {
        let j = space_end_exec(s, pos);
        let tail = (j < s.len() && j == s.len() - 1 && s[j] == '>')
            || (s.len() >= 2 && j == s.len() - 2 && s[j] == '/' && s[j + 1] == '>');
        if tail {
            proof {
                assert(attr_list(s@, pos as int) == Seq::<(Seq<char>, Seq<char>)>::empty());
                assert(crate::dom::pairs_view(attrs@) =~= attr_list(s@, n as int));
            }
            return Some(TagParts { closing, name, attributes: attrs, self_closing: s[s.len() - 2] == '/' });
        }
        if j == pos {
            return None;
        }
        match attr_end_exec(s, j) {
            None => { return None; },
            Some((q, k)) => {
                let key_end = name_end_exec(s, j + 1);
                let key = string_of(s, j, key_end);
                let value = string_of(s, q + 1, k - 1);
                let ghost before = attrs@;
                attrs.push((key, value));
                proof {
                    assert(crate::dom::pairs_view(attrs@) =~= crate::dom::pairs_view(before).push((key@, value@)));
                    assert(crate::dom::pairs_view(attrs@) + attr_list(s@, k as int) =~= attr_list(s@, n as int));
                }
                pos = k;
            },
        }
    }
}

/// Checks that `text` is a well-formed element tag.
pub fn check_element_tag(text: &Vec<char>) -> (r: bool)
    ensures
        r == valid_element_tag(text@),
{
    match parse_tag(text) {
        Some(_) => true,
        None => false,
    }
}

/// A tag's inside: one leading `<`, then one `/`, one trailing `>`, then
/// one `/` cut off, and the rest trimmed of white space.
pub open spec fn stripped_tag(s: Seq<char>) -> Seq<char> {
    let a = if s.len() > 0 && s[0] == '<' { s.skip(1) } else { s };
    let b = if a.len() > 0 && a[0] == '/' { a.skip(1) } else { a };
    let c = if b.len() > 0 && b.last() == '>' { b.drop_last() } else { b };
    let d = if c.len() > 0 && c.last() == '/' { c.drop_last() } else { c };
    trimmed(d)
}

/// The inside of tag `tag`: what `stripped_tag` describes.
#[verifier::rlimit(60)]
pub fn strip_tag(tag: &Vec<char>) -> (r: String)
    ensures
        r@ == stripped_tag(tag@),
{
    let mut lo: usize = 0;
    let mut hi: usize = tag.len();
    if hi > lo && tag[lo] == '<' {
        lo = lo + 1;
    }
    if hi > lo && tag[lo] == '/' {
        lo = lo + 1;
    }
    if hi > lo && tag[hi - 1] == '>' {
        hi = hi - 1;
    }
    if hi > lo && tag[hi - 1] == '/' {
        hi = hi - 1;
    }
    let inner = string_of(tag, lo, hi);
    let t = crate::dom::trim_chars(inner.as_str());
    proof {
        let s = tag@;
        let a = if s.len() > 0 && s[0] == '<' { s.skip(1) } else { s };
        let b = if a.len() > 0 && a[0] == '/' { a.skip(1) } else { a };
        let c = if b.len() > 0 && b.last() == '>' { b.drop_last() } else { b };
        let d = if c.len() > 0 && c.last() == '/' { c.drop_last() } else { c };
        assert(d =~= s.subrange(lo as int, hi as int));
    }
    string_of(&t, 0, t.len())
}


/// A character that neither opens a quoted run nor ends a tag.
pub open spec fn plain(c: char) -> bool {
    !is_quote(c) && c != '>'
}

proof fn lemma_plain_run(x: Seq<char>, a: int, b: int)
    requires
        1 <= a <= b <= x.len(),
        quote_state(x, 1, a) is None,
        forall|p: int| a <= p < b ==> plain(#[trigger] x[p]),
    ensures
        quote_state(x, 1, b) is None,
        quoted_find(x, 1, a, seq!['>']) == quoted_find(x, 1, b, seq!['>']),
    decreases b - a,
{
    if a < b {
        assert(plain(x[a]));
        assert(!occurs_at(x, a, seq!['>'])) by {
            if occurs_at(x, a, seq!['>']) {
                assert(x.subrange(a, a + 1)[0] == x[a]);
            }
        }
        lemma_plain_run(x, a + 1, b);
    }
}

proof fn lemma_quoted_run(x: Seq<char>, a: int, b: int, q: char)
    requires
        1 <= a <= b <= x.len(),
        quote_state(x, 1, a) == Some(q),
        forall|p: int| a <= p < b ==> #[trigger] x[p] != q,
    ensures
        quote_state(x, 1, b) == Some(q),
        quoted_find(x, 1, a, seq!['>']) == quoted_find(x, 1, b, seq!['>']),
    decreases b - a,
{
    if a < b {
        lemma_quoted_run(x, a + 1, b, q);
    }
}

proof fn lemma_name_chars_plain(x: Seq<char>, i: int)
    requires
        0 <= i <= x.len(),
    ensures
        i <= name_end(x, i) <= x.len(),
        forall|p: int| i <= p < name_end(x, i) ==> plain(#[trigger] x[p]),
    decreases x.len() - i,
{
    if i < x.len() && is_name_char(x[i]) {
        lemma_name_chars_plain(x, i + 1);
    }
}

proof fn lemma_space_chars_plain(x: Seq<char>, i: int)
    requires
        0 <= i <= x.len(),
    ensures
        i <= space_end(x, i) <= x.len(),
        forall|p: int| i <= p < space_end(x, i) ==> plain(#[trigger] x[p]),
    decreases x.len() - i,
{
    if i < x.len() && is_space(x[i]) {
        lemma_space_chars_plain(x, i + 1);
    }
}

proof fn lemma_attrs_scan(x: Seq<char>, i: int)
    requires
        1 <= i <= x.len(),
        attrs_ok(x, i),
        quote_state(x, 1, i) is None,
    ensures
        quoted_find(x, 1, i, seq!['>']) == x.len() - 1,
    decreases x.len() - i,
{
    let j = space_end(x, i);
    lemma_space_chars_plain(x, i);
    lemma_plain_run(x, i, j);
    if tag_tail(x, j) {
        if x[j] == '/' {
            lemma_plain_run(x, j, j + 1);
            assert(x.subrange(j + 1, j + 2) =~= seq!['>']);
        } else {
            assert(x.subrange(j, j + 1) =~= seq!['>']);
        }
    } else {
        let k = attr_end(x, j);
        let m = name_end(x, j + 1);
        lemma_name_chars_plain(x, j + 1);
        lemma_plain_run(x, j, m);
        let m1 = if m < x.len() && x[m] == ' ' { m + 1 } else { m };
        lemma_plain_run(x, m, m1);
        let m2 = if m1 + 1 < x.len() && x[m1 + 1] == ' ' { m1 + 2 } else { m1 + 1 };
        lemma_plain_run(x, m1, m2);
        assert(m2 == value_start(x, j));
        let q = x[m2];
        assert(!occurs_at(x, m2, seq!['>'])) by {
            if occurs_at(x, m2, seq!['>']) {
                assert(x.subrange(m2, m2 + 1)[0] == x[m2]);
            }
        }
        assert(quote_state(x, 1, m2 + 1) == Some(q));
        let c = find_char(x, q, m2 + 1);
        crate::codec::lemma_find_char(x, q, m2 + 1);
        assert forall|p: int| m2 + 1 <= p < c implies #[trigger] x[p] != q by {
            lemma_find_char_first(x, q, m2 + 1, p);
        }
        lemma_quoted_run(x, m2 + 1, c, q);
        assert(quote_state(x, 1, c + 1) is None);
        lemma_attrs_scan(x, k);
    }
}

proof fn lemma_find_char_first(s: Seq<char>, c: char, i: int, p: int)
    requires
        0 <= i <= p < find_char(s, c, i),
    ensures
        s[p] != c,
    decreases p - i,
{
    if p > i {
        lemma_find_char_first(s, c, i + 1, p);
    }
}

/// In a well-formed start or empty-element tag, the first `>` outside
/// quotes is the last character: the scanner takes the whole tag as one
/// span.
pub proof fn lemma_tag_closes_at_end(x: Seq<char>)
    requires
        valid_element_tag(x),
        x[1] != '/',
    ensures
        crate::scanner::tag_end(x, 0) == x.len(),
{
    let n = name_end(x, 2);
    lemma_name_chars_plain(x, 2);
    assert(plain(x[1]));
    lemma_plain_run(x, 1, 2);
    lemma_plain_run(x, 2, n);
    lemma_attrs_scan(x, n);
    assert(!occurs_at(x, 0, crate::scanner::comment_open())) by {
        if occurs_at(x, 0, crate::scanner::comment_open()) {
            assert(x.subrange(0, 4)[1] == x[1]);
        }
    }
    assert(!occurs_at(x, 0, seq!['<', '?'])) by {
        if occurs_at(x, 0, seq!['<', '?']) {
            assert(x.subrange(0, 2)[1] == x[1]);
        }
    }
    assert(!occurs_at(x, 0, crate::scanner::cdata_open())) by {
        if occurs_at(x, 0, crate::scanner::cdata_open()) {
            assert(x.subrange(0, 9)[1] == x[1]);
        }
    }
    assert(!occurs_at(x, 0, seq!['<', '!'])) by {
        if occurs_at(x, 0, seq!['<', '!']) {
            assert(x.subrange(0, 2)[1] == x[1]);
        }
    }
}

} // verus!
