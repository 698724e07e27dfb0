//! Conversion between text and XML entity references.
use vstd::prelude::*;
use crate::chars::{chars_of, code};

verus! {

/// What a character becomes in escaped element text: `&`, `<` and `>` turn
/// into entity references, anything else stays.
pub open spec fn text_entity(c: char) -> Seq<char> {
    if c == '&' {
        seq!['&', 'a', 'm', 'p', ';']
    } else if c == '<' {
        seq!['&', 'l', 't', ';']
    } else if c == '>' {
        seq!['&', 'g', 't', ';']
    } else {
        seq![c]
    }
}

/// What a character becomes when all five reserved characters are escaped.
pub open spec fn markup_entity(c: char) -> Seq<char> {
    if c == '\'' {
        seq!['&', 'a', 'p', 'o', 's', ';']
    } else if c == '"' {
        seq!['&', 'q', 'u', 'o', 't', ';']
    } else {
        text_entity(c)
    }
}

/// `s` with `&`, `<` and `>` escaped.
pub open spec fn escaped_text(s: Seq<char>) -> Seq<char>
    decreases s.len(),
{
    if s.len() == 0 {
        Seq::empty()
    } else {
        escaped_text(s.drop_last()) + text_entity(s.last())
    }
}

/// `s` with `&`, `<`, `>`, `'` and `"` escaped.
pub open spec fn escaped_markup(s: Seq<char>) -> Seq<char>
    decreases s.len(),
{
    if s.len() == 0 {
        Seq::empty()
    } else {
        escaped_markup(s.drop_last()) + markup_entity(s.last())
    }
}

/// Index of the first `c` in `s` at or after `i`, or -1.
pub open spec fn find_char(s: Seq<char>, c: char, i: int) -> int
    decreases s.len() - i,
{
    if i < 0 || i >= s.len() {
        -1
    } else if s[i] == c {
        i
    } else {
        find_char(s, c, i + 1)
    }
}

pub proof fn lemma_find_char(s: Seq<char>, c: char, i: int)
    ensures
        find_char(s, c, i) == -1 || (0 <= i <= find_char(s, c, i) < s.len() && s[find_char(s, c, i)] == c),
    decreases s.len() - i,
{
    if 0 <= i < s.len() && s[i] != c {
        lemma_find_char(s, c, i + 1);
    }
}

pub open spec fn hex_digit_value(c: char) -> int {
    if '0' <= c && c <= '9' {
        c as int - '0' as int
    } else if 'a' <= c && c <= 'f' {
        c as int - 'a' as int + 10
    } else if 'A' <= c && c <= 'F' {
        c as int - 'A' as int + 10
    } else {
        -1
    }
}

pub open spec fn all_hex(s: Seq<char>) -> bool {
    forall|i: int| 0 <= i < s.len() ==> hex_digit_value(#[trigger] s[i]) >= 0
}

/// The number that the hexadecimal digits `s` denote.
pub open spec fn hex_value(s: Seq<char>) -> int
    decreases s.len(),
{
    if s.len() == 0 {
        0
    } else {
        16 * hex_value(s.drop_last()) + hex_digit_value(s.last())
    }
}

/// A Unicode scalar value.
pub open spec fn is_scalar(v: int) -> bool {
    0 <= v <= 0x10FFFF && !(0xD800 <= v <= 0xDFFF)
}

/// The character that the entity name `name` (what stands between `&` and
/// `;`) stands for: one of the five named entities, or `#x` and hexadecimal
/// digits.
pub open spec fn entity_char(name: Seq<char>) -> Option<char> {
    if name == seq!['a', 'm', 'p'] {
        Some('&')
    } else if name == seq!['l', 't'] {
        Some('<')
    } else if name == seq!['g', 't'] {
        Some('>')
    } else if name == seq!['a', 'p', 'o', 's'] {
        Some('\'')
    } else if name == seq!['q', 'u', 'o', 't'] {
        Some('"')
    } else if name.len() > 2 && name[0] == '#' && name[1] == 'x' && all_hex(name.skip(2))
        && is_scalar(hex_value(name.skip(2))) {
        Some(choose|c: char| #[trigger] code(c) == hex_value(name.skip(2)))
    } else {
        None
    }
}

/// The entity reference that starts at `s[i] == '&'`, if it is one that
/// decodes: its character and the index just past its `;`.
pub open spec fn entity_at(s: Seq<char>, i: int) -> Option<(char, int)> {
    let k = find_char(s, ';', i + 1);
    if 0 <= i < s.len() && s[i] == '&' && k > i {
        match entity_char(s.subrange(i + 1, k)) {
            Some(c) => Some((c, k + 1)),
            None => None,
        }
    } else {
        None
    }
}

/// `s[i..]` with every decodable entity reference replaced by its
/// character; anything else is kept as it stands.
pub open spec fn unescaped_from(s: Seq<char>, i: int) -> Seq<char>
    decreases s.len() - i,
{
    if i < 0 || i >= s.len() {
        Seq::empty()
    } else {
        match entity_at(s, i) {
            Some((c, j)) => if i < j <= s.len() {
                seq![c] + unescaped_from(s, j)
            } else {
                Seq::empty()
            },
            None => seq![s[i]] + unescaped_from(s, i + 1),
        }
    }
}

pub open spec fn unescaped(s: Seq<char>) -> Seq<char> {
    unescaped_from(s, 0)
}

fn push_entity(out: &mut String, c: char, all: bool)
    ensures
        all ==> final(out)@ == old(out)@ + markup_entity(c),
        !all ==> final(out)@ == old(out)@ + text_entity(c),
{
    let ghost start = out@;
    if c == '&' {
        out.push('&'); out.push('a'); out.push('m'); out.push('p'); out.push(';');
    } else if c == '<' {
        out.push('&'); out.push('l'); out.push('t'); out.push(';');
    } else if c == '>' {
        out.push('&'); out.push('g'); out.push('t'); out.push(';');
    } else if all && c == '\'' {
        out.push('&'); out.push('a'); out.push('p'); out.push('o'); out.push('s'); out.push(';');
    } else if all && c == '"' {
        out.push('&'); out.push('q'); out.push('u'); out.push('o'); out.push('t'); out.push(';');
    } else {
        out.push(c);
    }
    proof {
        if all {
            assert(out@ =~= start + markup_entity(c));
        } else {
            assert(out@ =~= start + text_entity(c));
        }
    }
}

fn escape_chars(text: &str, all: bool) -> (r: String)
    ensures
        all ==> r@ == escaped_markup(text@),
        !all ==> r@ == escaped_text(text@),
{
    let v = chars_of(text);
    let mut out = String::new();
    let mut i: usize = 0;
    while i < v.len()
        invariant
            i <= v.len(),
            v@ == text@,
            all ==> out@ == escaped_markup(v@.take(i as int)),
            !all ==> out@ == escaped_text(v@.take(i as int)),
        decreases v.len() - i,
    {
        proof {
            assert(v@.take(i + 1).drop_last() =~= v@.take(i as int));
        }
        push_entity(&mut out, v[i], all);
        i = i + 1;
    }
    proof {
        assert(v@.take(v.len() as int) =~= v@);
    }
    out
}

/// Escapes `&`, `<` and `>` in `text`, for use as element content.
pub fn text_escape(text: &str) -> (r: String)
    ensures
        r@ == escaped_text(text@),
{
    escape_chars(text, false)
}

/// Escapes `&`, `<`, `>`, `'` and `"` in `text`, for use as an attribute
/// value.
pub fn attribute_escape(text: &str) -> (r: String)
    ensures
        r@ == escaped_markup(text@),
{
    escape_chars(text, true)
}

/// Escapes all five reserved characters `&`, `<`, `>`, `'` and `"`.
pub fn escape(text: &str) -> (r: String)
    ensures
        r@ == escaped_markup(text@),
{
    escape_chars(text, true)
}

/// Index of the first `c` in `v` at or after `i`, if any.
pub fn find_char_exec(v: &Vec<char>, c: char, i: usize) -> (r: Option<usize>)
    ensures
        r is Some ==> r->0 as int == find_char(v@, c, i as int),
        r is Some ==> i <= r->0 < v.len() && v@[r->0 as int] == c,
        r is None ==> find_char(v@, c, i as int) == -1,
{
    let mut k = i;
    while k < v.len()
        invariant
            i <= k,
            find_char(v@, c, i as int) == find_char(v@, c, k as int),
        decreases v.len() - k,
    {
        if v[k] == c {
            return Some(k);
        }
        k = k + 1;
    }
    None
}

fn hex_digit(c: char) -> (r: Option<u32>)
    ensures
        r is Some <==> hex_digit_value(c) >= 0,
        r is Some ==> r->0 as int == hex_digit_value(c),
{
    if '0' <= c && c <= '9' {
        Some(c as u32 - '0' as u32)
    } else if 'a' <= c && c <= 'f' {
        Some(c as u32 - 'a' as u32 + 10)
    } else if 'A' <= c && c <= 'F' {
        Some(c as u32 - 'A' as u32 + 10)
    } else {
        None
    }
}

proof fn lemma_hex_value_grows(s: Seq<char>, k: int)
    requires
        all_hex(s),
        0 <= k <= s.len(),
    ensures
        hex_value(s) >= hex_value(s.take(k)) >= 0,
    decreases s.len(),
{
    if s.len() > 0 {
        assert(all_hex(s.drop_last()));
        if k == s.len() {
            assert(s.take(k) =~= s);
            lemma_hex_value_grows(s.drop_last(), k - 1);
        } else {
            assert(s.drop_last().take(k) =~= s.take(k));
            lemma_hex_value_grows(s.drop_last(), k);
        }
        assert(hex_digit_value(s.last()) >= 0);
    } else {
        assert(s.take(k) =~= s);
    }
}

/// The character that the entity name `v[lo..hi]` stands for.
fn entity_char_exec(v: &Vec<char>, lo: usize, hi: usize) -> (r: Option<char>)
    requires
        lo <= hi <= v.len(),
    ensures
        r == entity_char(v@.subrange(lo as int, hi as int)),
{
    let ghost name = v@.subrange(lo as int, hi as int);
    let n = hi - lo;
    if n == 3 && v[lo] == 'a' && v[lo + 1] == 'm' && v[lo + 2] == 'p' {
        proof { assert(name =~= seq!['a', 'm', 'p']); }
        return Some('&');
    }
    if n == 2 && v[lo] == 'l' && v[lo + 1] == 't' {
        proof { assert(name =~= seq!['l', 't']); }
        return Some('<');
    }
    if n == 2 && v[lo] == 'g' && v[lo + 1] == 't' {
        proof { assert(name =~= seq!['g', 't']); }
        return Some('>');
    }
    if n == 4 && v[lo] == 'a' && v[lo + 1] == 'p' && v[lo + 2] == 'o' && v[lo + 3] == 's' {
        proof { assert(name =~= seq!['a', 'p', 'o', 's']); }
        return Some('\'');
    }
    if n == 4 && v[lo] == 'q' && v[lo + 1] == 'u' && v[lo + 2] == 'o' && v[lo + 3] == 't' {
        proof { assert(name =~= seq!['q', 'u', 'o', 't']); }
        return Some('"');
    }
    proof {
        assert(name != seq!['a', 'm', 'p'] ==> true);
        if name =~= seq!['a', 'm', 'p'] { assert(name[0] == 'a' && name[1] == 'm' && name[2] == 'p'); }
        if name =~= seq!['l', 't'] { assert(name[0] == 'l' && name[1] == 't'); }
        if name =~= seq!['g', 't'] { assert(name[0] == 'g' && name[1] == 't'); }
        if name =~= seq!['a', 'p', 'o', 's'] { assert(name[0] == 'a' && name[3] == 's'); }
        if name =~= seq!['q', 'u', 'o', 't'] { assert(name[0] == 'q' && name[3] == 't'); }
    }
    if n <= 2 || v[lo] != '#' || v[lo + 1] != 'x' {
        return None;
    }
    proof {
        assert(name[0] == '#');
    }
    let ghost digits = name.skip(2);
    let mut value: u32 = 0;
    let mut k: usize = lo + 2;
    while k < hi
        invariant
            lo + 2 <= k <= hi <= v.len(),
            name == v@.subrange(lo as int, hi as int),
            digits == name.skip(2),
            name.len() > 2 && name[0] == '#' && name[1] == 'x',
            all_hex(digits.take(k - lo - 2)),
            value as int == hex_value(digits.take(k - lo - 2)),
            value <= 0x10FFFF,
        decreases hi - k,
    {
        let d = hex_digit(v[k]);
        proof {
            assert(digits[k - lo - 2] == v@[k as int]);
            assert(digits.take(k - lo - 2 + 1).drop_last() =~= digits.take(k - lo - 2));
        }
        match d {
            None => {
                proof {
                    assert(hex_digit_value(digits[k - lo - 2]) < 0);
                    assert(!all_hex(digits));
                }
                return None;
            },
            Some(dv) => {
                let next: u64 = 16 * (value as u64) + dv as u64;
                if next > 0x10FFFF {
                    proof {
                        let m = k - lo - 2;
                        assert(digits.take(m + 1).last() == v@[k as int]);
                        assert(hex_value(digits.take(m + 1)) == next as int);
                        assert(all_hex(digits.take(k - lo - 2 + 1)));
                        if all_hex(digits) {
                            lemma_hex_value_grows(digits, k - lo - 2 + 1);
                        }
                    }
                    return None;
                }
                value = next as u32;
            },
        }
        k = k + 1;
    }
    proof {
        assert(digits.take(hi - lo - 2) =~= digits);
    }
    match char::from_u32(value) {
        Some(c) => {
            proof {
                assert(code(c) == hex_value(digits));
                let w = choose|x: char| #[trigger] code(x) == hex_value(digits);
                assert(code(w) == code(c));
            }
            Some(c)
        },
        None => None,
    }
}

/// Replaces the entity references `&amp;`, `&lt;`, `&gt;`, `&apos;`,
/// `&quot;` and `&#x..;` (hexadecimal) with the characters they stand for.
/// Any other `&...;` is left as it stands.
pub fn unescape(text: &str) -> (r: String)
    ensures
        r@ == unescaped(text@),
{
    let v = chars_of(text);
    let mut out = String::new();
    let mut i: usize = 0;
    while i < v.len()
        invariant
            i <= v.len(),
            v@ == text@,
            out@ + unescaped_from(v@, i as int) == unescaped(v@),
        decreases v.len() - i,
    {
        let ghost before = out@;
        let mut decoded: Option<(char, usize)> = None;
        if v[i] == '&' {
            match find_char_exec(&v, ';', i + 1) {
                Some(k) => {
                    match entity_char_exec(&v, i + 1, k) {
                        Some(c) => { decoded = Some((c, k + 1)); },
                        None => {},
                    }
                },
                None => {},
            }
        }
        proof {
            let k = find_char(v@, ';', i + 1);
            lemma_find_char(v@, ';', i + 1);
            if k >= 0 {
                assert(k > i);
            }
            assert(decoded == (match entity_at(v@, i as int) {
                Some((c, j)) => Some((c, j as usize)),
                None => None::<(char, usize)>,
            }));
        }
        match decoded {
            Some((c, j)) => {
                out.push(c);
                proof {
                    assert(out@ + unescaped_from(v@, j as int) =~= before + unescaped_from(v@, i as int));
                }
                i = j;
            },
            None => {
                out.push(v[i]);
                proof {
                    assert(out@ + unescaped_from(v@, i + 1) =~= before + unescaped_from(v@, i as int));
                }
                i = i + 1;
            },
        }
    }
    proof {
        assert(out@ + unescaped_from(v@, i as int) =~= out@);
    }
    out
}


proof fn lemma_find_char_shift(p: Seq<char>, t: Seq<char>, c: char, j: int)
    requires
        0 <= j,
    ensures
        find_char(p + t, c, p.len() + j) == (if find_char(t, c, j) < 0 { -1 } else { p.len() + find_char(t, c, j) }),
    decreases t.len() - j,
{
    if j < t.len() {
        assert((p + t)[p.len() + j] == t[j]);
        if t[j] != c {
            lemma_find_char_shift(p, t, c, j + 1);
        }
    }
}

proof fn lemma_unescaped_shift(p: Seq<char>, t: Seq<char>, j: int)
    requires
        0 <= j,
    ensures
        unescaped_from(p + t, p.len() + j) == unescaped_from(t, j),
    decreases t.len() - j,
{
    let s = p + t;
    let i = p.len() + j;
    if j < t.len() {
        assert(s[i] == t[j]);
        lemma_find_char_shift(p, t, ';', j + 1);
        lemma_find_char(t, ';', j + 1);
        let kt = find_char(t, ';', j + 1);
        if kt > j {
            assert(s.subrange(i + 1, p.len() + kt) =~= t.subrange(j + 1, kt));
        }
        match entity_at(t, j) {
            Some((c, n)) => {
                assert(entity_at(s, i) == Some((c, n + p.len())));
                if j < n <= t.len() {
                    lemma_unescaped_shift(p, t, n);
                }
            },
            None => {
                assert(entity_at(s, i) is None);
                lemma_unescaped_shift(p, t, j + 1);
            },
        }
    }
}

proof fn lemma_named_entity(name: Seq<char>, c: char, t: Seq<char>)
    requires
        1 <= name.len() <= 4,
        forall|i: int| 0 <= i < name.len() ==> name[i] != ';',
        entity_char(name) == Some(c),
    ensures
        unescaped(seq!['&'] + name + seq![';'] + t) == seq![c] + unescaped(t),
{
    let p = seq!['&'] + name + seq![';'];
    let s = p + t;
    let k: int = name.len() as int + 1;
    assert(s[k] == ';');
    assert forall|i: int| 1 <= i < k implies s[i] != ';' by {
        assert(s[i] == name[i - 1]);
    }
    assert(find_char(s, ';', k) == k);
    if k - 1 >= 1 {
        assert(find_char(s, ';', k - 1) == k);
    }
    if k - 2 >= 1 {
        assert(find_char(s, ';', k - 2) == k);
    }
    if k - 3 >= 1 {
        assert(find_char(s, ';', k - 3) == k);
    }
    if k - 4 >= 1 {
        assert(find_char(s, ';', k - 4) == k);
    }
    assert(find_char(s, ';', 1) == k);
    assert(s.subrange(1, k) =~= name);
    assert(entity_at(s, 0) == Some((c, k + 1)));
    lemma_unescaped_shift(p, t, 0);
    assert(seq!['&'] + name + seq![';'] + t == s);
}

proof fn lemma_one_entity(c: char, t: Seq<char>, all: bool)
    ensures
        all ==> unescaped(markup_entity(c) + t) == seq![c] + unescaped(t),
        !all ==> unescaped(text_entity(c) + t) == seq![c] + unescaped(t),
{
    let e = if all { markup_entity(c) } else { text_entity(c) };
    if c == '&' {
        assert(e =~= seq!['&'] + seq!['a', 'm', 'p'] + seq![';']);
        lemma_named_entity(seq!['a', 'm', 'p'], c, t);
    } else if c == '<' {
        assert(e =~= seq!['&'] + seq!['l', 't'] + seq![';']);
        lemma_named_entity(seq!['l', 't'], c, t);
    } else if c == '>' {
        assert(e =~= seq!['&'] + seq!['g', 't'] + seq![';']);
        lemma_named_entity(seq!['g', 't'], c, t);
    } else if all && c == '\'' {
        assert(e =~= seq!['&'] + seq!['a', 'p', 'o', 's'] + seq![';']);
        lemma_named_entity(seq!['a', 'p', 'o', 's'], c, t);
    } else if all && c == '"' {
        assert(e =~= seq!['&'] + seq!['q', 'u', 'o', 't'] + seq![';']);
        lemma_named_entity(seq!['q', 'u', 'o', 't'], c, t);
    } else {
        assert(e == seq![c]);
        let s = e + t;
        assert(s[0] == c);
        assert(entity_at(s, 0) is None);
        lemma_unescaped_shift(e, t, 0);
    }
}

proof fn lemma_escaped_then_unescaped(s: Seq<char>, t: Seq<char>, all: bool)
    ensures
        all ==> unescaped(escaped_markup(s) + t) == s + unescaped(t),
        !all ==> unescaped(escaped_text(s) + t) == s + unescaped(t),
    decreases s.len(),
{
    if s.len() == 0 {
        assert(escaped_markup(s) + t =~= t);
        assert(escaped_text(s) + t =~= t);
        assert(s + unescaped(t) =~= unescaped(t));
    } else {
        let c = s.last();
        let e = if all { markup_entity(c) } else { text_entity(c) };
        lemma_escaped_then_unescaped(s.drop_last(), e + t, all);
        lemma_one_entity(c, t, all);
        if all {
            assert(escaped_markup(s) + t =~= escaped_markup(s.drop_last()) + (e + t));
        } else {
            assert(escaped_text(s) + t =~= escaped_text(s.drop_last()) + (e + t));
        }
        assert(s.drop_last() + (seq![c] + unescaped(t)) =~= s + unescaped(t));
    }
}

/// Decoding undoes encoding: `unescape(escape(s)) == s` and
/// `unescape(text_escape(s)) == s`, for every string `s`.
pub proof fn law_unescape_inverts_escape(s: Seq<char>)
    ensures
        unescaped(escaped_markup(s)) == s,
        unescaped(escaped_text(s)) == s,
{
    lemma_escaped_then_unescaped(s, Seq::empty(), true);
    lemma_escaped_then_unescaped(s, Seq::empty(), false);
    assert(escaped_markup(s) + Seq::<char>::empty() =~= escaped_markup(s));
    assert(escaped_text(s) + Seq::<char>::empty() =~= escaped_text(s));
    assert(unescaped(Seq::<char>::empty()) =~= Seq::<char>::empty());
    assert(s + Seq::<char>::empty() =~= s);
}

} // verus!
