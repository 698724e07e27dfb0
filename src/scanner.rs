//! Finding the next `<...>` span in XML text. Comments, processing
//! instructions, CDATA sections, other `<!...>` blocks and element tags each
//! close in their own way.
use vstd::prelude::*;
use crate::chars::{occurs_at, occurs_at_exec};
use crate::codec::{find_char, find_char_exec, lemma_find_char};

verus! {

pub open spec fn is_quote(c: char) -> bool {
    c == '"' || c == '\''
}

/// The quote that is open just before index `p`, scanning from `from`: a
/// quote character opens a quoted run that the same character closes.
pub open spec fn quote_state(s: Seq<char>, from: int, p: int) -> Option<char>
    decreases p - from,
{
    if p <= from || p > s.len() {
        None
    } else {
        let c = s[p - 1];
        match quote_state(s, from, p - 1) {
            Some(q) => if c == q { None } else { Some(q) },
            None => if is_quote(c) { Some(c) } else { None },
        }
    }
}

/// Index of the first occurrence of `pat` at or after `i` that is outside
/// quotes (quotes counted from `from`), or -1.
pub open spec fn quoted_find(s: Seq<char>, from: int, i: int, pat: Seq<char>) -> int
    decreases s.len() - i,
{
    if i < from || i >= s.len() {
        -1
    } else if quote_state(s, from, i) is None && occurs_at(s, i, pat) {
        i
    } else {
        quoted_find(s, from, i + 1, pat)
    }
}

/// Index of the first occurrence of `pat` at or after `i`, or -1.
pub open spec fn find_seq(s: Seq<char>, i: int, pat: Seq<char>) -> int
    decreases s.len() - i,
{
    if i < 0 || i >= s.len() {
        -1
    } else if occurs_at(s, i, pat) {
        i
    } else {
        find_seq(s, i + 1, pat)
    }
}

/// Quote and `<` nesting depth just before index `p`, scanning from `from`.
pub open spec fn nest_state(s: Seq<char>, from: int, p: int) -> (Option<char>, int)
    decreases p - from,
{
    if p <= from || p > s.len() {
        (None, 0)
    } else {
        let c = s[p - 1];
        let (q, d) = nest_state(s, from, p - 1);
        match q {
            Some(qc) => if c == qc { (None, d) } else { (q, d) },
            None => if is_quote(c) {
                (Some(c), d)
            } else if c == '<' {
                (None, d + 1)
            } else if c == '>' {
                (None, d - 1)
            } else {
                (None, d)
            },
        }
    }
}

/// Index of the first `>` at or after `i` that is outside quotes and not
/// matched by an earlier `<` (both counted from `from`), or -1.
pub open spec fn nested_close(s: Seq<char>, from: int, i: int) -> int
    decreases s.len() - i,
{
    if i < from || i >= s.len() {
        -1
    } else if nest_state(s, from, i) == (None::<char>, 0int) && s[i] == '>' {
        i
    } else {
        nested_close(s, from, i + 1)
    }
}

pub open spec fn comment_open() -> Seq<char> {
    seq!['<', '!', '-', '-']
}

pub open spec fn cdata_open() -> Seq<char> {
    seq!['<', '!', '[', 'C', 'D', 'A', 'T', 'A', '[']
}

pub open spec fn plus(i: int, n: int) -> int {
    if i < 0 { -1 } else { i + n }
}

/// Where the markup that starts at `s[start] == '<'` ends (just past its
/// last character), or -1 if it does not close.
pub open spec fn tag_end(s: Seq<char>, start: int) -> int {
    if occurs_at(s, start, comment_open()) {
        plus(find_seq(s, start + 4, seq!['-', '-', '>']), 3)
    } else if occurs_at(s, start, seq!['<', '?']) {
        plus(quoted_find(s, start + 2, start + 2, seq!['?', '>']), 2)
    } else if occurs_at(s, start, cdata_open()) {
        plus(find_seq(s, start + 9, seq![']', ']', '>']), 3)
    } else if occurs_at(s, start, seq!['<', '!']) {
        plus(nested_close(s, start + 2, start + 2), 1)
    } else {
        plus(quoted_find(s, start + 1, start + 1, seq!['>']), 1)
    }
}

proof fn lemma_find_seq(s: Seq<char>, i: int, pat: Seq<char>)
    ensures
        find_seq(s, i, pat) == -1 || (0 <= i <= find_seq(s, i, pat) && occurs_at(s, find_seq(s, i, pat), pat)),
    decreases s.len() - i,
{
    if 0 <= i < s.len() && !occurs_at(s, i, pat) {
        lemma_find_seq(s, i + 1, pat);
    }
}

proof fn lemma_quoted_find(s: Seq<char>, from: int, i: int, pat: Seq<char>)
    ensures
        quoted_find(s, from, i, pat) == -1 || (i <= quoted_find(s, from, i, pat)
            && occurs_at(s, quoted_find(s, from, i, pat), pat)),
    decreases s.len() - i,
{
    if from <= i < s.len() && !(quote_state(s, from, i) is None && occurs_at(s, i, pat)) {
        lemma_quoted_find(s, from, i + 1, pat);
    }
}

proof fn lemma_nested_close(s: Seq<char>, from: int, i: int)
    ensures
        nested_close(s, from, i) == -1 || (i <= nested_close(s, from, i) < s.len()
            && s[nested_close(s, from, i)] == '>'),
    decreases s.len() - i,
{
    if from <= i < s.len() && !(nest_state(s, from, i) == (None::<char>, 0int) && s[i] == '>') {
        lemma_nested_close(s, from, i + 1);
    }
}

/// `tag_end` lies past `start`, within the text, just after a `>`.
pub proof fn lemma_tag_end(s: Seq<char>, start: int)
    requires
        0 <= start < s.len(),
        s[start] == '<',
    ensures
        tag_end(s, start) == -1 || (start < tag_end(s, start) <= s.len() && s[tag_end(s, start) - 1] == '>'),
{
    if occurs_at(s, start, comment_open()) {
        lemma_find_seq(s, start + 4, seq!['-', '-', '>']);
        let p = find_seq(s, start + 4, seq!['-', '-', '>']);
        if p >= 0 {
            assert(s.subrange(p, p + 3)[2] == s[p + 2]);
        }
    } else if occurs_at(s, start, seq!['<', '?']) {
        lemma_quoted_find(s, start + 2, start + 2, seq!['?', '>']);
        let p = quoted_find(s, start + 2, start + 2, seq!['?', '>']);
        if p >= 0 {
            assert(s.subrange(p, p + 2)[1] == s[p + 1]);
        }
    } else if occurs_at(s, start, cdata_open()) {
        lemma_find_seq(s, start + 9, seq![']', ']', '>']);
        let p = find_seq(s, start + 9, seq![']', ']', '>']);
        if p >= 0 {
            assert(s.subrange(p, p + 3)[2] == s[p + 2]);
        }
    } else if occurs_at(s, start, seq!['<', '!']) {
        lemma_nested_close(s, start + 2, start + 2);
    } else {
        lemma_quoted_find(s, start + 1, start + 1, seq!['>']);
        let p = quoted_find(s, start + 1, start + 1, seq!['>']);
        if p >= 0 {
            assert(s.subrange(p, p + 1)[0] == s[p]);
        }
    }
}

/// Index of the first `pat` at or after `from` (quote state counted from
/// `from`), skipping quoted runs.
pub fn quote_aware_find(text: &Vec<char>, pat: &Vec<char>, from: usize) -> (r: Option<usize>)
    ensures
        match r {
            Some(p) => p as int == quoted_find(text@, from as int, from as int, pat@)
                && occurs_at(text@, p as int, pat@),
            None => quoted_find(text@, from as int, from as int, pat@) == -1,
        },
{
    let mut quote: Option<char> = None;
    let mut i = from;
    while i < text.len()
        invariant
            from <= i,
            quote == quote_state(text@, from as int, i as int),
            quoted_find(text@, from as int, from as int, pat@) == quoted_find(text@, from as int, i as int, pat@),
        decreases text.len() - i,
    {
        let c = text[i];
        match quote {
            Some(q) => {
                if c == q {
                    quote = None;
                }
            },
            None => {
                if occurs_at_exec(text, i, pat) {
                    return Some(i);
                }
                if c == '"' || c == '\'' {
                    quote = Some(c);
                }
            },
        }
        i = i + 1;
    }
    None
}

/// Index of the first `pat` at or after `from`.
pub fn find_seq_exec(text: &Vec<char>, pat: &Vec<char>, from: usize) -> (r: Option<usize>)
    ensures
        match r {
            Some(p) => p as int == find_seq(text@, from as int, pat@) && occurs_at(text@, p as int, pat@),
            None => find_seq(text@, from as int, pat@) == -1,
        },
{
    let mut i = from;
    while i < text.len()
        invariant
            from <= i,
            find_seq(text@, from as int, pat@) == find_seq(text@, i as int, pat@),
        decreases text.len() - i,
    {
        if occurs_at_exec(text, i, pat) {
            return Some(i);
        }
        i = i + 1;
    }
    None
}

/// Index of the first `>` at or after `from` that is outside quotes and
/// closes no `<` opened after `from`.
pub fn nested_quote_aware_find_close(text: &Vec<char>, from: usize) -> (r: Option<usize>)
    ensures
        match r {
            Some(p) => p as int == nested_close(text@, from as int, from as int) && p < text.len(),
            None => nested_close(text@, from as int, from as int) == -1,
        },
{
    let mut quote: Option<char> = None;
    let mut depth: usize = 0;
    let mut i = from;
    proof {
        assert(nest_state(text@, from as int, from as int) == (None::<char>, 0int));
    }
    while i < text.len()
        invariant
            from <= i,
            depth <= i - from,
            nest_state(text@, from as int, i as int) == (quote, depth as int),
            nested_close(text@, from as int, from as int) == nested_close(text@, from as int, i as int),
        decreases text.len() - i,
    {
        let c = text[i];
        match quote {
            Some(q) => {
                if c == q {
                    quote = None;
                }
            },
            None => {
                if c == '"' || c == '\'' {
                    quote = Some(c);
                } else if c == '<' {
                    depth = depth + 1;
                } else if c == '>' {
                    if depth == 0 {
                        return Some(i);
                    }
                    depth = depth - 1;
                }
            },
        }
        i = i + 1;
    }
    None
}

/// The next markup span at or after `from`: the index of its `<` (`None`
/// when there is no `<` left) and the index just past its end (`None` when
/// it does not close).
pub fn next_tag(buffer: &Vec<char>, from: usize) -> (r: (Option<usize>, Option<usize>))
    ensures
        r.0 is None <==> find_char(buffer@, '<', from as int) == -1,
        r.0 is None ==> r.1 is None,
        r.0 is Some ==> ({
            let start = r.0->0 as int;
            &&& start == find_char(buffer@, '<', from as int)
            &&& start < buffer.len()
            &&& buffer@[start] == '<'
            &&& (r.1 is None <==> tag_end(buffer@, start) == -1)
            &&& (r.1 is Some ==> r.1->0 as int == tag_end(buffer@, start)
                && start < r.1->0 <= buffer.len() && buffer@[r.1->0 - 1] == '>')
        }),
{
    let start = match find_char_exec(buffer, '<', from) {
        None => { return (None, None); },
        Some(s) => s,
    };
    proof {
        lemma_tag_end(buffer@, start as int);
    }
    let comment = vec!['<', '!', '-', '-'];
    let pi = vec!['<', '?'];
    let cdata = vec!['<', '!', '[', 'C', 'D', 'A', 'T', 'A', '['];
    let bang = vec!['<', '!'];
    proof {
        assert(comment@ =~= comment_open());
        assert(cdata@ =~= cdata_open());
        assert(pi@ =~= seq!['<', '?']);
        assert(bang@ =~= seq!['<', '!']);
    }
    let end: Option<usize> = if occurs_at_exec(buffer, start, &comment) {
        let close = vec!['-', '-', '>'];
        proof {
            assert(close@ =~= seq!['-', '-', '>']);
        }
        match find_seq_exec(buffer, &close, start + 4) {
            Some(p) => Some(p + 3),
            None => None,
        }
    } else if occurs_at_exec(buffer, start, &pi) {
        let close = vec!['?', '>'];
        proof {
            assert(close@ =~= seq!['?', '>']);
        }
        match quote_aware_find(buffer, &close, start + 2) {
            Some(p) => Some(p + 2),
            None => None,
        }
    } else if occurs_at_exec(buffer, start, &cdata) {
        let close = vec![']', ']', '>'];
        proof {
            assert(close@ =~= seq![']', ']', '>']);
        }
        match find_seq_exec(buffer, &close, start + 9) {
            Some(p) => Some(p + 3),
            None => None,
        }
    } else if occurs_at_exec(buffer, start, &bang) {
        match nested_quote_aware_find_close(buffer, start + 2) {
            Some(p) => Some(p + 1),
            None => None,
        }
    } else {
        let close = vec!['>'];
        proof {
            assert(close@ =~= seq!['>']);
        }
        match quote_aware_find(buffer, &close, start + 1) {
            Some(p) => Some(p + 1),
            None => None,
        }
    };
    (Some(start), end)
}

/// Line and column (from 1) at index `pos`, counting lines by `\n`.
pub open spec fn line_col(s: Seq<char>) -> (int, int)
    decreases s.len(),
{
    if s.len() == 0 {
        (1, 1)
    } else {
        let (l, c) = line_col(s.drop_last());
        if s.last() == '\n' { (l + 1, 1) } else { (l, c + 1) }
    }
}

/// Line and column of index `pos` of `text`, for error messages.
pub fn line_and_column(text: &Vec<char>, pos: usize) -> (r: (usize, usize))
    requires
        text.len() < usize::MAX,
    ensures
        r.0 as int == line_col(text@.take(if pos < text.len() { pos + 1 } else { text.len() as int })).0,
        r.1 as int == line_col(text@.take(if pos < text.len() { pos + 1 } else { text.len() as int })).1,
{
    let stop: usize = if pos < text.len() { pos + 1 } else { text.len() };
    let mut line: usize = 1;
    let mut col: usize = 1;
    let mut i: usize = 0;
    while i < stop
        invariant
            text.len() < usize::MAX,
            stop <= text.len(),
            i <= stop,
            1 <= line,
            1 <= col,
            line + col <= i + 2,
            (line as int, col as int) == line_col(text@.take(i as int)),
        decreases stop - i,
    {
        proof {
            assert(text@.take(i + 1).drop_last() =~= text@.take(i as int));
        }
        if text[i] == '\n' {
            line = line + 1;
            col = 1;
        } else {
            col = col + 1;
        }
        i = i + 1;
    }
    (line, col)
}

} // verus!
