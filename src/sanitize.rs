//! The markdown sanitizer: replaces `<figure>` blocks with numbered
//! blockquote placeholders, strips HTML tags outside math regions, copies
//! math regions unchanged, puts `$$` delimiters on lines of their own, and
//! trims leading whitespace.
//!
//! No macro patterns are rewritten: no substitution table for them is
//! defined, so the converter's output goes through as it came.
use vstd::prelude::*;
use crate::atom::{tag_text, tag_text_chars};
use crate::routes::{lemma_strip_plain_no_lt, strip_plain, strip_plain_chars};
use crate::text::{
    chars_of, contains, find_chars, find_from, is_ws, lemma_find_from_none, lemma_find_from_some,
    occurs_at, push_all, slice_chars, string_from_chars, trim, trim_chars, trim_start,
    trim_start_chars,
};

verus! {

pub open spec fn figure_open() -> Seq<char> {
    seq!['<', 'f', 'i', 'g', 'u', 'r', 'e']
}

pub open spec fn figure_close() -> Seq<char> {
    seq!['<', '/', 'f', 'i', 'g', 'u', 'r', 'e', '>']
}

pub open spec fn blank_line() -> Seq<char> {
    seq!['\n', '\n']
}

pub open spec fn figcaption() -> Seq<char> {
    seq!['f', 'i', 'g', 'c', 'a', 'p', 't', 'i', 'o', 'n']
}

/// Where the figure block opening at `st` ends: after the next `</figure>`;
/// without one, at the next blank line; without one, at the end.
pub open spec fn figure_end(s: Seq<char>, st: int) -> int {
    match find_from(s, figure_close(), st) {
        Some(e) => e + 9,
        None => match find_from(s, blank_line(), st) {
            Some(e) => e,
            None => s.len() as int,
        },
    }
}

pub open spec fn digit(d: nat) -> char {
    ((d + 48) as u32) as char
}

/// The decimal digits of `n`.
pub open spec fn decimal(n: nat) -> Seq<char>
    decreases n,
{
    if n < 10 {
        seq![digit(n)]
    } else {
        decimal(n / 10) + seq![digit(n % 10)]
    }
}

pub open spec fn no_caption() -> Seq<char> {
    seq!['(', 'n', 'o', ' ', 'c', 'a', 'p', 't', 'i', 'o', 'n', ')']
}

/// The caption of a figure block: the text of its `<figcaption>`, tags
/// stripped and trimmed, or `(no caption)` when there is none or it is empty.
pub open spec fn caption_of(block: Seq<char>) -> Seq<char> {
    match tag_text(block, figcaption()) {
        Some(t) => if trim(strip_plain(t, false)).len() > 0 {
            trim(strip_plain(t, false))
        } else {
            no_caption()
        },
        None => no_caption(),
    }
}

/// The blockquote standing for the `n`-th figure: `> Figure n: caption`.
pub open spec fn placeholder(n: nat, block: Seq<char>) -> Seq<char> {
    seq!['>', ' ', 'F', 'i', 'g', 'u', 'r', 'e', ' '] + decimal(n) + seq![':', ' '] + caption_of(block)
}

/// Replaces each figure block, in document order, with its placeholder,
/// numbering from `n`.
pub open spec fn replace_figures(s: Seq<char>, n: nat) -> Seq<char>
    decreases s.len(),
{
    match find_from(s, figure_open(), 0) {
        None => s,
        Some(st) => {
            let end = figure_end(s, st);
            if 0 <= st < end <= s.len() {
                s.take(st) + placeholder(n, s.subrange(st, end)) + replace_figures(s.skip(end), n + 1)
            } else {
                s
            }
        },
    }
}

/// The length of a tag body: the index of the first `>` in `s` when it
/// comes before any `$`; otherwise -1 (the `<` before `s` opens no tag).
pub open spec fn tag_end(s: Seq<char>) -> int
    decreases s.len(),
{
    if s.len() == 0 {
        -1
    } else if s[0] == '>' {
        0
    } else if s[0] == '$' {
        -1
    } else if tag_end(s.drop_first()) >= 0 {
        tag_end(s.drop_first()) + 1
    } else {
        -1
    }
}

pub open spec fn has_dollar(s: Seq<char>) -> bool {
    exists|i: int| 0 <= i < s.len() && s[i] == '$'
}

/// The first `$` of `s` is followed by another `$`.
pub open spec fn doubled_next(s: Seq<char>) -> bool
    decreases s.len(),
{
    if s.len() == 0 {
        false
    } else if s[0] == '$' {
        s.len() >= 2 && s[1] == '$'
    } else {
        doubled_next(s.drop_first())
    }
}

/// Math state after a character that is no `$$` delimiter and no tag:
/// 0 outside math, 2 in inline math, 3 in block math.
pub open spec fn next_math(m: u8, c: char) -> u8 {
    if m == 2 {
        if c == '$' { 0 } else { 2 }
    } else {
        m
    }
}

/// Strips HTML tags from `s` outside math regions; math is copied unchanged.
/// - A `<` opens a tag when a `>` follows before the next `$` (or the end);
///   the tag runs through the first such `>` and is dropped. Any other `<`
///   outside math is kept as text.
/// - `$$` opens block math when the next `$` after it starts another `$$`,
///   which closes it; a lone `$` opens inline math when a later `$` closes it.
///   Any other `$` is kept as text.
/// - Each block delimiter is put on a line of its own: a line break goes
///   before it unless it starts a line (`bol`), and after it unless the text
///   ends there or a line break follows.
pub open spec fn strip_from(s: Seq<char>, m: u8, bol: bool) -> Seq<char>
    decreases s.len(),
{
    if s.len() == 0 {
        seq![]
    } else {
        let c = s[0];
        let rest = s.drop_first();
        if m == 0 && c == '<' {
            let k = tag_end(rest);
            if 0 <= k < rest.len() {
                strip_from(rest.skip(k + 1), 0, bol)
            } else {
                seq!['<'] + strip_from(rest, 0, false)
            }
        } else if (m == 0 && s.len() >= 2 && c == '$' && s[1] == '$' && doubled_next(s.skip(2))) || (
        m == 3 && s.len() >= 2 && c == '$' && s[1] == '$') {
            let after = s.skip(2);
            let brk = after.len() > 0 && after[0] != '\n';
            (if bol { seq![] } else { seq!['\n'] }) + seq!['$', '$'] + (if brk { seq!['\n'] } else { seq![] })
                + strip_from(after, if m == 0 { 3 } else { 0 }, brk)
        } else if m == 0 && c == '$' {
            seq!['$'] + strip_from(rest, if has_dollar(rest) { 2 } else { 0 }, false)
        } else {
            seq![c] + strip_from(rest, next_math(m, c), c == '\n')
        }
    }
}

pub open spec fn strip_markup(s: Seq<char>) -> Seq<char> {
    strip_from(s, 0, true)
}

/// What the sanitizer makes of `s`.
pub open spec fn sanitized(s: Seq<char>) -> Seq<char> {
    trim_start(strip_markup(replace_figures(s, 1)))
}

fn digit_char(d: u128) -> (r: char)
    requires
        d < 10,
    ensures
        r == digit(d as nat),
{
    let digits: [char; 10] = ['0', '1', '2', '3', '4', '5', '6', '7', '8', '9'];
    let r = digits[d as usize];
    assert(r == digit(d as nat)) by {
        assert(digits@ == seq!['0', '1', '2', '3', '4', '5', '6', '7', '8', '9']);
    }
    r
}

fn push_decimal(out: &mut Vec<char>, n: u128)
    ensures
        final(out)@ == old(out)@ + decimal(n as nat),
    decreases n,
{
    if n < 10 {
        out.push(digit_char(n));
        assert(final(out)@ =~= old(out)@ + decimal(n as nat));
    } else {
        push_decimal(out, n / 10);
        out.push(digit_char(n % 10));
        assert(out@ =~= old(out)@ + decimal(n as nat));
    }
}

fn push_placeholder(out: &mut Vec<char>, n: u128, block: &Vec<char>)
    ensures
        final(out)@ == old(out)@ + placeholder(n as nat, block@),
{
    let head: Vec<char> = vec!['>', ' ', 'F', 'i', 'g', 'u', 'r', 'e', ' '];
    push_all(out, &head);
    push_decimal(out, n);
    out.push(':');
    out.push(' ');
    let tag: Vec<char> = vec!['f', 'i', 'g', 'c', 'a', 'p', 't', 'i', 'o', 'n'];
    assert(tag@ =~= figcaption());
    let none: Vec<char> = vec!['(', 'n', 'o', ' ', 'c', 'a', 'p', 't', 'i', 'o', 'n', ')'];
    assert(none@ =~= no_caption());
    let cap = match tag_text_chars(block, &tag) {
        Some(t) => {
            let c = trim_chars(&strip_plain_chars(&t));
            if c.len() > 0 {
                c
            } else {
                none
            }
        },
        None => none,
    };
    push_all(out, &cap);
    assert(out@ =~= old(out)@ + placeholder(n as nat, block@));
}

/// Replaces the figure blocks of `s` with numbered placeholders (see `replace_figures`).
pub fn replace_figure_blocks(s: &Vec<char>) -> (r: Vec<char>)
    ensures
        r@ == replace_figures(s@, 1),
{
    let open: Vec<char> = vec!['<', 'f', 'i', 'g', 'u', 'r', 'e'];
    let close: Vec<char> = vec!['<', '/', 'f', 'i', 'g', 'u', 'r', 'e', '>'];
    let blank: Vec<char> = vec!['\n', '\n'];
    assert(open@ =~= figure_open());
    assert(close@ =~= figure_close());
    assert(blank@ =~= blank_line());
    let mut out: Vec<char> = Vec::new();
    let mut rem: Vec<char> = s.clone();
    let mut n: u128 = 1;
    let total = s.len();
    assert(out@ + replace_figures(rem@, 1) =~= replace_figures(s@, 1));
    loop
        invariant
            open@ == figure_open(),
            close@ == figure_close(),
            blank@ == blank_line(),
            1 <= n,
            total == s@.len(),
            n + rem@.len() <= s@.len() + 1,
            out@ + replace_figures(rem@, n as nat) == replace_figures(s@, 1),
        decreases rem.len(),
    {
        let st = match find_chars(&rem, &open, 0) {
            None => {
                assert(out@ + rem@ =~= replace_figures(s@, 1));
                push_all(&mut out, &rem);
                return out;
            },
            Some(st) => st,
        };
        proof {
            lemma_find_from_some(rem@, figure_open(), 0, st as int);
        }
        let len = rem.len();
        let end = match find_chars(&rem, &close, st) {
            Some(e) => {
                proof {
                    lemma_find_from_some(rem@, figure_close(), st as int, e as int);
                }
                e + 9
            },
            None => match find_chars(&rem, &blank, st) {
                Some(e) => {
                    proof {
                        lemma_find_from_some(rem@, blank_line(), st as int, e as int);
                        assert(rem@.subrange(st as int, st + 7)[0] == '<');
                        if e == st {
                            assert(rem@.subrange(e as int, e + 2)[0] == '\n');
                        }
                    }
                    e
                },
                None => len,
            },
        };
        assert(end == figure_end(rem@, st as int));
        let ghost before = out@;
        push_all(&mut out, &crate::text::take_chars(&rem, st));
        let block = slice_chars(&rem, st, end);
        push_placeholder(&mut out, n, &block);
        let next = crate::text::skip_chars(&rem, end);
        assert(next@.len() < rem@.len());
        assert(out@ + replace_figures(next@, (n + 1) as nat) =~= before + replace_figures(rem@, n as nat));
        rem = next;
        n = n + 1;
    }
}

/// Where the tag opened by a `<` just before index `from` ends (see `tag_end`).
fn find_tag_end(s: &Vec<char>, from: usize) -> (r: Option<usize>)
    requires
        from <= s.len(),
    ensures
        match r {
            Some(p) => from <= p < s.len() && tag_end(s@.skip(from as int)) == p - from,
            None => tag_end(s@.skip(from as int)) < 0,
        },
{
    let mut j: usize = from;
    while j < s.len()
        invariant
            from <= j <= s.len(),
            tag_end(s@.skip(from as int)) == if tag_end(s@.skip(j as int)) >= 0 {
                tag_end(s@.skip(j as int)) + (j - from)
            } else {
                -1
            },
        decreases s.len() - j,
    {
        assert(s@.skip(j as int).drop_first() =~= s@.skip(j + 1));
        assert(s@.skip(j as int)[0] == s@[j as int]);
        let c = s[j];
        if c == '>' {
            return Some(j);
        }
        if c == '$' {
            return None;
        }
        j = j + 1;
    }
    None
}

/// Whether some `$` stands at or after `from`.
fn dollar_from(s: &Vec<char>, from: usize) -> (r: bool)
    requires
        from <= s.len(),
    ensures
        r == has_dollar(s@.skip(from as int)),
{
    let mut j: usize = from;
    while j < s.len()
        invariant
            from <= j <= s.len(),
            forall|t: int| from <= t < j ==> s@[t] != '$',
        decreases s.len() - j,
    {
        if s[j] == '$' {
            assert(s@.skip(from as int)[j - from] == '$');
            return true;
        }
        j = j + 1;
    }
    assert forall|i: int| 0 <= i < s@.skip(from as int).len() implies s@.skip(from as int)[i] != '$' by {
        assert(s@.skip(from as int)[i] == s@[from + i]);
    }
    false
}

/// Whether the first `$` at or after `from` is followed by another `$`.
fn doubled_from(s: &Vec<char>, from: usize) -> (r: bool)
    requires
        from <= s.len(),
    ensures
        r == doubled_next(s@.skip(from as int)),
{
    let mut j: usize = from;
    while j < s.len()
        invariant
            from <= j <= s.len(),
            doubled_next(s@.skip(from as int)) == doubled_next(s@.skip(j as int)),
        decreases s.len() - j,
    {
        assert(s@.skip(j as int).drop_first() =~= s@.skip(j + 1));
        assert(s@.skip(j as int)[0] == s@[j as int]);
        if s[j] == '$' {
            if j + 1 < s.len() {
                assert(s@.skip(j as int)[1] == s@[j + 1]);
            }
            return j + 1 < s.len() && s[j + 1] == '$';
        }
        j = j + 1;
    }
    false
}

/// Strips HTML tags outside math regions and puts `$$` delimiters on lines
/// of their own (see `strip_from`).
pub fn strip_markup_chars(s: &Vec<char>) -> (r: Vec<char>)
    ensures
        r@ == strip_markup(s@),
{
    let mut out: Vec<char> = Vec::new();
    let mut m: u8 = 0;
    let mut bol = true;
    let mut i: usize = 0;
    assert(s@.skip(0) =~= s@);
    assert(out@ + strip_from(s@, 0, true) =~= strip_markup(s@));
    while i < s.len()
        invariant
            i <= s.len(),
            m == 0 || m == 2 || m == 3,
            out@ + strip_from(s@.skip(i as int), m, bol) == strip_markup(s@),
        decreases s.len() - i,
    {
        let c = s[i];
        let ghost rest = s@.skip(i as int);
        assert(rest.drop_first() =~= s@.skip(i + 1));
        assert(rest[0] == c);
        if i + 1 < s.len() {
            assert(rest[1] == s@[i + 1]);
        }
        if i + 1 < s.len() {
            assert(rest.skip(2) =~= s@.skip(i + 2));
        }
        let ghost before = out@;
        if m == 0 && c == '<' {
            match find_tag_end(s, i + 1) {
                Some(p) => {
                    assert(rest.drop_first().skip(p - i) =~= s@.skip(p + 1));
                    i = p + 1;
                },
                None => {
                    out.push('<');
                    bol = false;
                    assert(out@ + strip_from(s@.skip(i + 1), 0, false) =~= before + (seq!['<'] + strip_from(s@.skip(i + 1), 0, false)));
                    i = i + 1;
                },
            }
        } else if c == '$' && i + 1 < s.len() && s[i + 1] == '$' && (m == 3 || (m == 0 && doubled_from(s, i + 2))) {
            if !bol {
                out.push('\n');
            }
            out.push('$');
            out.push('$');
            let brk = i + 2 < s.len() && s[i + 2] != '\n';
            if brk {
                out.push('\n');
            }
            proof {
                if i + 2 < s.len() {
                    assert(rest.skip(2)[0] == s@[i + 2]);
                }
                let m2: u8 = if m == 0 { 3 } else { 0 };
                assert(out@ + strip_from(s@.skip(i + 2), m2, brk) =~= before + strip_from(rest, m, bol));
            }
            m = if m == 0 { 3 } else { 0 };
            bol = brk;
            i = i + 2;
        } else if m == 0 && c == '$' {
            out.push('$');
            let d = dollar_from(s, i + 1);
            m = if d { 2 } else { 0 };
            bol = false;
            assert(out@ + strip_from(s@.skip(i + 1), m, bol) =~= before + (seq!['$'] + strip_from(s@.skip(i + 1), m, bol)));
            i = i + 1;
        } else {
            out.push(c);
            let ghost prev = m;
            m = if m == 2 {
                if c == '$' { 0 } else { 2 }
            } else {
                m
            };
            bol = c == '\n';
            assert(m == next_math(prev, c));
            assert(out@ + strip_from(s@.skip(i + 1), m, bol) =~= before + (seq![c]
                + strip_from(s@.skip(i + 1), m, bol)));
            i = i + 1;
        }
    }
    assert(out@ + strip_from(s@.skip(i as int), m, bol) =~= out@);
    out
}

/// Strips HTML tags, keeping their inner text and every character inside
/// `$...$` and `$$...$$` math regions, angle brackets included; `$$`
/// delimiters are put on lines of their own, and a `<` that opens no tag is
/// kept.
pub fn strip_html_tags(input: &str) -> (r: String)
    ensures
        r@ == strip_markup(input@),
{
    let cs = chars_of(input);
    let out = strip_markup_chars(&cs);
    string_from_chars(&out)
}

/// Sanitizes converter output: replaces figure blocks with numbered
/// placeholders, strips HTML tags outside math, isolates block-math
/// delimiters, and trims leading whitespace.
pub fn sanitize_markdown(input: &str) -> (r: String)
    ensures
        r@ == sanitized(input@),
{
    let cs = chars_of(input);
    let figures = replace_figure_blocks(&cs);
    let stripped = strip_markup_chars(&figures);
    let trimmed = trim_start_chars(&stripped);
    string_from_chars(&trimmed)
}

} // verus!

verus! {

proof fn lemma_decimal_digits(n: nat)
    ensures
        forall|i: int| 0 <= i < decimal(n).len() ==> decimal(n)[i] != '<',
    decreases n,
{
    if n >= 10 {
        lemma_decimal_digits(n / 10);
        assert forall|i: int| 0 <= i < decimal(n).len() implies decimal(n)[i] != '<' by {
            if i < decimal(n / 10).len() {
                assert(decimal(n)[i] == decimal(n / 10)[i]);
            }
        }
    }
}

/// Trimming drops a leading run of whitespace and stops at the first other character.
proof fn lemma_trim_start(s: Seq<char>) -> (k: int)
    ensures
        0 <= k <= s.len(),
        trim_start(s) == s.skip(k),
        forall|i: int| 0 <= i < k ==> is_ws(s[i]),
        k < s.len() ==> !is_ws(s[k]),
    decreases s.len(),
{
    if s.len() > 0 && is_ws(s[0]) {
        let k1 = lemma_trim_start(s.drop_first());
        assert(s.drop_first().skip(k1) =~= s.skip(k1 + 1));
        assert forall|i: int| 0 <= i < k1 + 1 implies is_ws(s[i]) by {
            if i > 0 {
                assert(s.drop_first()[i - 1] == s[i]);
            }
        }
        k1 + 1
    } else {
        assert(s.skip(0) =~= s);
        0
    }
}

/// Trimming the end keeps a prefix.
proof fn lemma_trim_end(s: Seq<char>) -> (k: int)
    ensures
        0 <= k <= s.len(),
        crate::text::trim_end(s) == s.take(k),
    decreases s.len(),
{
    if s.len() > 0 && is_ws(s.last()) {
        let k1 = lemma_trim_end(s.drop_last());
        assert(s.drop_last().take(k1) =~= s.take(k1));
        k1
    } else {
        assert(s.take(s.len() as int) =~= s);
        s.len() as int
    }
}

proof fn lemma_placeholder_no_lt(n: nat, block: Seq<char>)
    ensures
        placeholder(n, block)[0] == '>',
        forall|i: int| 0 <= i < placeholder(n, block).len() ==> placeholder(n, block)[i] != '<',
{
    lemma_decimal_digits(n);
    let cap = caption_of(block);
    assert forall|i: int| 0 <= i < cap.len() implies cap[i] != '<' by {
        match tag_text(block, figcaption()) {
            Some(t) => {
                let x = strip_plain(t, false);
                if trim(x).len() > 0 {
                    lemma_strip_plain_no_lt(t, false);
                    let k1 = lemma_trim_start(x);
                    let k2 = lemma_trim_end(x.skip(k1));
                    assert(cap[i] == x[k1 + i]);
                }
            },
            None => {},
        }
    }
    let p = placeholder(n, block);
    let d = decimal(n);
    assert forall|i: int| 0 <= i < p.len() implies p[i] != '<' by {
        if 9 <= i < 9 + d.len() {
            assert(p[i] == d[i - 9]);
        } else if i >= 11 + d.len() {
            assert(p[i] == cap[i - 11 - d.len()]);
        }
    }
}

proof fn lemma_figure_end(s: Seq<char>, st: int)
    requires
        occurs_at(s, figure_open(), st),
    ensures
        st < figure_end(s, st) <= s.len(),
{
    match find_from(s, figure_close(), st) {
        Some(e) => {
            lemma_find_from_some(s, figure_close(), st, e);
        },
        None => match find_from(s, blank_line(), st) {
            Some(e) => {
                lemma_find_from_some(s, blank_line(), st, e);
                assert(s.subrange(st, st + 7)[0] == '<');
                if e == st {
                    assert(s.subrange(e, e + 2)[0] == '\n');
                }
            },
            None => {},
        },
    }
}

proof fn lemma_no_figure_after_replace(s: Seq<char>, n: nat)
    ensures
        !contains(replace_figures(s, n), figure_open()),
    decreases s.len(),
{
    lemma_find_from_none(s, figure_open(), 0);
    match find_from(s, figure_open(), 0) {
        None => {
            assert forall|j: int| !occurs_at(s, figure_open(), j) by {
                if j >= 0 {
                }
            }
        },
        Some(st) => {
            lemma_find_from_some(s, figure_open(), 0, st);
            let end = figure_end(s, st);
            lemma_figure_end(s, st);
            let p = placeholder(n, s.subrange(st, end));
            let r = replace_figures(s.skip(end), n + 1);
            lemma_no_figure_after_replace(s.skip(end), n + 1);
            lemma_placeholder_no_lt(n, s.subrange(st, end));
            let pre = s.take(st);
            let o = pre + p + r;
            assert(o == replace_figures(s, n));
            assert forall|j: int| !occurs_at(o, figure_open(), j) by {
                if occurs_at(o, figure_open(), j) {
                    assert(o.subrange(j, j + 7)[0] == o[j]);
                    if j + 7 <= st {
                        assert(s.subrange(j, j + 7) =~= o.subrange(j, j + 7));
                        assert(occurs_at(s, figure_open(), j));
                    } else if j < st {
                        assert(o.subrange(j, j + 7)[st - j] == o[st]);
                        assert(o[st] == p[0]);
                    } else if j < st + p.len() {
                        assert(o[j] == p[j - st]);
                    } else {
                        assert(r.subrange(j - st - p.len(), j - st - p.len() + 7) =~= o.subrange(j, j + 7));
                        assert(occurs_at(r, figure_open(), j - st - p.len()));
                    }
                }
            }
        },
    }
}

proof fn lemma_replace_noop(s: Seq<char>, n: nat)
    requires
        !contains(s, figure_open()),
    ensures
        replace_figures(s, n) == s,
{
    lemma_find_from_none(s, figure_open(), 0);
}

proof fn lemma_no_figure_suffix(s: Seq<char>, k: int)
    requires
        0 <= k <= s.len(),
        !contains(s, figure_open()),
    ensures
        !contains(s.skip(k), figure_open()),
{
    assert forall|j: int| !occurs_at(s.skip(k), figure_open(), j) by {
        if occurs_at(s.skip(k), figure_open(), j) {
            assert(s.subrange(j + k, j + k + 7) =~= s.skip(k).subrange(j, j + 7));
            assert(occurs_at(s, figure_open(), j + k));
        }
    }
}

} // verus!

verus! {

proof fn lemma_tag_end(s: Seq<char>)
    ensures
        -1 <= tag_end(s) < s.len(),
        tag_end(s) >= 0 ==> s[tag_end(s)] == '>',
        forall|i: int| 0 <= i < tag_end(s) ==> s[i] != '$' && s[i] != '>',
    decreases s.len(),
{
    if s.len() > 0 && s[0] != '>' && s[0] != '$' {
        lemma_tag_end(s.drop_first());
        assert forall|i: int| 0 <= i < tag_end(s) implies s[i] != '$' && s[i] != '>' by {
            if i > 0 {
                assert(s[i] == s.drop_first()[i - 1]);
            }
        }
    }
}

/// After a `<` that opens no tag, the output has no `>` before its next `$` either.
proof fn lemma_literal_keeps(s: Seq<char>, bol: bool)
    requires
        tag_end(s) < 0,
    ensures
        tag_end(strip_from(s, 0, bol)) < 0,
    decreases s.len(),
{
    if s.len() > 0 {
        let c = s[0];
        let rest = s.drop_first();
        let o = strip_from(s, 0, bol);
        if c == '$' {
            if s.len() >= 2 && s[1] == '$' && doubled_next(s.skip(2)) {
                if !bol {
                    assert(o[0] == '\n' && o[1] == '$');
                    assert(o.drop_first()[0] == '$');
                    assert(tag_end(o.drop_first()) == -1);
                } else {
                    assert(o[0] == '$');
                }
            } else {
                assert(o[0] == '$');
            }
        } else {
            assert(c != '>');
            assert(tag_end(rest) < 0);
            if c == '<' {
                lemma_literal_keeps(rest, false);
                assert(o == seq!['<'] + strip_from(rest, 0, false));
                assert(o.drop_first() =~= strip_from(rest, 0, false));
            } else {
                lemma_emit_plain(s, 0, bol);
                lemma_literal_keeps(rest, c == '\n');
                assert(o.drop_first() =~= strip_from(rest, 0, c == '\n'));
            }
        }
    }
}

/// Outside math, a `<` that opens no tag starts a run copied up to the next `$`.
proof fn lemma_zero_prefix(s: Seq<char>, bol: bool, p: Seq<char>)
    requires
        tag_end(s) < 0,
        forall|i: int| 0 <= i < p.len() ==> p[i] != '$' && p[i] != '\n',
        strip_from(s, 0, bol).len() >= p.len(),
        strip_from(s, 0, bol).take(p.len() as int) == p,
    ensures
        s.len() >= p.len(),
        s.take(p.len() as int) == p,
    decreases p.len(),
{
    if p.len() > 0 {
        let o = strip_from(s, 0, bol);
        assert(o.take(p.len() as int)[0] == p[0]);
        let c = s[0];
        let rest = s.drop_first();
        if c == '$' {
            assert(o[0] == '\n' || o[0] == '$');
        }
        assert(c != '$' && c != '>');
        assert(tag_end(rest) < 0);
        let b2 = if c == '<' { false } else { c == '\n' };
        if c != '<' {
            lemma_emit_plain(s, 0, bol);
        }
        assert(o == seq![c] + strip_from(rest, 0, b2));
        let x = strip_from(rest, 0, b2);
        assert(x.take(p.len() - 1) =~= p.drop_first()) by {
            assert forall|i: int| 0 <= i < p.len() - 1 implies x[i] == p.drop_first()[i] by {
                assert(o[i + 1] == x[i]);
                assert(o.take(p.len() as int)[i + 1] == p[i + 1]);
            }
        }
        lemma_zero_prefix(rest, b2, p.drop_first());
        assert(s.take(p.len() as int) =~= p) by {
            assert forall|i: int| 0 <= i < p.len() implies s[i] == p[i] by {
                if i > 0 {
                    assert(rest.take(p.len() - 1)[i - 1] == p.drop_first()[i - 1]);
                }
            }
        }
    }
}

/// A character that is neither `<` nor `$` is copied and changes no state but inline math's.
proof fn lemma_emit_plain(s: Seq<char>, m: u8, bol: bool)
    requires
        s.len() > 0,
        s[0] != '<',
        s[0] != '$',
    ensures
        strip_from(s, m, bol) == seq![s[0]] + strip_from(s.drop_first(), next_math(m, s[0]), s[0] == '\n'),
{
}

/// The stripper writes no `$` that was not in its input.
proof fn lemma_no_new_dollar(s: Seq<char>, m: u8, bol: bool)
    requires
        !has_dollar(s),
    ensures
        !has_dollar(strip_from(s, m, bol)),
    decreases s.len(),
{
    if s.len() > 0 {
        let rest = s.drop_first();
        assert(!has_dollar(rest)) by {
            if has_dollar(rest) {
                let i = choose|i: int| 0 <= i < rest.len() && rest[i] == '$';
                assert(s[i + 1] == '$');
            }
        }
        assert(s[0] != '$');
        if m == 0 && s[0] == '<' {
            let k = tag_end(rest);
            if 0 <= k < rest.len() {
                let r2 = rest.skip(k + 1);
                assert(!has_dollar(r2)) by {
                    if has_dollar(r2) {
                        let i = choose|i: int| 0 <= i < r2.len() && r2[i] == '$';
                        assert(rest[k + 1 + i] == '$');
                    }
                }
                lemma_no_new_dollar(rest.skip(k + 1), 0, bol);
            } else {
                lemma_no_new_dollar(rest, 0, false);
                let x = strip_from(rest, 0, false);
                assert forall|i: int| 0 <= i < (seq!['<'] + x).len() implies (seq!['<'] + x)[i] != '$' by {
                    if i >= 1 {
                        assert((seq!['<'] + x)[i] == x[i - 1]);
                    }
                }
            }
        } else {
            lemma_no_new_dollar(rest, next_math(m, s[0]), s[0] == '\n');
            let x = strip_from(rest, next_math(m, s[0]), s[0] == '\n');
            assert forall|i: int| 0 <= i < (seq![s[0]] + x).len() implies (seq![s[0]] + x)[i] != '$' by {
                if i >= 1 {
                    assert((seq![s[0]] + x)[i] == x[i - 1]);
                }
            }
        }
    }
}

/// Inline math keeps the `$` that closes it.
proof fn lemma_inline_keeps_dollar(s: Seq<char>, bol: bool)
    requires
        has_dollar(s),
    ensures
        has_dollar(strip_from(s, 2, bol)),
    decreases s.len(),
{
    let rest = s.drop_first();
    let o = strip_from(s, 2, bol);
    if s[0] == '$' {
        assert(o[0] == '$');
    } else {
        assert(has_dollar(rest)) by {
            let i = choose|i: int| 0 <= i < s.len() && s[i] == '$';
            assert(rest[i - 1] == '$');
        }
        lemma_inline_keeps_dollar(rest, s[0] == '\n');
        let x = strip_from(rest, 2, s[0] == '\n');
        let i = choose|i: int| 0 <= i < x.len() && x[i] == '$';
        assert(o[i + 1] == '$');
    }
}

/// `doubled_next` looks past characters that are not `$`.
proof fn lemma_doubled_skip(s: Seq<char>, j: int)
    requires
        0 <= j <= s.len(),
        forall|i: int| 0 <= i < j ==> s[i] != '$',
    ensures
        doubled_next(s) == doubled_next(s.skip(j)),
    decreases j,
{
    if j > 0 {
        assert(s.drop_first().skip(j - 1) =~= s.skip(j));
        lemma_doubled_skip(s.drop_first(), j - 1);
    } else {
        assert(s.skip(0) =~= s);
    }
}

/// Block math keeps the `$$` that closes it as the next `$`.
proof fn lemma_block_keeps_doubled(s: Seq<char>, bol: bool)
    requires
        doubled_next(s),
    ensures
        doubled_next(strip_from(s, 3, bol)),
    decreases s.len(),
{
    let o = strip_from(s, 3, bol);
    if s[0] == '$' {
        if bol {
            assert(o[0] == '$' && o[1] == '$');
        } else {
            assert(o[0] == '\n' && o[1] == '$' && o[2] == '$');
            assert(o.drop_first()[0] == '$' && o.drop_first()[1] == '$');
            assert(doubled_next(o.drop_first()));
        }
    } else {
        assert(doubled_next(s.drop_first()));
        lemma_block_keeps_doubled(s.drop_first(), s[0] == '\n');
        assert(o == seq![s[0]] + strip_from(s.drop_first(), 3, s[0] == '\n'));
        assert(o.drop_first() =~= strip_from(s.drop_first(), 3, s[0] == '\n'));
        assert(o[0] != '$');
    }
}

/// Outside math, output whose input's next `$` is not doubled has no doubled next `$` either.
proof fn lemma_zero_keeps_undoubled(s: Seq<char>, bol: bool)
    requires
        !doubled_next(s),
    ensures
        !doubled_next(strip_from(s, 0, bol)),
    decreases s.len(),
{
    if s.len() > 0 {
        let c = s[0];
        let rest = s.drop_first();
        let o = strip_from(s, 0, bol);
        if c == '<' {
            let k = tag_end(rest);
            lemma_tag_end(rest);
            if 0 <= k < rest.len() {
                assert forall|i: int| 0 <= i < k + 2 implies s[i] != '$' by {
                    if i > 0 {
                        assert(s[i] == rest[i - 1]);
                    }
                }
                lemma_doubled_skip(s, k + 2);
                assert(s.skip(k + 2) =~= rest.skip(k + 1));
                lemma_zero_keeps_undoubled(rest.skip(k + 1), bol);
            } else {
                assert(!doubled_next(rest));
                lemma_zero_keeps_undoubled(rest, false);
                assert(o == seq!['<'] + strip_from(rest, 0, false));
                lemma_doubled_skip(o, 1);
                assert(o.skip(1) =~= strip_from(rest, 0, false));
            }
        } else if c == '$' {
            let x = strip_from(rest, if has_dollar(rest) { 2 } else { 0 }, false);
            assert(o == seq!['$'] + x);
            if has_dollar(rest) {
                assert(rest.len() > 0);
                assert(s[1] == rest[0]);
                assert(rest[0] != '$');
                assert(x == seq![rest[0]] + strip_from(rest.drop_first(), 2, rest[0] == '\n'));
                assert(x[0] == rest[0]);
            } else {
                lemma_no_new_dollar(rest, 0, false);
                if x.len() > 0 {
                    assert(x[0] != '$');
                }
            }
        } else {
            lemma_emit_plain(s, 0, bol);
            assert(!doubled_next(rest));
            lemma_zero_keeps_undoubled(rest, c == '\n');
            assert(o.drop_first() =~= strip_from(rest, 0, c == '\n'));
        }
    }
}

#[verifier::rlimit(60)]
proof fn lemma_strip_twice(s: Seq<char>, m: u8, bol: bool)
    requires
        m == 0 || m == 2 || m == 3,
    ensures
        strip_from(strip_from(s, m, bol), m, bol) == strip_from(s, m, bol),
    decreases s.len(),
{
    if s.len() > 0 {
        let c = s[0];
        let rest = s.drop_first();
        let o = strip_from(s, m, bol);
        if m == 0 && c == '<' {
            let k = tag_end(rest);
            if 0 <= k < rest.len() {
                lemma_strip_twice(rest.skip(k + 1), 0, bol);
            } else {
                let x = strip_from(rest, 0, false);
                lemma_strip_twice(rest, 0, false);
                lemma_tag_end(rest);
                lemma_literal_keeps(rest, false);
                assert(o == seq!['<'] + x);
                assert(o.drop_first() =~= x);
            }
        } else if (m == 0 && s.len() >= 2 && c == '$' && s[1] == '$' && doubled_next(s.skip(2))) || (
        m == 3 && s.len() >= 2 && c == '$' && s[1] == '$') {
            let after = s.skip(2);
            let brk = after.len() > 0 && after[0] != '\n';
            let m2: u8 = if m == 0 { 3 } else { 0 };
            let x = strip_from(after, m2, brk);
            lemma_strip_twice(after, m2, brk);
            if m == 0 {
                lemma_block_keeps_doubled(after, brk);
            }
            let after2 = (if brk { seq!['\n'] } else { seq![] }) + x;
            let tail = seq!['$', '$'] + after2;
            if !brk && x.len() > 0 {
                assert(after.len() > 0);
                lemma_emit_plain(after, m2, brk);
                assert(x[0] == '\n');
            }
            assert(tail.skip(2) =~= after2);
            if m == 0 {
                if brk {
                    lemma_doubled_skip(after2, 1);
                    assert(after2.skip(1) =~= x);
                } else {
                    assert(after2 =~= x);
                }
            }
            assert(strip_from(tail, m, true) == seq!['$', '$'] + strip_from(after2, m2, false)) by {
                if after2.len() > 0 {
                    assert(after2[0] == '\n');
                }
            }
            if brk {
                assert(after2.drop_first() =~= x);
                lemma_emit_plain(after2, m2, false);
            } else {
                assert(after2 =~= x);
            }
            assert(strip_from(tail, m, true) =~= tail);
            assert(o =~= (if bol { seq![] } else { seq!['\n'] }) + tail);
            if !bol {
                assert(o.drop_first() =~= tail);
                lemma_emit_plain(o, m, false);
            } else {
                assert(o =~= tail);
            }
        } else if m == 0 && c == '$' {
            let d = has_dollar(rest);
            let m2: u8 = if d { 2 } else { 0 };
            let x = strip_from(rest, m2, false);
            lemma_strip_twice(rest, m2, false);
            assert(o == seq!['$'] + x);
            assert(o.drop_first() =~= x);
            if d {
                lemma_inline_keeps_dollar(rest, false);
            } else {
                lemma_no_new_dollar(rest, 0, false);
            }
            // the output's `$` is not taken for a block opener
            if o.len() >= 2 && o[1] == '$' {
                assert(x[0] == '$');
                if d {
                    assert(rest[0] == '$') by {
                        if rest[0] != '$' {
                            assert(x[0] == rest[0]);
                        }
                    }
                    assert(s[1] == '$');
                    assert(!doubled_next(s.skip(2)));
                    let y = strip_from(rest.drop_first(), 0, false);
                    assert(x == seq!['$'] + y);
                    assert(rest.drop_first() =~= s.skip(2));
                    lemma_zero_keeps_undoubled(s.skip(2), false);
                    assert(o.skip(2) =~= y);
                } else {
                    assert(has_dollar(x));
                }
            }
        } else {
            let m2 = next_math(m, c);
            let x = strip_from(rest, m2, c == '\n');
            lemma_strip_twice(rest, m2, c == '\n');
            assert(o == seq![c] + x);
            assert(o.drop_first() =~= x);
            if m == 3 && c == '$' && x.len() > 0 {
                assert(rest.len() > 0);
                assert(rest[0] != '$') by {
                    if rest[0] == '$' {
                        assert(s[1] == rest[0]);
                    }
                }
                assert(x[0] == rest[0]);
            }
        }
    }
}

/// Inside math, a run of output without `$` and line breaks is copied from the input.
proof fn lemma_math_prefix(s: Seq<char>, m: u8, bol: bool, p: Seq<char>)
    requires
        m == 2 || m == 3,
        forall|i: int| 0 <= i < p.len() ==> p[i] != '$' && p[i] != '\n',
        strip_from(s, m, bol).len() >= p.len(),
        strip_from(s, m, bol).take(p.len() as int) == p,
    ensures
        s.len() >= p.len(),
        s.take(p.len() as int) == p,
    decreases p.len(),
{
    if p.len() > 0 {
        let o = strip_from(s, m, bol);
        assert(o.take(p.len() as int)[0] == p[0]);
        let c = s[0];
        let rest = s.drop_first();
        if c == '$' {
            assert(o[0] == '\n' || o[0] == '$');
        }
        assert(c != '$');
        assert(o == seq![c] + strip_from(rest, next_math(m, c), c == '\n'));
        let x = strip_from(rest, next_math(m, c), c == '\n');
        assert(x.take(p.len() - 1) =~= p.drop_first()) by {
            assert forall|i: int| 0 <= i < p.len() - 1 implies x[i] == p.drop_first()[i] by {
                assert(o[i + 1] == x[i]);
                assert(o.take(p.len() as int)[i + 1] == p[i + 1]);
            }
        }
        lemma_math_prefix(rest, next_math(m, c), c == '\n', p.drop_first());
        assert(s.take(p.len() as int) =~= p) by {
            assert forall|i: int| 0 <= i < p.len() implies s[i] == p[i] by {
                if i > 0 {
                    assert(rest.take(p.len() - 1)[i - 1] == p.drop_first()[i - 1]);
                }
            }
        }
    }
}

/// No occurrence starts inside a head without `<`.
proof fn lemma_no_figure_after_head(head: Seq<char>, x: Seq<char>)
    requires
        forall|i: int| 0 <= i < head.len() ==> head[i] != '<',
        !contains(x, figure_open()),
    ensures
        !contains(head + x, figure_open()),
{
    let o = head + x;
    assert forall|j: int| !occurs_at(o, figure_open(), j) by {
        if occurs_at(o, figure_open(), j) {
            assert(o.subrange(j, j + 7)[0] == o[j]);
            if j < head.len() {
                assert(o[j] == head[j]);
            } else {
                assert(x.subrange(j - head.len(), j - head.len() + 7) =~= o.subrange(j, j + 7));
                assert(occurs_at(x, figure_open(), j - head.len()));
            }
        }
    }
}

proof fn lemma_strip_keeps_no_figure(s: Seq<char>, m: u8, bol: bool)
    requires
        m == 0 || m == 2 || m == 3,
        !contains(s, figure_open()),
    ensures
        !contains(strip_from(s, m, bol), figure_open()),
    decreases s.len(),
{
    if s.len() > 0 {
        let c = s[0];
        let rest = s.drop_first();
        lemma_no_figure_suffix(s, 1);
        assert(rest =~= s.skip(1));
        if m == 0 && c == '<' {
            let k = tag_end(rest);
            if 0 <= k < rest.len() {
                lemma_no_figure_suffix(rest, k + 1);
                lemma_strip_keeps_no_figure(rest.skip(k + 1), 0, bol);
            } else {
                lemma_strip_keeps_no_figure(rest, 0, false);
                lemma_tag_end(rest);
                let x = strip_from(rest, 0, false);
                let o = seq!['<'] + x;
                assert forall|j: int| !occurs_at(o, figure_open(), j) by {
                    if occurs_at(o, figure_open(), j) {
                        if j > 0 {
                            assert(x.subrange(j - 1, j + 6) =~= o.subrange(j, j + 7));
                            assert(occurs_at(x, figure_open(), j - 1));
                        } else {
                            let tail = figure_open().drop_first();
                            assert(x.take(6) =~= tail) by {
                                assert forall|i: int| 0 <= i < 6 implies x[i] == tail[i] by {
                                    assert(o.subrange(0, 7)[i + 1] == figure_open()[i + 1]);
                                }
                            }
                            lemma_zero_prefix(rest, false, tail);
                            assert(s.subrange(0, 7) =~= figure_open()) by {
                                assert forall|i: int| 0 <= i < 7 implies s[i] == figure_open()[i] by {
                                    if i > 0 {
                                        assert(rest.take(6)[i - 1] == tail[i - 1]);
                                    }
                                }
                            }
                            assert(occurs_at(s, figure_open(), 0));
                        }
                    }
                }
            }
        } else if (m == 0 && s.len() >= 2 && c == '$' && s[1] == '$' && doubled_next(s.skip(2))) || (
        m == 3 && s.len() >= 2 && c == '$' && s[1] == '$') {
            let after = s.skip(2);
            let brk = after.len() > 0 && after[0] != '\n';
            let m2: u8 = if m == 0 { 3 } else { 0 };
            lemma_no_figure_suffix(s, 2);
            lemma_strip_keeps_no_figure(after, m2, brk);
            let head = (if bol { seq![] } else { seq!['\n'] }) + seq!['$', '$'] + (if brk { seq!['\n'] } else { seq![] });
            lemma_no_figure_after_head(head, strip_from(after, m2, brk));
            assert(head + strip_from(after, m2, brk) == strip_from(s, m, bol));
        } else if m == 0 && c == '$' {
            let m2: u8 = if has_dollar(rest) { 2 } else { 0 };
            lemma_strip_keeps_no_figure(rest, m2, false);
            lemma_no_figure_after_head(seq!['$'], strip_from(rest, m2, false));
        } else {
            let m2 = next_math(m, c);
            let x = strip_from(rest, m2, c == '\n');
            lemma_strip_keeps_no_figure(rest, m2, c == '\n');
            let o = seq![c] + x;
            if c != '<' {
                lemma_no_figure_after_head(seq![c], x);
            } else {
                assert forall|j: int| !occurs_at(o, figure_open(), j) by {
                    if occurs_at(o, figure_open(), j) {
                        if j > 0 {
                            assert(x.subrange(j - 1, j + 6) =~= o.subrange(j, j + 7));
                            assert(occurs_at(x, figure_open(), j - 1));
                        } else {
                            let tail = figure_open().drop_first();
                            assert(m2 == 2 || m2 == 3);
                            assert(x.take(6) =~= tail) by {
                                assert forall|i: int| 0 <= i < 6 implies x[i] == tail[i] by {
                                    assert(o.subrange(0, 7)[i + 1] == figure_open()[i + 1]);
                                }
                            }
                            lemma_math_prefix(rest, m2, false, tail);
                            assert(s.subrange(0, 7) =~= figure_open()) by {
                                assert forall|i: int| 0 <= i < 7 implies s[i] == figure_open()[i] by {
                                    if i > 0 {
                                        assert(rest.take(6)[i - 1] == tail[i - 1]);
                                    }
                                }
                            }
                            assert(occurs_at(s, figure_open(), 0));
                        }
                    }
                }
            }
        }
    }
}

/// Leading whitespace outside math passes through the stripper unchanged.
proof fn lemma_strip_ws_prefix(s: Seq<char>, k: int, bol: bool)
    requires
        0 <= k <= s.len(),
        forall|i: int| 0 <= i < k ==> is_ws(s[i]),
    ensures
        strip_from(s, 0, bol) == s.take(k) + strip_from(s.skip(k), 0, if k == 0 { bol } else { s[k - 1] == '\n' }),
    decreases k,
{
    if k == 0 {
        assert(s.skip(0) =~= s);
        assert(s.take(0) + strip_from(s, 0, bol) =~= strip_from(s, 0, bol));
    } else {
        let rest = s.drop_first();
        assert forall|i: int| 0 <= i < k - 1 implies is_ws(rest[i]) by {
            assert(is_ws(s[i + 1]));
        }
        lemma_emit_plain(s, 0, bol);
        lemma_strip_ws_prefix(rest, k - 1, s[0] == '\n');
        assert(rest.skip(k - 1) =~= s.skip(k));
        if k > 1 {
            assert(rest[k - 2] == s[k - 1]);
        }
        assert(seq![s[0]] + rest.take(k - 1) =~= s.take(k));
    }
}

/// Outside math the line state matters only when the output opens with a
/// block delimiter, which then starts with a line break.
proof fn lemma_bol_irrelevant(s: Seq<char>)
    requires
        strip_from(s, 0, false).len() == 0 || strip_from(s, 0, false)[0] != '\n',
    ensures
        strip_from(s, 0, true) == strip_from(s, 0, false),
    decreases s.len(),
{
    if s.len() > 0 && s[0] == '<' {
        let rest = s.drop_first();
        let k = tag_end(rest);
        if 0 <= k < rest.len() {
            lemma_bol_irrelevant(rest.skip(k + 1));
        }
    }
}

/// A text the stripper leaves unchanged from some line state is left
/// unchanged from the start of a line too, when it does not open with a line break.
proof fn lemma_fixed_from_line_start(y: Seq<char>, bol: bool)
    requires
        strip_from(y, 0, bol) == y,
        y.len() == 0 || y[0] != '\n',
    ensures
        strip_from(y, 0, true) == y,
{
    if !bol {
        lemma_bol_irrelevant(y);
    }
}

/// Sanitizing is idempotent: sanitizing sanitized text leaves it unchanged.
pub proof fn sanitize_is_idempotent(s: Seq<char>)
    ensures
        sanitized(sanitized(s)) == sanitized(s),
{
    let w = replace_figures(s, 1);
    let z = strip_markup(w);
    lemma_no_figure_after_replace(s, 1);
    lemma_strip_keeps_no_figure(w, 0, true);
    let k = lemma_trim_start(z);
    let y = z.skip(k);
    lemma_no_figure_suffix(z, k);
    lemma_replace_noop(y, 1);
    lemma_strip_twice(w, 0, true);
    let bk = if k == 0 { true } else { z[k - 1] == '\n' };
    lemma_strip_ws_prefix(z, k, true);
    let sy = strip_from(y, 0, bk);
    assert(z == z.take(k) + sy);
    assert(sy =~= y) by {
        assert forall|i: int| 0 <= i < sy.len() implies sy[i] == y[i] by {
            assert((z.take(k) + sy)[k + i] == sy[i]);
        }
    }
    if y.len() > 0 {
        assert(y[0] == z[k]);
        assert(!is_ws(z[k]));
    }
    lemma_fixed_from_line_start(y, bk);
    let k2 = lemma_trim_start(y);
    if k2 > 0 {
        assert(is_ws(y[0]));
        assert(y[0] == z[k]);
    }
    assert(y.skip(0) =~= y);
}

} // verus!
