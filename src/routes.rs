//! Request-level logic: identifier normalisation, content negotiation, the
//! metadata header, error statuses and the flow of one paper request.
use vstd::prelude::*;
use pulldown_cmark::{html, Options, Parser};
use crate::atom::{views, Metadata};
use crate::convert::ConvertError;
use crate::source::ArxivError;
use crate::text::{
    chars_of, contains, contains_chars, lower_chars, lower_seq, matches_at, occurs_at, push_all,
    string_from_chars, to_ascii_lower, trim, trim_chars,
};

verus! {

pub open spec fn dot_pdf() -> Seq<char> {
    seq!['.', 'p', 'd', 'f']
}

/// The identifier without a trailing `.pdf` (in any ASCII case).
pub open spec fn normalized_id(raw: Seq<char>) -> Seq<char> {
    if raw.len() >= 4 && lower_seq(raw.skip(raw.len() - 4)) == dot_pdf() {
        raw.take(raw.len() - 4)
    } else {
        raw
    }
}

/// Drops a trailing `.pdf`, in any ASCII case, from a paper identifier.
pub fn normalize_id(raw: &str) -> (r: &str)
    ensures
        r@ == normalized_id(raw@),
{
    let n = raw.unicode_len();
    if n >= 4 {
        let a = to_ascii_lower(raw.get_char(n - 4));
        let b = to_ascii_lower(raw.get_char(n - 3));
        let c = to_ascii_lower(raw.get_char(n - 2));
        let d = to_ascii_lower(raw.get_char(n - 1));
        let ghost tail = lower_seq(raw@.skip(n - 4 as int));
        assert(tail.len() == 4);
        assert(tail[0] == a && tail[1] == b && tail[2] == c && tail[3] == d);
        if a == '.' && b == 'p' && c == 'd' && d == 'f' {
            assert(tail =~= dot_pdf());
            return raw.substring_char(0, n - 4);
        }
        assert(tail != dot_pdf()) by {
            if tail == dot_pdf() {
                assert(tail[0] == dot_pdf()[0]);
                assert(tail[1] == dot_pdf()[1]);
                assert(tail[2] == dot_pdf()[2]);
                assert(tail[3] == dot_pdf()[3]);
            }
        }
    }
    raw
}

/// HTML is wanted without an `Accept` header, or when it names `text/html` or `*/*`.
pub open spec fn html_wanted(accept: Option<Seq<char>>) -> bool {
    match accept {
        None => true,
        Some(s) => contains(lower_seq(s), "text/html"@) || contains(lower_seq(s), "*/*"@),
    }
}

/// Whether the client asks for HTML rather than markdown (see `html_wanted`).
pub fn wants_html(accept: Option<&str>) -> (r: bool)
    ensures
        r == html_wanted(
            match accept {
                Some(s) => Some(s@),
                None => None,
            },
        ),
{
    match accept {
        None => true,
        Some(s) => {
            let cs = chars_of(s);
            let lower = lower_chars(&cs);
            let html = chars_of("text/html");
            let any = chars_of("*/*");
            contains_chars(&lower, &html) || contains_chars(&lower, &any)
        },
    }
}

/// The name of what the CommonMark renderer makes of `md`.
pub uninterp spec fn commonmark_html(md: Seq<char>) -> Seq<char>;

/// Relies on pulldown-cmark's `Parser::new_ext` with tables, footnotes,
/// strikethrough and task lists, and `html::push_html`: the HTML of `md`.
#[verifier::external_body]
fn markdown_to_html(md: &str) -> (r: String)
    ensures
        r@ == commonmark_html(md@),
{
    let opts = Options::ENABLE_TABLES | Options::ENABLE_FOOTNOTES | Options::ENABLE_STRIKETHROUGH
        | Options::ENABLE_TASKLISTS;
    let mut out = String::new();
    html::push_html(&mut out, Parser::new_ext(md, opts));
    out
}

pub open spec fn page_head() -> Seq<char> {
    "<!doctype html><meta charset=\"utf-8\"><title>markxiv</title><body>"@
}

/// A complete HTML page showing the markdown `md`.
pub fn render_markdown_html(md: &str) -> (r: String)
    ensures
        r@ == page_head() + commonmark_html(md@) + "</body>"@,
{
    let mut out = String::from_str("<!doctype html><meta charset=\"utf-8\"><title>markxiv</title><body>");
    let body = markdown_to_html(md);
    out.append(body.as_str());
    out.append("</body>");
    out
}

/// Tags removed: from `<` through the next `>`; a `>` outside a tag is kept.
pub open spec fn strip_plain(s: Seq<char>, in_tag: bool) -> Seq<char>
    decreases s.len(),
{
    if s.len() == 0 {
        seq![]
    } else if s[0] == '<' {
        strip_plain(s.drop_first(), true)
    } else if s[0] == '>' {
        if in_tag {
            strip_plain(s.drop_first(), false)
        } else {
            seq!['>'] + strip_plain(s.drop_first(), false)
        }
    } else if in_tag {
        strip_plain(s.drop_first(), true)
    } else {
        seq![s[0]] + strip_plain(s.drop_first(), false)
    }
}

/// Strips HTML tags from characters (see `strip_plain`).
pub(crate) fn strip_plain_chars(s: &Vec<char>) -> (r: Vec<char>)
    ensures
        r@ == strip_plain(s@, false),
{
    let mut out: Vec<char> = Vec::new();
    let mut in_tag = false;
    let mut i: usize = 0;
    assert(s@.skip(0) =~= s@);
    assert(out@ + strip_plain(s@, false) =~= strip_plain(s@, false));
    while i < s.len()
        invariant
            i <= s@.len(),
            out@ + strip_plain(s@.skip(i as int), in_tag) == strip_plain(s@, false),
        decreases s.len() - i,
    {
        let c = s[i];
        assert(s@.skip(i as int).drop_first() =~= s@.skip(i + 1));
        let ghost before = out@;
        let ghost was_tag = in_tag;
        if c == '<' {
            in_tag = true;
        } else if c == '>' {
            if !in_tag {
                out.push('>');
            }
            in_tag = false;
        } else if !in_tag {
            out.push(c);
        }
        assert(out@ + strip_plain(s@.skip(i + 1), in_tag) =~= before + strip_plain(s@.skip(i as int), was_tag));
        i = i + 1;
    }
    assert(out@ + strip_plain(s@.skip(i as int), in_tag) =~= out@);
    out
}

/// Plain tag stripping never leaves a `<`.
pub proof fn lemma_strip_plain_no_lt(s: Seq<char>, in_tag: bool)
    ensures
        forall|i: int| 0 <= i < strip_plain(s, in_tag).len() ==> strip_plain(s, in_tag)[i] != '<',
    decreases s.len(),
{
    if s.len() > 0 {
        lemma_strip_plain_no_lt(s.drop_first(), s[0] == '<' || (in_tag && s[0] != '>'));
        lemma_strip_plain_no_lt(s.drop_first(), false);
        lemma_strip_plain_no_lt(s.drop_first(), true);
    }
}

/// Strips HTML tags, keeping their inner text (see `strip_plain`).
pub fn strip_html_tags(input: &str) -> (r: String)
    ensures
        r@ == strip_plain(input@, false),
{
    let s = chars_of(input);
    string_from_chars(&strip_plain_chars(&s))
}

} // verus!

verus! {

/// Tags stripped, then surrounding whitespace trimmed.
pub open spec fn clean(s: Seq<char>) -> Seq<char> {
    trim(strip_plain(s, false))
}

/// The cleaned author names that are not empty, in order.
pub open spec fn clean_authors(a: Seq<Seq<char>>) -> Seq<Seq<char>>
    decreases a.len(),
{
    if a.len() == 0 {
        seq![]
    } else {
        let rest = clean_authors(a.drop_last());
        if clean(a.last()).len() > 0 {
            rest.push(clean(a.last()))
        } else {
            rest
        }
    }
}

/// The parts joined with `sep` between neighbours.
pub open spec fn join(parts: Seq<Seq<char>>, sep: Seq<char>) -> Seq<char>
    decreases parts.len(),
{
    if parts.len() == 0 {
        seq![]
    } else if parts.len() == 1 {
        parts[0]
    } else {
        join(parts.drop_last(), sep) + sep + parts.last()
    }
}

/// The body under a header of title, authors and abstract; each section
/// only when its cleaned text is not empty.
pub open spec fn with_metadata(title: Seq<char>, summary: Seq<char>, authors: Seq<Seq<char>>, body: Seq<char>) -> Seq<char> {
    let t = clean(title);
    let a = clean(summary);
    let au = clean_authors(authors);
    (if t.len() > 0 { "# "@ + t + "\n\n"@ } else { seq![] }) + (if au.len() > 0 {
        "## Authors\n"@ + join(au, ", "@) + "\n\n"@
    } else {
        seq![]
    }) + (if a.len() > 0 { "## Abstract\n"@ + a + "\n\n"@ } else { seq![] }) + body
}

fn clean_chars(s: &str) -> (r: Vec<char>)
    ensures
        r@ == clean(s@),
{
    let stripped = strip_html_tags(s);
    let cs = chars_of(stripped.as_str());
    trim_chars(&cs)
}

/// Puts a markdown header with the paper's title, authors and abstract
/// (tags stripped, trimmed, empty sections left out) above `body_md`.
pub fn prepend_metadata(meta: &Metadata, body_md: &str) -> (r: String)
    ensures
        r@ == with_metadata(meta.title@, meta.summary@, views(meta.authors@), body_md@),
{
    let title = clean_chars(meta.title.as_str());
    let abstract_text = clean_chars(meta.summary.as_str());
    let mut authors: Vec<Vec<char>> = Vec::new();
    let mut i: usize = 0;
    while i < meta.authors.len()
        invariant
            i <= meta.authors@.len(),
            authors@.map_values(|v: Vec<char>| v@) == clean_authors(views(meta.authors@.take(i as int))),
        decreases meta.authors.len() - i,
    {
        let a = clean_chars(meta.authors[i].as_str());
        let ghost before = authors@.map_values(|v: Vec<char>| v@);
        assert(views(meta.authors@.take(i + 1)).drop_last() =~= views(meta.authors@.take(i as int)));
        let ghost av = a@;
        if a.len() > 0 {
            authors.push(a);
            assert(authors@.map_values(|v: Vec<char>| v@) =~= before.push(av));
        }
        i = i + 1;
    }
    assert(meta.authors@.take(i as int) =~= meta.authors@);
    let ghost au = clean_authors(views(meta.authors@));
    let mut out: Vec<char> = Vec::new();
    if title.len() > 0 {
        push_all(&mut out, &chars_of("# "));
        push_all(&mut out, &title);
        push_all(&mut out, &chars_of("\n\n"));
    }
    let ghost part1 = out@;
    if authors.len() > 0 {
        push_all(&mut out, &chars_of("## Authors\n"));
        let ghost start = out@;
        let mut k: usize = 0;
        while k < authors.len()
            invariant
                0 < authors@.len(),
                k <= authors@.len(),
                authors@.map_values(|v: Vec<char>| v@) == au,
                out@ == start + if k == 0 { seq![] } else { join(au.take(k as int), ", "@) },
            decreases authors.len() - k,
        {
            assert(au.take(k + 1).drop_last() =~= au.take(k as int));
            assert(au[k as int] == authors@[k as int]@);
            if k > 0 {
                push_all(&mut out, &chars_of(", "));
            }
            push_all(&mut out, &authors[k]);
            assert(out@ =~= start + join(au.take(k + 1), ", "@));
            k = k + 1;
        }
        assert(au.take(k as int) =~= au);
        push_all(&mut out, &chars_of("\n\n"));
    }
    let ghost part2 = out@;
    if abstract_text.len() > 0 {
        push_all(&mut out, &chars_of("## Abstract\n"));
        push_all(&mut out, &abstract_text);
        push_all(&mut out, &chars_of("\n\n"));
    }
    push_all(&mut out, &chars_of(body_md));
    assert(out@ =~= with_metadata(meta.title@, meta.summary@, views(meta.authors@), body_md@));
    string_from_chars(&out)
}

} // verus!

verus! {

/// Status and message for a source failure.
pub open spec fn arxiv_failure(e: ArxivError) -> (u16, Seq<char>) {
    match e {
        ArxivError::NotFound => (404, "not found"@),
        ArxivError::PdfOnly => (422, "Error: PDF only"@),
        ArxivError::Network(m) => (502, m@),
        ArxivError::NotImplemented => (501, "not implemented"@),
    }
}

/// Status and message for a conversion failure.
pub open spec fn convert_failure(e: ConvertError) -> (u16, Seq<char>) {
    match e {
        ConvertError::Failed(m) => (500, m@),
        ConvertError::NotImplemented => (501, "not implemented"@),
    }
}

/// The HTTP status and body reporting a source failure met at `context`
/// while serving paper `id`.
pub fn map_arxiv_err(context: &str, id: &str, e: ArxivError) -> (r: (u16, String))
    ensures
        (r.0, r.1@) == arxiv_failure(e),
{
    match e {
        ArxivError::NotFound => (404, String::from_str("not found")),
        ArxivError::PdfOnly => (422, String::from_str("Error: PDF only")),
        ArxivError::Network(m) => (502, m),
        ArxivError::NotImplemented => (501, String::from_str("not implemented")),
    }
}

/// The HTTP status and body reporting a conversion failure met at
/// `context` while serving paper `id`.
pub fn map_convert_err(context: &str, id: &str, e: ConvertError) -> (r: (u16, String))
    ensures
        (r.0, r.1@) == convert_failure(e),
{
    match e {
        ConvertError::Failed(m) => (500, m),
        ConvertError::NotImplemented => (501, String::from_str("not implemented")),
    }
}

pub open spec fn refresh_pair() -> Seq<char> {
    seq!['r', 'e', 'f', 'r', 'e', 's', 'h', '=', '1']
}

/// One `&`-separated field of the query is exactly `refresh=1`.
pub open spec fn refresh_in(q: Seq<char>) -> bool {
    exists|i: int|
        #![trigger occurs_at(q, refresh_pair(), i)]
        occurs_at(q, refresh_pair(), i) && (i == 0 || q[i - 1] == '&') && (i + 9 == q.len() || q[i
            + 9] == '&')
}

/// Whether the raw query string asks to bypass both cache tiers.
pub fn refresh_requested(query: Option<&str>) -> (r: bool)
    ensures
        r == match query {
            Some(q) => refresh_in(q@),
            None => false,
        },
{
    let q = match query {
        None => return false,
        Some(q) => chars_of(q),
    };
    let pat: Vec<char> = vec!['r', 'e', 'f', 'r', 'e', 's', 'h', '=', '1'];
    assert(pat@ =~= refresh_pair());
    let mut i: usize = 0;
    while i < q.len()
        invariant
            i <= q@.len(),
            pat@ == refresh_pair(),
            query matches Some(s) && s@ == q@,
            forall|j: int| #![trigger occurs_at(q@, refresh_pair(), j)] 0 <= j < i ==> !(occurs_at(q@, refresh_pair(), j) && (j == 0 || q@[j - 1] == '&') && (j + 9 == q@.len() || q@[j + 9] == '&')),
        decreases q.len() - i,
    {
        if (i == 0 || q[i - 1] == '&') && matches_at(&q, &pat, i) {
            if i + 9 == q.len() || q[i + 9] == '&' {
                return true;
            }
        }
        i = i + 1;
    }
    false
}

/// Where the log goes: the given file path when it is not empty; otherwise
/// `markxiv.log` in the given directory (default `logs`), or alone when that is empty.
pub open spec fn log_path(path_env: Option<Seq<char>>, dir_env: Option<Seq<char>>) -> Seq<char> {
    match path_env {
        Some(p) if p.len() > 0 => p,
        _ => {
            let d = match dir_env {
                Some(d) => d,
                None => "logs"@,
            };
            if d.len() == 0 {
                "markxiv.log"@
            } else if d.last() == '/' {
                d + "markxiv.log"@
            } else {
                d + "/markxiv.log"@
            }
        },
    }
}

/// The log file's path (see `log_path`).
pub fn resolve_log_path(path_env: Option<String>, dir_env: Option<String>) -> (r: String)
    ensures
        r@ == log_path(
            match path_env {
                Some(p) => Some(p@),
                None => None,
            },
            match dir_env {
                Some(d) => Some(d@),
                None => None,
            },
        ),
{
    if let Some(p) = path_env {
        if p.as_str().unicode_len() > 0 {
            return p;
        }
    }
    let d = match dir_env {
        Some(d) => d,
        None => String::from_str("logs"),
    };
    let n = d.as_str().unicode_len();
    if n == 0 {
        String::from_str("markxiv.log")
    } else if d.as_str().get_char(n - 1) == '/' {
        d.concat("markxiv.log")
    } else {
        d.concat("/markxiv.log")
    }
}

} // verus!

verus! {

/// The paper identifier in a request path: trimmed, without a `.pdf`
/// suffix; `None` when that is empty or not ASCII.
pub open spec fn paper_id_of(raw: Seq<char>) -> Option<Seq<char>> {
    let id = normalized_id(trim(raw));
    if id.len() == 0 || !vstd::utf8::is_ascii_chars(id) {
        None
    } else {
        Some(id)
    }
}

/// The identifier a request names (see `paper_id_of`).
pub fn paper_id(raw: &str) -> (r: Option<String>)
    ensures
        match r {
            Some(id) => paper_id_of(raw@) == Some(id@),
            None => paper_id_of(raw@) is None,
        },
{
    let cs = chars_of(raw);
    let t = string_from_chars(&trim_chars(&cs));
    let id = normalize_id(t.as_str());
    if id.unicode_len() == 0 || !id.is_ascii() {
        None
    } else {
        Some(String::from_str(id))
    }
}

/// The canonical path of a paper, which is also its cache key.
pub fn canonical_path(id: &str) -> (r: String)
    ensures
        r@ == "/abs/"@ + id@,
{
    String::from_str("/abs/").concat(id)
}

} // verus!
