//! A small, forgiving reader of the first `<entry>` of an Atom feed: title,
//! summary and author names, found by tag search rather than XML parsing.
use vstd::prelude::*;
use crate::text::{
    chars_of, find_chars, find_from, lemma_find_from_some, push_all, slice_chars, string_from_chars,
    trim, trim_chars,
};

verus! {

/// The metadata of a paper.
#[derive(Debug, Clone, PartialEq, Eq)]
pub struct Metadata {
    pub title: String,
    pub summary: String,
    pub authors: Vec<String>,
}

pub open spec fn open_tag(tag: Seq<char>) -> Seq<char> {
    seq!['<'] + tag
}

pub open spec fn close_tag(tag: Seq<char>) -> Seq<char> {
    seq!['<', '/'] + tag + seq!['>']
}

/// The text between the first `<tag` (its opening tag may carry attributes)
/// and the next `</tag>` after that opening tag's `>`.
pub open spec fn tag_text(s: Seq<char>, tag: Seq<char>) -> Option<Seq<char>> {
    match find_from(s, open_tag(tag), 0) {
        None => None,
        Some(st) => match find_from(s, seq!['>'], st) {
            None => None,
            Some(g) => match find_from(s, close_tag(tag), g + 1) {
                None => None,
                Some(e) => Some(s.subrange(g + 1, e)),
            },
        },
    }
}

pub open spec fn entry_open() -> Seq<char> {
    seq!['<', 'e', 'n', 't', 'r', 'y']
}

pub open spec fn entry_close() -> Seq<char> {
    seq!['<', '/', 'e', 'n', 't', 'r', 'y', '>']
}

pub open spec fn author_open() -> Seq<char> {
    seq!['<', 'a', 'u', 't', 'h', 'o', 'r']
}

pub open spec fn author_close() -> Seq<char> {
    seq!['<', '/', 'a', 'u', 't', 'h', 'o', 'r', '>']
}

pub open spec fn name_tag() -> Seq<char> {
    seq!['n', 'a', 'm', 'e']
}

/// The trimmed, non-empty names of the `<author>...</author>` blocks of `s`, in order.
pub open spec fn authors_of(s: Seq<char>) -> Seq<Seq<char>>
    decreases s.len(),
{
    match find_from(s, author_open(), 0) {
        None => seq![],
        Some(st) => match find_from(s, author_close(), st) {
            None => seq![],
            Some(e) => if 0 <= st <= e && e + 9 <= s.len() {
                let rest = authors_of(s.skip(e + 9));
                match tag_text(s.subrange(st, e + 9), name_tag()) {
                    Some(n) => if trim(n).len() > 0 {
                        seq![trim(n)] + rest
                    } else {
                        rest
                    },
                    None => rest,
                }
            } else {
                seq![]
            },
        },
    }
}

/// The views of a list of strings.
pub open spec fn views(v: Seq<String>) -> Seq<Seq<char>> {
    v.map_values(|s: String| s@)
}

/// The metadata of the first `<entry>...</entry>` of `atom`: its trimmed
/// title (required), trimmed summary (empty when absent) and author names.
pub open spec fn atom_metadata(atom: Seq<char>) -> Option<(Seq<char>, Seq<char>, Seq<Seq<char>>)> {
    match find_from(atom, entry_open(), 0) {
        None => None,
        Some(es) => match find_from(atom, entry_close(), es) {
            None => None,
            Some(ee) => {
                let entry = atom.subrange(es, ee + 8);
                match tag_text(entry, seq!['t', 'i', 't', 'l', 'e']) {
                    None => None,
                    Some(t) => Some(
                        (
                            trim(t),
                            trim(
                                match tag_text(entry, seq!['s', 'u', 'm', 'm', 'a', 'r', 'y']) {
                                    Some(x) => x,
                                    None => seq![],
                                },
                            ),
                            authors_of(entry),
                        ),
                    ),
                }
            },
        },
    }
}

pub(crate) fn tag_text_chars(s: &Vec<char>, tag: &Vec<char>) -> (r: Option<Vec<char>>)
    ensures
        match r {
            Some(t) => tag_text(s@, tag@) == Some(t@),
            None => tag_text(s@, tag@) is None,
        },
{
    let mut open: Vec<char> = vec!['<'];
    push_all(&mut open, tag);
    let mut close: Vec<char> = vec!['<', '/'];
    push_all(&mut close, tag);
    close.push('>');
    let gt: Vec<char> = vec!['>'];
    assert(open@ =~= open_tag(tag@));
    assert(close@ =~= close_tag(tag@));
    assert(gt@ =~= seq!['>']);
    let n = s.len();
    let st = match find_chars(s, &open, 0) {
        None => return None,
        Some(st) => st,
    };
    let g = match find_chars(s, &gt, st) {
        None => return None,
        Some(g) => g,
    };
    proof {
        lemma_find_from_some(s@, seq!['>'], st as int, g as int);
    }
    assert(g + 1 <= n);
    let e = match find_chars(s, &close, g + 1) {
        None => return None,
        Some(e) => e,
    };
    proof {
        lemma_find_from_some(s@, close_tag(tag@), g + 1, e as int);
    }
    Some(slice_chars(s, g + 1, e))
}

/// The text inside the first `tag` element of `s` (see `tag_text`).
pub fn extract_tag(s: &str, tag: &str) -> (r: Option<String>)
    ensures
        match r {
            Some(t) => tag_text(s@, tag@) == Some(t@),
            None => tag_text(s@, tag@) is None,
        },
{
    let cs = chars_of(s);
    let ts = chars_of(tag);
    match tag_text_chars(&cs, &ts) {
        Some(t) => Some(string_from_chars(&t)),
        None => None,
    }
}

fn authors_chars(entry: &Vec<char>) -> (r: Vec<String>)
    ensures
        views(r@) == authors_of(entry@),
{
    let open: Vec<char> = vec!['<', 'a', 'u', 't', 'h', 'o', 'r'];
    let close: Vec<char> = vec!['<', '/', 'a', 'u', 't', 'h', 'o', 'r', '>'];
    let name: Vec<char> = vec!['n', 'a', 'm', 'e'];
    assert(open@ =~= author_open());
    assert(close@ =~= author_close());
    assert(name@ =~= name_tag());
    let mut authors: Vec<String> = Vec::new();
    let mut rem: Vec<char> = entry.clone();
    assert(views(authors@) + authors_of(rem@) =~= authors_of(entry@));
    loop
        invariant
            open@ == author_open(),
            close@ == author_close(),
            name@ == name_tag(),
            views(authors@) + authors_of(rem@) == authors_of(entry@),
        ensures
            views(authors@) == authors_of(entry@),
        decreases rem.len(),
    {
        let st = match find_chars(&rem, &open, 0) {
            None => {
                assert(authors_of(rem@) =~= seq![]);
                break;
            },
            Some(st) => st,
        };
        proof {
            lemma_find_from_some(rem@, author_open(), 0, st as int);
        }
        let e = match find_chars(&rem, &close, st) {
            None => {
                assert(authors_of(rem@) =~= seq![]);
                break;
            },
            Some(e) => e,
        };
        proof {
            lemma_find_from_some(rem@, author_close(), st as int, e as int);
        }
        let block = slice_chars(&rem, st, e + 9);
        let ghost before = views(authors@);
        match tag_text_chars(&block, &name) {
            Some(n) => {
                let t = trim_chars(&n);
                if t.len() > 0 {
                    authors.push(string_from_chars(&t));
                    assert(views(authors@) =~= before + seq![t@]);
                }
            },
            None => {},
        }
        rem = crate::text::skip_chars(&rem, e + 9);
        assert(views(authors@) + authors_of(rem@) =~= authors_of(entry@));
    }
    authors
}

/// The author names of an entry (see `authors_of`).
pub fn extract_authors(entry: &str) -> (r: Vec<String>)
    ensures
        views(r@) == authors_of(entry@),
{
    let cs = chars_of(entry);
    authors_chars(&cs)
}

/// Reads the first entry of an Atom feed (see `atom_metadata`); `None` when
/// there is no complete entry or it has no title.
pub fn parse_atom_metadata(atom: &str) -> (r: Option<Metadata>)
    ensures
        match r {
            Some(m) => atom_metadata(atom@) == Some((m.title@, m.summary@, views(m.authors@))),
            None => atom_metadata(atom@) is None,
        },
{
    let cs = chars_of(atom);
    let eo: Vec<char> = vec!['<', 'e', 'n', 't', 'r', 'y'];
    let ec: Vec<char> = vec!['<', '/', 'e', 'n', 't', 'r', 'y', '>'];
    assert(eo@ =~= entry_open());
    assert(ec@ =~= entry_close());
    let n = cs.len();
    let es = match find_chars(&cs, &eo, 0) {
        None => return None,
        Some(es) => es,
    };
    let ee = match find_chars(&cs, &ec, es) {
        None => return None,
        Some(ee) => ee,
    };
    proof {
        lemma_find_from_some(cs@, entry_close(), es as int, ee as int);
        lemma_find_from_some(cs@, entry_open(), 0, es as int);
    }
    assert(ee + 8 <= n);
    let entry = slice_chars(&cs, es, ee + 8);
    let title_tag: Vec<char> = vec!['t', 'i', 't', 'l', 'e'];
    let summary_tag: Vec<char> = vec!['s', 'u', 'm', 'm', 'a', 'r', 'y'];
    assert(title_tag@ =~= seq!['t', 'i', 't', 'l', 'e']);
    assert(summary_tag@ =~= seq!['s', 'u', 'm', 'm', 'a', 'r', 'y']);
    let title = match tag_text_chars(&entry, &title_tag) {
        None => return None,
        Some(t) => trim_chars(&t),
    };
    let summary = match tag_text_chars(&entry, &summary_tag) {
        Some(x) => trim_chars(&x),
        None => {
            let empty: Vec<char> = Vec::new();
            assert(trim(empty@) =~= seq![]) by {
                assert(crate::text::trim_start(empty@) == empty@);
                assert(crate::text::trim_end(empty@) == empty@);
            }
            empty
        },
    };
    let authors = authors_chars(&entry);
    Some(
        Metadata {
            title: string_from_chars(&title),
            summary: string_from_chars(&summary),
            authors,
        },
    )
}

} // verus!
