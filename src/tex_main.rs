//! Picks the main `.tex` file of an extracted LaTeX source bundle.
use vstd::prelude::*;
use vstd::utf8::encode_utf8;
use crate::text::{
    contains, contains_chars, chars_of, last_index_of, last_index_of_char, lemma_last_index_of,
    lower_chars, lower_seq, skip_chars, take_chars,
};

verus! {

/// The last `/`-separated component of a path.
pub open spec fn file_name(p: Seq<char>) -> Seq<char> {
    p.skip(last_index_of(p, '/') + 1)
}

/// The extension of a path: what follows the last `.` of its file name,
/// provided that `.` is not the name's first character.
pub open spec fn extension(p: Seq<char>) -> Option<Seq<char>> {
    let n = file_name(p);
    let d = last_index_of(n, '.');
    if d > 0 {
        Some(n.skip(d + 1))
    } else {
        None
    }
}

/// The file name of a path without its extension.
pub open spec fn file_stem(p: Seq<char>) -> Seq<char> {
    let n = file_name(p);
    let d = last_index_of(n, '.');
    if d > 0 {
        n.take(d)
    } else {
        n
    }
}

pub open spec fn is_tex_path(p: Seq<char>) -> bool {
    extension(p) == Some(seq!['t', 'e', 'x'])
}

/// The name fragments that mark a supplementary document.
pub open spec fn supplementary_fragments() -> Seq<Seq<char>> {
    seq![
        seq!['s', 'u', 'p', 'p'],
        seq!['s', 'u', 'p', 'p', 'l', 'e', 'm', 'e', 'n', 't'],
        seq!['a', 'p', 'p', 'e', 'n', 'd', 'i', 'x'],
        seq!['s', 'i'],
        seq!['s', 'u', 'p', 'p', 'l', 'e', 'm', 'e', 'n', 't', 'a', 'r', 'y'],
    ]
}

/// The lower-cased file stem holds one of the supplementary fragments.
pub open spec fn is_supplementary(p: Seq<char>) -> bool {
    exists|k: int|
        0 <= k < supplementary_fragments().len() && contains(
            lower_seq(file_stem(p)),
            supplementary_fragments()[k],
        )
}

pub open spec fn document_class() -> Seq<char> {
    seq!['\\', 'd', 'o', 'c', 'u', 'm', 'e', 'n', 't', 'c', 'l', 'a', 's', 's']
}

/// The preference key of a candidate: a document-class marker first, then a
/// name that is not supplementary, then longer content (in UTF-8 bytes, as
/// `str::len` counts them).
pub open spec fn tex_key(path: Seq<char>, content: Seq<char>) -> (bool, bool, int) {
    (
        !contains(content, document_class()),
        is_supplementary(path),
        -((encode_utf8(content).len() as usize) as int),
    )
}

/// Lexicographic order on keys, `false` before `true`.
pub open spec fn key_lt(a: (bool, bool, int), b: (bool, bool, int)) -> bool {
    (!a.0 && b.0) || (a.0 == b.0 && ((!a.1 && b.1) || (a.1 == b.1 && a.2 < b.2)))
}

pub open spec fn file_key(files: Seq<(String, String)>, i: int) -> (bool, bool, int) {
    tex_key(files[i].0@, files[i].1@)
}

pub open spec fn is_tex_at(files: Seq<(String, String)>, i: int) -> bool {
    is_tex_path(files[i].0@)
}

/// `i` is the first of the `.tex` files with the least key.
pub open spec fn is_main_tex(files: Seq<(String, String)>, i: int) -> bool {
    &&& 0 <= i < files.len()
    &&& is_tex_at(files, i)
    &&& forall|j: int| 0 <= j < files.len() && is_tex_at(files, j) ==> !key_lt(file_key(files, j), file_key(files, i))
    &&& forall|j: int| 0 <= j < i && is_tex_at(files, j) ==> key_lt(file_key(files, i), file_key(files, j))
}

fn name_and_dot(p: &Vec<char>) -> (r: (Vec<char>, Option<usize>))
    ensures
        r.0@ == file_name(p@),
        match r.1 {
            Some(d) => last_index_of(file_name(p@), '.') == d as int,
            None => last_index_of(file_name(p@), '.') == -1,
        },
{
    proof {
        lemma_last_index_of(p@, '/');
    }
    let n = p.len();
    let slash = last_index_of_char(p, '/');
    let name = match slash {
        Some(k) => {
            assert(k < n);
            skip_chars(p, k + 1)
        },
        None => {
            assert(p@.skip(0) =~= p@);
            skip_chars(p, 0)
        },
    };
    let dot = last_index_of_char(&name, '.');
    (name, dot)
}

/// Whether the path has the extension `tex`.
pub fn is_tex_file(path: &str) -> (r: bool)
    ensures
        r == is_tex_path(path@),
{
    let p = chars_of(path);
    let (name, dot) = name_and_dot(&p);
    proof {
        lemma_last_index_of(file_name(p@), '.');
    }
    match dot {
        Some(d) => {
            if d == 0 {
                return false;
            }
            let ext = skip_chars(&name, d + 1);
            let r = ext.len() == 3 && ext[0] == 't' && ext[1] == 'e' && ext[2] == 'x';
            assert(r ==> ext@ =~= seq!['t', 'e', 'x']);
            r
        },
        None => false,
    }
}

/// Whether the path's lower-cased stem holds a supplementary fragment
/// (`supp`, `supplement`, `appendix`, `si`, `supplementary`).
pub fn is_supplementary_name(path: &str) -> (r: bool)
    ensures
        r == is_supplementary(path@),
{
    let p = chars_of(path);
    let (name, dot) = name_and_dot(&p);
    proof {
        lemma_last_index_of(file_name(p@), '.');
    }
    let stem = match dot {
        Some(d) => if d > 0 {
            take_chars(&name, d)
        } else {
            name
        },
        None => name,
    };
    let lower = lower_chars(&stem);
    let bad: Vec<Vec<char>> = vec![
        vec!['s', 'u', 'p', 'p'],
        vec!['s', 'u', 'p', 'p', 'l', 'e', 'm', 'e', 'n', 't'],
        vec!['a', 'p', 'p', 'e', 'n', 'd', 'i', 'x'],
        vec!['s', 'i'],
        vec!['s', 'u', 'p', 'p', 'l', 'e', 'm', 'e', 'n', 't', 'a', 'r', 'y'],
    ];
    assert(bad@.len() == supplementary_fragments().len());
    assert forall|k: int| 0 <= k < bad@.len() implies bad@[k]@ == supplementary_fragments()[k] by {
        assert(bad@[0]@ =~= supplementary_fragments()[0]);
        assert(bad@[1]@ =~= supplementary_fragments()[1]);
        assert(bad@[2]@ =~= supplementary_fragments()[2]);
        assert(bad@[3]@ =~= supplementary_fragments()[3]);
        assert(bad@[4]@ =~= supplementary_fragments()[4]);
    }
    let mut k: usize = 0;
    while k < bad.len()
        invariant
            k <= bad@.len() == supplementary_fragments().len(),
            p@ == path@,
            lower@ == lower_seq(file_stem(p@)),
            forall|t: int| 0 <= t < bad@.len() ==> bad@[t]@ == supplementary_fragments()[t],
            forall|t: int| 0 <= t < k ==> !contains(lower@, supplementary_fragments()[t]),
        decreases bad.len() - k,
    {
        if contains_chars(&lower, &bad[k]) {
            assert(0 <= k < supplementary_fragments().len() && contains(
                lower_seq(file_stem(p@)),
                supplementary_fragments()[k as int],
            ));
            return true;
        }
        k = k + 1;
    }
    false
}

/// Whether `a` is preferred over `b`.
fn key_less(a: (bool, bool, usize), b: (bool, bool, usize)) -> (r: bool)
    ensures
        r == key_lt((a.0, a.1, -(a.2 as int)), (b.0, b.1, -(b.2 as int))),
{
    (!a.0 && b.0) || (a.0 == b.0 && ((!a.1 && b.1) || (a.1 == b.1 && a.2 > b.2)))
}

fn candidate_key(path: &String, content: &String) -> (r: (bool, bool, usize))
    ensures
        (r.0, r.1, -(r.2 as int)) == tex_key(path@, content@),
{
    let dc: Vec<char> = vec!['\\', 'd', 'o', 'c', 'u', 'm', 'e', 'n', 't', 'c', 'l', 'a', 's', 's'];
    assert(dc@ =~= document_class());
    let c = chars_of(content.as_str());
    let has_dc = contains_chars(&c, &dc);
    let supp = is_supplementary_name(path.as_str());
    (!has_dc, supp, content.as_str().len())
}

/// Chooses the main `.tex` file among `(path, contents)` pairs: the first of
/// the `.tex` files with a `\documentclass` marker, a name that is not
/// supplementary, and the longest content, in that order of preference.
/// `None` when no path has the extension `tex`.
pub fn select_main_tex(files: &[(String, String)]) -> (r: Option<String>)
    ensures
        r is None <==> forall|i: int| 0 <= i < files@.len() ==> !is_tex_at(files@, i),
        r matches Some(p) ==> exists|i: int| is_main_tex(files@, i) && p@ == files@[i].0@,
{
    let mut best: Option<usize> = None;
    let mut best_key: (bool, bool, usize) = (true, true, 0);
    let mut i: usize = 0;
    while i < files.len()
        invariant
            i <= files@.len(),
            best is None <==> forall|j: int| 0 <= j < i ==> !is_tex_at(files@, j),
            best matches Some(b) ==> {
                &&& b < i
                &&& is_tex_at(files@, b as int)
                &&& (best_key.0, best_key.1, -(best_key.2 as int)) == file_key(files@, b as int)
                &&& forall|j: int| 0 <= j < i && is_tex_at(files@, j) ==> !key_lt(file_key(files@, j), file_key(files@, b as int))
                &&& forall|j: int| 0 <= j < b && is_tex_at(files@, j) ==> key_lt(file_key(files@, b as int), file_key(files@, j))
            },
        decreases files.len() - i,
    {
        let tex = is_tex_file(files[i].0.as_str());
        assert(tex == is_tex_at(files@, i as int));
        if tex {
            let k = candidate_key(&files[i].0, &files[i].1);
            match best {
                None => {
                    best = Some(i);
                    best_key = k;
                },
                Some(b) => {
                    if key_less(k, best_key) {
                        best = Some(i);
                        best_key = k;
                    }
                },
            }
        }
        i = i + 1;
    }
    match best {
        Some(b) => {
            assert(is_main_tex(files@, b as int));
            Some(files[b].0.clone())
        },
        None => None,
    }
}

} // verus!
