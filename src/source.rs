//! What the document source reports, and how its HTTP answers are judged.
//! The requests themselves are made by the caller.
use vstd::prelude::*;

verus! {

/// A failure reported by the document source.
#[derive(Clone, Debug, PartialEq, Eq)]
pub enum ArxivError {
    NotFound,
    PdfOnly,
    Network(String),
    NotImplemented,
}

impl ArxivError {
    /// The human-readable text of the error.
    pub fn message(&self) -> (r: String)
        ensures
            match self {
                ArxivError::NotFound => r@ == "not found"@,
                ArxivError::PdfOnly => r@ == "pdf only"@,
                ArxivError::Network(m) => r@ == "network error: "@ + m@,
                ArxivError::NotImplemented => r@ == "not implemented"@,
            },
    {
        match self {
            ArxivError::NotFound => String::from_str("not found"),
            ArxivError::PdfOnly => String::from_str("pdf only"),
            ArxivError::Network(m) => {
                let mut s = String::from_str("network error: ");
                s.append(m.as_str());
                s
            },
            ArxivError::NotImplemented => String::from_str("not implemented"),
        }
    }
}

pub open spec fn pdf_magic() -> Seq<u8> {
    seq![37u8, 80u8, 68u8, 70u8, 45u8]
}

/// The payload starts with the PDF signature `%PDF-`.
pub open spec fn is_pdf(b: Seq<u8>) -> bool {
    b.len() >= 5 && b.take(5) == pdf_magic()
}

/// Whether the payload starts with the PDF signature `%PDF-`.
pub fn looks_like_pdf(bytes: &[u8]) -> (r: bool)
    ensures
        r == is_pdf(bytes@),
{
    if bytes.len() < 5 {
        return false;
    }
    let r = bytes[0] == 37u8 && bytes[1] == 80u8 && bytes[2] == 68u8 && bytes[3] == 70u8
        && bytes[4] == 45u8;
    assert(r ==> bytes@.take(5) =~= pdf_magic());
    assert(bytes@.take(5) == pdf_magic() ==> bytes@.take(5)[0] == 37u8 && bytes@.take(5)[1] == 80u8
        && bytes@.take(5)[2] == 68u8 && bytes@.take(5)[3] == 70u8 && bytes@.take(5)[4] == 45u8);
    r
}

pub open spec fn is_blank_byte(b: u8) -> bool {
    b == 9u8 || b == 10u8 || b == 13u8 || b == 32u8
}

pub open spec fn lower_byte(b: u8) -> u8 {
    if 65u8 <= b && b <= 90u8 {
        (b + 32) as u8
    } else {
        b
    }
}

/// `<!doctype html`
pub open spec fn doctype_html() -> Seq<u8> {
    seq![60u8, 33u8, 100u8, 111u8, 99u8, 116u8, 121u8, 112u8, 101u8, 32u8, 104u8, 116u8, 109u8, 108u8]
}

/// `<html`
pub open spec fn html_open() -> Seq<u8> {
    seq![60u8, 104u8, 116u8, 109u8, 108u8]
}

/// The index of the first byte before `n` that is not blank (`n` when there is none).
pub open spec fn first_non_blank(b: Seq<u8>, i: int, n: int) -> int
    decreases n - i,
{
    if i >= n || !is_blank_byte(b[i]) {
        i
    } else {
        first_non_blank(b, i + 1, n)
    }
}

/// The bytes from `i` on, up to `n`, ASCII lower-cased, start with `p`.
pub open spec fn lower_starts_with(b: Seq<u8>, i: int, n: int, p: Seq<u8>) -> bool {
    i + p.len() <= n && forall|k: int| 0 <= k < p.len() ==> lower_byte(b[i + k]) == p[k]
}

/// Within the first 1024 bytes, after leading blanks, the payload starts
/// (ignoring ASCII case) with `<!doctype html` or `<html`.
pub open spec fn is_html(b: Seq<u8>) -> bool {
    let n = if b.len() < 1024 { b.len() as int } else { 1024 };
    let i = first_non_blank(b, 0, n);
    i < n && (lower_starts_with(b, i, n, doctype_html()) || lower_starts_with(b, i, n, html_open()))
}

fn lower_prefix_matches(b: &[u8], i: usize, n: usize, p: &Vec<u8>) -> (r: bool)
    requires
        i <= n <= b@.len(),
    ensures
        r == lower_starts_with(b@, i as int, n as int, p@),
{
    if p.len() > n - i {
        return false;
    }
    let mut k: usize = 0;
    while k < p.len()
        invariant
            i + p@.len() <= n <= b@.len(),
            k <= p@.len(),
            forall|t: int| 0 <= t < k ==> lower_byte(b@[i + t]) == p@[t],
        decreases p.len() - k,
    {
        let c = b[i + k];
        let lc = if 65u8 <= c && c <= 90u8 {
            c + 32
        } else {
            c
        };
        if lc != p[k] {
            return false;
        }
        k = k + 1;
    }
    true
}

/// Whether the payload looks like an HTML page (see `is_html`).
pub fn looks_like_html(bytes: &[u8]) -> (r: bool)
    ensures
        r == is_html(bytes@),
{
    let n: usize = if bytes.len() < 1024 {
        bytes.len()
    } else {
        1024
    };
    let mut i: usize = 0;
    while i < n && (bytes[i] == 9u8 || bytes[i] == 10u8 || bytes[i] == 13u8 || bytes[i] == 32u8)
        invariant
            i <= n <= bytes@.len(),
            n == (if bytes@.len() < 1024 { bytes@.len() as int } else { 1024 }),
            first_non_blank(bytes@, 0, n as int) == first_non_blank(bytes@, i as int, n as int),
        decreases n - i,
    {
        i = i + 1;
    }
    if i >= n {
        return false;
    }
    let doctype: Vec<u8> = vec![60u8, 33u8, 100u8, 111u8, 99u8, 116u8, 121u8, 112u8, 101u8, 32u8, 104u8, 116u8, 109u8, 108u8];
    let html: Vec<u8> = vec![60u8, 104u8, 116u8, 109u8, 108u8];
    assert(doctype@ =~= doctype_html());
    assert(html@ =~= html_open());
    lower_prefix_matches(bytes, i, n, &doctype) || lower_prefix_matches(bytes, i, n, &html)
}

/// How an answer to a source-bundle request is taken.
#[derive(Clone, Copy, Debug, PartialEq, Eq, Structural)]
pub enum SourceVerdict {
    /// An archive, to be handed to the converter.
    Archive,
    /// No source bundle: only the PDF exists.
    PdfOnly,
    /// An HTML page came back with a success status.
    Html,
    /// Any other failure status.
    HttpError,
}

pub open spec fn is_success(status: u16) -> bool {
    200 <= status <= 299
}

pub open spec fn lower_contains(s: Seq<char>, p: Seq<char>) -> bool {
    crate::text::contains(crate::text::lower_seq(s), p)
}

/// The verdict on a source-bundle answer with the given status, content type and body.
pub open spec fn source_verdict(status: u16, content_type: Seq<char>, body: Seq<u8>) -> SourceVerdict {
    if is_success(status) {
        if lower_contains(content_type, "application/pdf"@) || is_pdf(body) {
            SourceVerdict::PdfOnly
        } else if lower_contains(content_type, "text/html"@) || is_html(body) {
            SourceVerdict::Html
        } else {
            SourceVerdict::Archive
        }
    } else if status == 400 || status == 403 || status == 404 {
        SourceVerdict::PdfOnly
    } else {
        SourceVerdict::HttpError
    }
}

fn type_contains(content_type: &str, pat: &str) -> (r: bool)
    ensures
        r == lower_contains(content_type@, pat@),
{
    let ct = crate::text::chars_of(content_type);
    let lower = crate::text::lower_chars(&ct);
    let p = crate::text::chars_of(pat);
    crate::text::contains_chars(&lower, &p)
}

/// Judges an answer to a source-bundle request: a PDF (by content type or
/// signature) means only the PDF exists, as do the statuses 400, 403 and 404;
/// an HTML page or another failure status is an error; anything else is an archive.
pub fn classify_source(status: u16, content_type: &str, body: &[u8]) -> (r: SourceVerdict)
    ensures
        r == source_verdict(status, content_type@, body@),
{
    if 200 <= status && status <= 299 {
        if type_contains(content_type, "application/pdf") || looks_like_pdf(body) {
            SourceVerdict::PdfOnly
        } else if type_contains(content_type, "text/html") || looks_like_html(body) {
            SourceVerdict::Html
        } else {
            SourceVerdict::Archive
        }
    } else if status == 400 || status == 403 || status == 404 {
        SourceVerdict::PdfOnly
    } else {
        SourceVerdict::HttpError
    }
}

/// How an answer to a PDF request is taken.
#[derive(Clone, Copy, Debug, PartialEq, Eq, Structural)]
pub enum PdfVerdict {
    Pdf,
    NotFound,
    HttpError,
    NotPdf,
}

/// Judges an answer to a PDF request: 404 is not found, another failure
/// status an error, and a success must carry the PDF signature.
pub fn classify_pdf(status: u16, body: &[u8]) -> (r: PdfVerdict)
    ensures
        status == 404 ==> r == PdfVerdict::NotFound,
        status != 404 && !is_success(status) ==> r == PdfVerdict::HttpError,
        is_success(status) ==> r == (if is_pdf(body@) { PdfVerdict::Pdf } else { PdfVerdict::NotPdf }),
{
    if status == 404 {
        PdfVerdict::NotFound
    } else if !(200 <= status && status <= 299) {
        PdfVerdict::HttpError
    } else if looks_like_pdf(body) {
        PdfVerdict::Pdf
    } else {
        PdfVerdict::NotPdf
    }
}

} // verus!
