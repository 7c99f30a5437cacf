use markxiv::source::{classify_pdf, classify_source, looks_like_html, looks_like_pdf, ArxivError, PdfVerdict, SourceVerdict};

#[test]
fn looks_like_pdf_recognizes_signature() {
    assert!(looks_like_pdf(b"%PDF-1.7 rest"));
    assert!(!looks_like_pdf(b"%!PS-Adobe"));
}

#[test]
fn looks_like_html_handles_whitespace() {
    let html = b"\n  \t<html><body></body></html>";
    assert!(looks_like_html(html));
    assert!(!looks_like_html(b"{\"json\":true}"));
}

#[test]
fn html_signature_ignores_case_and_needs_it_early() {
    assert!(looks_like_html(b"<!DOCTYPE HTML><html>"));
    assert!(!looks_like_html(b"   "));
    let mut late = vec![b' '; 1020];
    late.extend_from_slice(b"<html>");
    assert!(!looks_like_html(&late));
}

#[test]
fn source_answers_are_classified() {
    assert_eq!(classify_source(200, "application/x-tar", b"tar-bytes"), SourceVerdict::Archive);
    assert_eq!(classify_source(200, "Application/PDF", b"x"), SourceVerdict::PdfOnly);
    assert_eq!(classify_source(200, "", b"%PDF-1.4"), SourceVerdict::PdfOnly);
    assert_eq!(classify_source(200, "text/html; charset=utf-8", b"x"), SourceVerdict::Html);
    assert_eq!(classify_source(200, "", b"<html>"), SourceVerdict::Html);
    assert_eq!(classify_source(403, "", b""), SourceVerdict::PdfOnly);
    assert_eq!(classify_source(500, "", b""), SourceVerdict::HttpError);
}

#[test]
fn pdf_answers_are_classified() {
    assert_eq!(classify_pdf(404, b""), PdfVerdict::NotFound);
    assert_eq!(classify_pdf(503, b""), PdfVerdict::HttpError);
    assert_eq!(classify_pdf(200, b"%PDF-1.5"), PdfVerdict::Pdf);
    assert_eq!(classify_pdf(200, b"<html>"), PdfVerdict::NotPdf);
}

#[test]
fn error_messages() {
    assert_eq!(ArxivError::NotFound.message(), "not found");
    assert_eq!(ArxivError::Network("x".into()).message(), "network error: x");
}
