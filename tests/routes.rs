use markxiv::atom::Metadata;
use markxiv::convert::ConvertError;
use markxiv::routes::{
    canonical_path, map_arxiv_err, map_convert_err, normalize_id, paper_id, prepend_metadata,
    refresh_requested, render_markdown_html, resolve_log_path, strip_html_tags, wants_html,
};
use markxiv::source::ArxivError;

#[test]
fn wants_html_defaults_true_without_header() {
    assert!(wants_html(None));
}

#[test]
fn wants_html_detects_html_media_type() {
    assert!(wants_html(Some("text/html,application/xhtml+xml")));
}

#[test]
fn wants_html_respects_explicit_markdown_preference() {
    assert!(!wants_html(Some("text/markdown")));
}

#[test]
fn wants_html_ignores_ascii_case_and_accepts_wildcard() {
    assert!(wants_html(Some("TEXT/HTML")));
    assert!(wants_html(Some("*/*")));
}

#[test]
fn normalize_id_strips_pdf_suffix_case_insensitively() {
    assert_eq!(normalize_id("1234v1.PDF"), "1234v1");
}

#[test]
fn normalize_id_leaves_non_pdf_suffix() {
    assert_eq!(normalize_id("1234v1.tar"), "1234v1.tar");
}

#[test]
fn normalize_id_of_bare_suffix_is_empty() {
    assert_eq!(normalize_id(".pdf"), "");
    assert_eq!(normalize_id("pdf"), "pdf");
}

#[test]
fn map_arxiv_err_translates_not_found() {
    let resp = map_arxiv_err("metadata", "1234", ArxivError::NotFound);
    assert_eq!(resp.0, 404);
}

#[test]
fn map_arxiv_err_covers_each_variant() {
    assert_eq!(map_arxiv_err("c", "1", ArxivError::PdfOnly), (422, "Error: PDF only".to_string()));
    assert_eq!(map_arxiv_err("c", "1", ArxivError::Network("down".into())), (502, "down".to_string()));
    assert_eq!(map_arxiv_err("c", "1", ArxivError::NotImplemented), (501, "not implemented".to_string()));
}

#[test]
fn map_convert_err_translates_failure() {
    let resp = map_convert_err("context", "1234", ConvertError::Failed("boom".into()));
    assert_eq!(resp.0, 500);
}

#[test]
fn map_convert_err_not_implemented() {
    assert_eq!(map_convert_err("c", "1", ConvertError::NotImplemented), (501, "not implemented".to_string()));
}

#[test]
fn prepend_metadata_includes_authors_section() {
    let meta = Metadata {
        title: "Sample Title".into(),
        summary: "Sample abstract".into(),
        authors: vec!["Alice Example".into(), "Bob <i>Author</i>".into()],
    };
    let out = prepend_metadata(&meta, "Body");
    assert!(out.starts_with("# Sample Title\n\n## Authors\nAlice Example, Bob Author\n\n## Abstract\nSample abstract\n\nBody"));
}

#[test]
fn prepend_metadata_skips_empty_sections() {
    let meta = Metadata {
        title: " <b></b> ".into(),
        summary: "".into(),
        authors: vec!["<i></i>".into()],
    };
    assert_eq!(prepend_metadata(&meta, "Body"), "Body");
}

#[test]
fn plain_tag_stripping() {
    assert_eq!(strip_html_tags("a <b>c</b> > d"), "a c > d");
}

#[test]
fn refresh_needs_the_exact_field() {
    assert!(refresh_requested(Some("refresh=1")));
    assert!(refresh_requested(Some("a=2&refresh=1&b")));
    assert!(!refresh_requested(Some("refresh=10")));
    assert!(!refresh_requested(Some("xrefresh=1")));
    assert!(!refresh_requested(Some("refresh")));
    assert!(!refresh_requested(None));
}

#[test]
fn paper_ids_are_checked() {
    assert_eq!(paper_id(" 1234.5678v3.pdf ").as_deref(), Some("1234.5678v3"));
    assert!(paper_id("   ").is_none());
    assert!(paper_id("\u{1F4A9}").is_none());
    assert_eq!(canonical_path("1234.5678"), "/abs/1234.5678");
}

#[test]
fn markdown_renders_as_a_page() {
    let html = render_markdown_html("# Hi");
    assert!(html.starts_with("<!doctype html><meta charset=\"utf-8\"><title>markxiv</title><body>"));
    assert!(html.contains("<h1>Hi</h1>"));
    assert!(html.ends_with("</body>"));
}

#[test]
fn path_env_takes_precedence() {
    let result = resolve_log_path(
        Some("/var/log/custom.log".to_string()),
        Some("/should/not/use".to_string()),
    );
    assert_eq!(result, "/var/log/custom.log");
}

#[test]
fn dir_env_used_when_path_missing() {
    let result = resolve_log_path(None, Some("/tmp/markxiv".to_string()));
    assert_eq!(result, "/tmp/markxiv/markxiv.log");
}

#[test]
fn defaults_to_logs_directory() {
    let result = resolve_log_path(None, None);
    assert_eq!(result, "logs/markxiv.log");
}

#[test]
fn empty_dir_env_uses_filename_only() {
    let result = resolve_log_path(None, Some(String::new()));
    assert_eq!(result, "markxiv.log");
}
