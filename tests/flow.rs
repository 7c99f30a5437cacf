use markxiv::atom::Metadata;
use markxiv::convert::{conversion_permits, permits_for, ConvertError, PandocConverter};
use markxiv::flow::{Action, Event, PaperFlow, Stage};
use markxiv::source::ArxivError;

fn meta() -> Metadata {
    Metadata {
        title: "Sample Title".into(),
        summary: "Sample abstract".into(),
        authors: vec!["First Author".into()],
    }
}

#[test]
fn memory_hit_is_served() {
    let (mut f, a) = PaperFlow::start("1234.5678".into(), false, true);
    assert!(matches!(a, Action::LookupMemory));
    let a = f.step(Event::MemoryLookup(Some("# Hello".into())));
    assert!(matches!(a, Action::Serve(ref s) if s == "# Hello"));
    assert_eq!(f.stage, Stage::Finished);
}

#[test]
fn disk_hit_is_served_without_fetching() {
    let (mut f, _) = PaperFlow::start("1234.5678".into(), false, true);
    assert!(matches!(f.step(Event::MemoryLookup(None)), Action::LookupDisk));
    let a = f.step(Event::DiskLookup(Some("# Hello".into())));
    assert!(matches!(a, Action::ServeFromDisk(ref s) if s == "# Hello"));
}

#[test]
fn latex_result_gets_metadata_header() {
    let (mut f, a) = PaperFlow::start("1234.5678".into(), true, false);
    assert!(matches!(a, Action::FetchMetadata));
    assert!(matches!(f.step(Event::MetadataFetched(Ok(meta()))), Action::FetchSource));
    assert!(matches!(f.step(Event::SourceFetched(Ok(()))), Action::ConvertStandard));
    let a = f.step(Event::LatexConverted(Ok("# Hello".into())));
    match a {
        Action::StoreAndServe(s) => assert_eq!(
            s,
            "# Sample Title\n\n## Authors\nFirst Author\n\n## Abstract\nSample abstract\n\n# Hello"
        ),
        other => panic!("unexpected {:?}", other),
    }
}

#[test]
fn standard_failure_retries_without_macros_and_skips_pdf() {
    let (mut f, _) = PaperFlow::start("1234.5678".into(), true, false);
    f.step(Event::MetadataFetched(Err(ArxivError::NotImplemented)));
    assert!(matches!(f.step(Event::SourceFetched(Ok(()))), Action::ConvertStandard));
    let a = f.step(Event::LatexConverted(Err(ConvertError::Failed("primary".into()))));
    assert!(matches!(a, Action::ConvertWithoutMacros));
    let a = f.step(Event::LatexConverted(Ok("retry".into())));
    assert!(matches!(a, Action::StoreAndServe(ref s) if s == "retry"));
}

#[test]
fn both_latex_failures_fall_back_to_pdf() {
    let (mut f, _) = PaperFlow::start("1234.5678".into(), true, false);
    f.step(Event::MetadataFetched(Ok(meta())));
    f.step(Event::SourceFetched(Ok(())));
    f.step(Event::LatexConverted(Err(ConvertError::Failed("pandoc failed".into()))));
    let a = f.step(Event::LatexConverted(Err(ConvertError::Failed("pandoc failed".into()))));
    assert!(matches!(a, Action::FetchPdf));
    assert!(matches!(f.step(Event::PdfFetched(Ok(()))), Action::ConvertPdf));
    let a = f.step(Event::PdfConverted(Ok("pdf text".into())));
    assert!(matches!(a, Action::StoreAndServe(ref s) if s == "pdf text"));
}

#[test]
fn pdf_only_goes_straight_to_pdf() {
    let (mut f, _) = PaperFlow::start("1234.5678".into(), true, false);
    f.step(Event::MetadataFetched(Ok(meta())));
    assert!(matches!(f.step(Event::SourceFetched(Err(ArxivError::PdfOnly))), Action::FetchPdf));
    assert!(matches!(f.step(Event::PdfFetched(Ok(()))), Action::ConvertPdf));
    let a = f.step(Event::PdfConverted(Err(ConvertError::Failed("bad".into()))));
    assert!(matches!(a, Action::Fail(500, ref m) if m == "bad"));
}

#[test]
fn not_found_metadata_fails_the_request() {
    let (mut f, _) = PaperFlow::start("1234.5678".into(), true, false);
    let a = f.step(Event::MetadataFetched(Err(ArxivError::NotFound)));
    assert!(matches!(a, Action::Fail(404, ref m) if m == "not found"));
}

#[test]
fn network_error_on_source_fails_the_request() {
    let (mut f, _) = PaperFlow::start("1234.5678".into(), true, false);
    f.step(Event::MetadataFetched(Ok(meta())));
    let a = f.step(Event::SourceFetched(Err(ArxivError::Network("down".into()))));
    assert!(matches!(a, Action::Fail(502, ref m) if m == "down"));
}

#[test]
fn unexpected_event_ends_the_request() {
    let (mut f, _) = PaperFlow::start("1234.5678".into(), false, false);
    let a = f.step(Event::PdfFetched(Ok(())));
    assert!(matches!(a, Action::Fail(500, _)));
    assert_eq!(f.stage, Stage::Finished);
}

#[test]
fn converter_helpers() {
    let c = PandocConverter::new();
    assert_eq!(c.finish_latex("  <b>x</b>"), "x");
    let files = vec![("readme.md".to_string(), "x".to_string())];
    assert_eq!(c.main_file(&files), Err(ConvertError::Failed("no .tex files found".into())));
    assert!(conversion_permits() >= 1);
    assert_eq!(permits_for(0), 1);
    assert_eq!(permits_for(8), 8);
    assert_eq!(ConvertError::NotImplemented.message(), "not implemented");
}
