//! The decisions of one paper request: the cache tiers first, then the
//! source, then the conversion chain (standard LaTeX, LaTeX without macro
//! expansion, PDF text). The caller performs each action and reports the
//! outcome as the next event.
use vstd::prelude::*;
use crate::atom::{views, Metadata};
use crate::convert::ConvertError;
use crate::routes::{
    arxiv_failure, convert_failure, map_arxiv_err, map_convert_err, prepend_metadata, with_metadata,
};
use crate::source::ArxivError;

verus! {

/// Where a request stands: which outcome it waits for.
#[derive(Clone, Copy, Debug, PartialEq, Eq, Structural)]
pub enum Stage {
    AwaitMemory,
    AwaitDisk,
    AwaitMetadata,
    AwaitSource,
    AwaitStandard,
    AwaitNoMacros,
    AwaitPdf,
    AwaitPdfText,
    Finished,
}

/// The outcome of the action last asked for.
pub enum Event {
    MemoryLookup(Option<String>),
    /// A read error of the disk tier counts as a miss.
    DiskLookup(Option<String>),
    MetadataFetched(Result<Metadata, ArxivError>),
    /// The source bundle's bytes stay with the caller.
    SourceFetched(Result<(), ArxivError>),
    LatexConverted(Result<String, ConvertError>),
    /// The PDF's bytes stay with the caller.
    PdfFetched(Result<(), ArxivError>),
    PdfConverted(Result<String, ConvertError>),
}

/// What the caller is to do next.
#[derive(Debug)]
pub enum Action {
    LookupMemory,
    LookupDisk,
    FetchMetadata,
    FetchSource,
    /// Extract the bundle and run the standard LaTeX conversion.
    ConvertStandard,
    /// Run the LaTeX conversion again with macro expansion disabled.
    ConvertWithoutMacros,
    FetchPdf,
    ConvertPdf,
    /// Answer with markdown found in memory.
    Serve(String),
    /// Put markdown found on disk into memory, then answer with it.
    ServeFromDisk(String),
    /// Put fresh markdown into both tiers, then answer with it.
    StoreAndServe(String),
    /// Answer with this status and message.
    Fail(u16, String),
}

/// A paper request in progress.
pub struct PaperFlow {
    /// The paper requested.
    pub id: String,
    pub stage: Stage,
    pub use_disk: bool,
    pub metadata: Option<Metadata>,
}

/// The body under the metadata header, when there is metadata.
pub open spec fn composed(meta: Option<Metadata>, body: Seq<char>) -> Seq<char> {
    match meta {
        Some(m) => with_metadata(m.title@, m.summary@, views(m.authors@), body),
        None => body,
    }
}

pub open spec fn fails_with(a: Action, f: (u16, Seq<char>)) -> bool {
    a matches Action::Fail(s, m) && s == f.0 && m@ == f.1
}

pub open spec fn serves_fresh(a: Action, body: Seq<char>) -> bool {
    a matches Action::StoreAndServe(s) && s@ == body
}

pub open spec fn unexpected(a: Action) -> bool {
    fails_with(a, (500, "unexpected event"@))
}

/// One transition: `f` meets `e`, becomes `g` and asks for `a`.
pub open spec fn step_spec(f: PaperFlow, e: Event, g: PaperFlow, a: Action) -> bool {
    &&& g.use_disk == f.use_disk
    &&& g.id == f.id
    &&& (f.stage != Stage::AwaitMetadata ==> g.metadata == f.metadata)
    &&& match (f.stage, e) {
        (Stage::AwaitMemory, Event::MemoryLookup(Some(md))) => g.stage == Stage::Finished && a == Action::Serve(md),
        (Stage::AwaitMemory, Event::MemoryLookup(None)) => if f.use_disk {
            g.stage == Stage::AwaitDisk && a == Action::LookupDisk
        } else {
            g.stage == Stage::AwaitMetadata && a == Action::FetchMetadata
        },
        (Stage::AwaitDisk, Event::DiskLookup(Some(md))) => g.stage == Stage::Finished && a == Action::ServeFromDisk(md),
        (Stage::AwaitDisk, Event::DiskLookup(None)) => g.stage == Stage::AwaitMetadata && a == Action::FetchMetadata,
        (Stage::AwaitMetadata, Event::MetadataFetched(Ok(m))) => g.stage == Stage::AwaitSource && a == Action::FetchSource && g.metadata == Some(m),
        (Stage::AwaitMetadata, Event::MetadataFetched(Err(ArxivError::NotImplemented))) => g.stage == Stage::AwaitSource && a == Action::FetchSource && g.metadata is None,
        (Stage::AwaitMetadata, Event::MetadataFetched(Err(x))) => g.stage == Stage::Finished && fails_with(a, arxiv_failure(x)) && g.metadata == f.metadata,
        (Stage::AwaitSource, Event::SourceFetched(Ok(()))) => g.stage == Stage::AwaitStandard && a == Action::ConvertStandard,
        (Stage::AwaitSource, Event::SourceFetched(Err(ArxivError::PdfOnly))) => g.stage == Stage::AwaitPdf && a == Action::FetchPdf,
        (Stage::AwaitSource, Event::SourceFetched(Err(x))) => g.stage == Stage::Finished && fails_with(a, arxiv_failure(x)),
        (Stage::AwaitStandard, Event::LatexConverted(Ok(md))) => g.stage == Stage::Finished && serves_fresh(a, composed(f.metadata, md@)),
        (Stage::AwaitStandard, Event::LatexConverted(Err(_))) => g.stage == Stage::AwaitNoMacros && a == Action::ConvertWithoutMacros,
        (Stage::AwaitNoMacros, Event::LatexConverted(Ok(md))) => g.stage == Stage::Finished && serves_fresh(a, composed(f.metadata, md@)),
        (Stage::AwaitNoMacros, Event::LatexConverted(Err(_))) => g.stage == Stage::AwaitPdf && a == Action::FetchPdf,
        (Stage::AwaitPdf, Event::PdfFetched(Ok(()))) => g.stage == Stage::AwaitPdfText && a == Action::ConvertPdf,
        (Stage::AwaitPdf, Event::PdfFetched(Err(x))) => g.stage == Stage::Finished && fails_with(a, arxiv_failure(x)),
        (Stage::AwaitPdfText, Event::PdfConverted(Ok(text))) => g.stage == Stage::Finished && a == Action::StoreAndServe(text),
        (Stage::AwaitPdfText, Event::PdfConverted(Err(x))) => g.stage == Stage::Finished && fails_with(a, convert_failure(x)),
        _ => g.stage == Stage::Finished && unexpected(a),
    }
}

impl PaperFlow {
    /// A new request: with `refresh` both tiers are skipped; `use_disk`
    /// says whether the disk tier is in use.
    pub fn start(id: String, refresh: bool, use_disk: bool) -> (r: (PaperFlow, Action))
        ensures
            r.0.id == id,
            r.0.use_disk == use_disk,
            r.0.metadata is None,
            refresh ==> r.0.stage == Stage::AwaitMetadata && r.1 == Action::FetchMetadata,
            !refresh ==> r.0.stage == Stage::AwaitMemory && r.1 == Action::LookupMemory,
    {
        if refresh {
            (PaperFlow { id, stage: Stage::AwaitMetadata, use_disk, metadata: None }, Action::FetchMetadata)
        } else {
            (PaperFlow { id, stage: Stage::AwaitMemory, use_disk, metadata: None }, Action::LookupMemory)
        }
    }

    fn finish_latex(&self, md: String) -> (r: Action)
        ensures
            r matches Action::StoreAndServe(s) && s@ == composed(self.metadata, md@),
    {
        match &self.metadata {
            Some(m) => Action::StoreAndServe(prepend_metadata(m, md.as_str())),
            None => Action::StoreAndServe(md),
        }
    }

    fn fail_source(&mut self, x: ArxivError, context: &str) -> (r: Action)
        ensures
            fails_with(r, arxiv_failure(x)),
            final(self).id == old(self).id,
            final(self).stage == Stage::Finished,
            final(self).use_disk == old(self).use_disk,
            final(self).metadata == old(self).metadata,
    {
        self.stage = Stage::Finished;
        let (s, m) = map_arxiv_err(context, self.id.as_str(), x);
        Action::Fail(s, m)
    }

    /// Takes the outcome of the last action and decides the next one (see `step_spec`).
    pub fn step(&mut self, event: Event) -> (a: Action)
        ensures
            step_spec(*old(self), event, *final(self), a),
    {
        match (self.stage, event) {
            (Stage::AwaitMemory, Event::MemoryLookup(Some(md))) => {
                self.stage = Stage::Finished;
                Action::Serve(md)
            },
            (Stage::AwaitMemory, Event::MemoryLookup(None)) => {
                if self.use_disk {
                    self.stage = Stage::AwaitDisk;
                    Action::LookupDisk
                } else {
                    self.stage = Stage::AwaitMetadata;
                    Action::FetchMetadata
                }
            },
            (Stage::AwaitDisk, Event::DiskLookup(Some(md))) => {
                self.stage = Stage::Finished;
                Action::ServeFromDisk(md)
            },
            (Stage::AwaitDisk, Event::DiskLookup(None)) => {
                self.stage = Stage::AwaitMetadata;
                Action::FetchMetadata
            },
            (Stage::AwaitMetadata, Event::MetadataFetched(Ok(m))) => {
                self.stage = Stage::AwaitSource;
                self.metadata = Some(m);
                Action::FetchSource
            },
            (Stage::AwaitMetadata, Event::MetadataFetched(Err(ArxivError::NotImplemented))) => {
                self.stage = Stage::AwaitSource;
                self.metadata = None;
                Action::FetchSource
            },
            (Stage::AwaitMetadata, Event::MetadataFetched(Err(x))) => self.fail_source(x, "metadata"),
            (Stage::AwaitSource, Event::SourceFetched(Ok(()))) => {
                self.stage = Stage::AwaitStandard;
                Action::ConvertStandard
            },
            (Stage::AwaitSource, Event::SourceFetched(Err(ArxivError::PdfOnly))) => {
                self.stage = Stage::AwaitPdf;
                Action::FetchPdf
            },
            (Stage::AwaitSource, Event::SourceFetched(Err(x))) => self.fail_source(x, "source_archive"),
            (Stage::AwaitStandard, Event::LatexConverted(Ok(md))) => {
                self.stage = Stage::Finished;
                self.finish_latex(md)
            },
            (Stage::AwaitStandard, Event::LatexConverted(Err(_))) => {
                self.stage = Stage::AwaitNoMacros;
                Action::ConvertWithoutMacros
            },
            (Stage::AwaitNoMacros, Event::LatexConverted(Ok(md))) => {
                self.stage = Stage::Finished;
                self.finish_latex(md)
            },
            (Stage::AwaitNoMacros, Event::LatexConverted(Err(_))) => {
                self.stage = Stage::AwaitPdf;
                Action::FetchPdf
            },
            (Stage::AwaitPdf, Event::PdfFetched(Ok(()))) => {
                self.stage = Stage::AwaitPdfText;
                Action::ConvertPdf
            },
            (Stage::AwaitPdf, Event::PdfFetched(Err(x))) => self.fail_source(x, "pdf_fallback:get_pdf"),
            (Stage::AwaitPdfText, Event::PdfConverted(Ok(text))) => {
                self.stage = Stage::Finished;
                Action::StoreAndServe(text)
            },
            (Stage::AwaitPdfText, Event::PdfConverted(Err(x))) => {
                self.stage = Stage::Finished;
                let (s, m) = map_convert_err("pdf_fallback:pdf_to_markdown", self.id.as_str(), x);
                Action::Fail(s, m)
            },
            _ => {
                self.stage = Stage::Finished;
                Action::Fail(500, String::from_str("unexpected event"))
            },
        }
    }
}

} // verus!

verus! {

/// `flows`, `events` and `actions` form a run: each event takes one flow to
/// the next and yields one action.
pub open spec fn is_run(flows: Seq<PaperFlow>, events: Seq<Event>, actions: Seq<Action>) -> bool {
    &&& flows.len() == events.len() + 1
    &&& actions.len() == events.len()
    &&& forall|i: int| #![trigger events[i]] 0 <= i < events.len() ==> step_spec(flows[i], events[i], flows[i + 1], actions[i])
}

pub open spec fn touches_pdf(a: Action) -> bool {
    a is FetchPdf || a is ConvertPdf
}

pub open spec fn touches_latex(a: Action) -> bool {
    a is ConvertStandard || a is ConvertWithoutMacros
}

/// When the standard conversion fails and the macro-free one succeeds, the
/// request asks for each of them once, in that order, serves the result
/// under the metadata header, and never goes near the PDF.
pub proof fn fallback_chain_order(flows: Seq<PaperFlow>, events: Seq<Event>, actions: Seq<Action>, md: String)
    requires
        is_run(flows, events, actions),
        flows[0].stage == Stage::AwaitSource,
        events.len() == 3,
        events[0] == Event::SourceFetched(Ok(())),
        events[1] matches Event::LatexConverted(Err(_)),
        events[2] == Event::LatexConverted(Ok(md)),
    ensures
        actions[0] == Action::ConvertStandard,
        actions[1] == Action::ConvertWithoutMacros,
        serves_fresh(actions[2], composed(flows[0].metadata, md@)),
        forall|i: int| 0 <= i < actions.len() ==> !touches_pdf(#[trigger] actions[i]),
{
    assert(step_spec(flows[0], events[0], flows[1], actions[0]));
    assert(step_spec(flows[1], events[1], flows[2], actions[1]));
    assert(step_spec(flows[2], events[2], flows[3], actions[2]));
}

proof fn lemma_after_pdf_only(flows: Seq<PaperFlow>, events: Seq<Event>, actions: Seq<Action>, i: int)
    requires
        is_run(flows, events, actions),
        flows[0].stage == Stage::AwaitSource,
        events.len() >= 1,
        events[0] == Event::SourceFetched(Err(ArxivError::PdfOnly)),
        1 <= i <= events.len(),
    ensures
        i == 1 ==> flows[i].stage == Stage::AwaitPdf,
        i >= 2 ==> flows[i].stage == Stage::AwaitPdfText || flows[i].stage == Stage::Finished,
    decreases i,
{
    if i == 1 {
        assert(step_spec(flows[0], events[0], flows[1], actions[0]));
    } else {
        lemma_after_pdf_only(flows, events, actions, i - 1);
        assert(step_spec(flows[i - 1], events[i - 1], flows[i], actions[i - 1]));
    }
}

/// When the source reports that only a PDF exists, the request never asks
/// for a LaTeX conversion (nor the bundle extraction it starts with), asks
/// for the PDF exactly once, first, and for its text at most once, right after.
pub proof fn pdf_only_short_circuit(flows: Seq<PaperFlow>, events: Seq<Event>, actions: Seq<Action>)
    requires
        is_run(flows, events, actions),
        flows[0].stage == Stage::AwaitSource,
        events.len() >= 1,
        events[0] == Event::SourceFetched(Err(ArxivError::PdfOnly)),
    ensures
        actions[0] == Action::FetchPdf,
        forall|i: int| 0 <= i < actions.len() ==> !touches_latex(#[trigger] actions[i]),
        forall|i: int| 1 <= i < actions.len() ==> !(#[trigger] actions[i] is FetchPdf),
        forall|i: int| 2 <= i < actions.len() ==> !(#[trigger] actions[i] is ConvertPdf),
{
    assert(step_spec(flows[0], events[0], flows[1], actions[0]));
    assert forall|i: int| 1 <= i < actions.len() implies !touches_latex(#[trigger] actions[i])
        && !(actions[i] is FetchPdf) && (i >= 2 ==> !(actions[i] is ConvertPdf)) by {
        lemma_after_pdf_only(flows, events, actions, i);
        assert(step_spec(flows[i], events[i], flows[i + 1], actions[i]));
    }
}

} // verus!
