//! Conversion failures, and the part of a conversion that is pure: choosing
//! the main file and cleaning the converter's output.
use vstd::prelude::*;
use crate::sanitize::{sanitize_markdown, sanitized};
use crate::tex_main::{is_main_tex, is_tex_at, select_main_tex};

verus! {

/// A failed conversion.
#[derive(Clone, Debug, PartialEq, Eq)]
pub enum ConvertError {
    Failed(String),
    NotImplemented,
}

impl ConvertError {
    /// The human-readable text of the error.
    pub fn message(&self) -> (r: String)
        ensures
            match self {
                ConvertError::Failed(m) => r@ == "conversion failed: "@ + m@,
                ConvertError::NotImplemented => r@ == "not implemented"@,
            },
    {
        match self {
            ConvertError::Failed(m) => {
                let mut s = String::from_str("conversion failed: ");
                s.append(m.as_str());
                s
            },
            ConvertError::NotImplemented => String::from_str("not implemented"),
        }
    }
}

/// Relies on `num_cpus::get`: the number of CPUs this process may use, at
/// least one as its documentation states.
#[verifier::external_body]
fn available_cpus() -> (r: usize)
    ensures
        r >= 1,
{
    num_cpus::get()
}

/// How many external conversions may run at once on `cpus` CPUs: one per CPU, at least one.
pub fn permits_for(cpus: usize) -> (r: usize)
    ensures
        r == if cpus == 0 { 1 } else { cpus },
{
    if cpus == 0 { 1 } else { cpus }
}

/// How many external conversions may run at once on this machine (see `permits_for`).
pub fn conversion_permits() -> (r: usize)
    ensures
        r >= 1,
{
    permits_for(available_cpus())
}

/// The converter that runs pandoc on LaTeX bundles and pdftotext on PDFs;
/// the processes are run by the caller, this holds what is decided around them.
pub struct PandocConverter;

impl PandocConverter {
    pub fn new() -> (r: PandocConverter) {
        PandocConverter
    }

    /// The main `.tex` file among the extracted `(path, contents)` pairs, or
    /// the failure reported when there is none.
    pub fn main_file(&self, files: &[(String, String)]) -> (r: Result<String, ConvertError>)
        ensures
            r is Err <==> forall|i: int| 0 <= i < files@.len() ==> !is_tex_at(files@, i),
            r matches Ok(p) ==> exists|i: int| is_main_tex(files@, i) && p@ == files@[i].0@,
            r matches Err(e) ==> e matches ConvertError::Failed(m) && m@ == "no .tex files found"@,
    {
        match select_main_tex(files) {
            Some(p) => Ok(p),
            None => Err(ConvertError::Failed(String::from_str("no .tex files found"))),
        }
    }

    /// The markdown made of pandoc's output: sanitized.
    pub fn finish_latex(&self, output: &str) -> (r: String)
        ensures
            r@ == sanitized(output@),
    {
        sanitize_markdown(output)
    }
}

} // verus!
