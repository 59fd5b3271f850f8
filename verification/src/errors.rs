//! Error taxonomy of the pipeline.
//!
//! Fatal conditions (no baseline, an unresolvable reference) abort a run;
//! per-item conditions (a failed or malformed lookup, an unparseable
//! summarization response) are reported and skip only the affected item;
//! a commit record pointing at a missing pull-request record is cache
//! corruption and should never occur.

use vstd::prelude::*;

verus! {

#[derive(Debug)]
pub enum GlanceError {
    /// No explicit base reference was given and the repository has no tags.
    NoBaseline,
    /// A reference or commit id could not be resolved in the commit graph.
    UnknownCommit(String),
    /// The external lookup collaborator failed; carries its combined
    /// diagnostic output.
    Lookup(String),
    /// The lookup collaborator answered, but a required field was missing
    /// or had the wrong shape; carries the field name.
    MalformedResponse(String),
    /// The summarization oracle's response held no parseable tag/summary
    /// object.
    SummaryParse,
    /// A cached commit record points at this pull-request number, but the
    /// cache holds no record for it.
    CacheCorrupted(u64),
}

impl GlanceError {
    /// True for the conditions that abort a whole run; per-item conditions
    /// are reported and skipped.
    pub fn is_fatal(&self) -> (r: bool)
        ensures
            r == (self is NoBaseline || self is UnknownCommit),
    {
        match self {
            GlanceError::NoBaseline => true,
            GlanceError::UnknownCommit(_) => true,
            _ => false,
        }
    }
}

} // verus!
