//! The steps that turn one document into its output: what to do next, given what
//! the last step brought.

use vstd::prelude::*;
use crate::document::{Document, DocumentError, DocumentView};
use crate::extract::{
    all_readable, exercise_numbers, extract_exercise_numbers, first_unreadable, ExtractionError,
    PageScan,
};
use crate::graft::GraftError;
use crate::locator::{exercises_url, secondary_locator};
use crate::merge::{
    leads_to, merge_pdf_document, merged, page_keys, pages_fit, pages_sound, MergeError,
};

verus! {

/// Which of the two documents a step was about.
#[derive(Debug, PartialEq, Eq, Clone, Copy)]
pub enum Stage {
    /// The document that is to be completed.
    Primary,
    /// The document that holds the exercises.
    Secondary,
}

/// Why a run produced no output.
#[derive(Debug, PartialEq, Eq)]
pub enum PipelineError {
    /// The document could not be fetched.
    Fetch(Stage),
    /// What was fetched is no document.
    Parse(Stage),
    /// A page of the primary document could not be read.
    Extraction(ExtractionError),
    /// The pages of the secondary document could not be appended.
    Merge(MergeError),
    /// The event does not answer what the run was waiting for.
    OutOfTurn,
}

/// What a run waits for.
#[derive(Debug, PartialEq, Eq)]
pub enum PipelineState {
    /// The primary document.
    AwaitingPrimary,
    /// The secondary document; `primary` is the primary document as it came.
    AwaitingSecondary { primary: Document },
    /// Nothing: the run has ended.
    Done,
}

/// What the last step brought.
pub enum PipelineEvent {
    /// The document that was asked for could not be fetched.
    Unavailable,
    /// What was fetched is no document.
    Unreadable,
    /// The primary document, and what came of reading each of its pages.
    Primary { document: Document, pages: Vec<PageScan> },
    /// The secondary document.
    Secondary { document: Document },
}

/// What to do next.
#[derive(Debug, PartialEq, Eq)]
pub enum PipelineAction {
    /// Fetch the document at `locator` and hand it in as the secondary document.
    Fetch { locator: String },
    /// Write `document` out: the run has succeeded.
    Save { document: Document },
    /// Write nothing and report `error`: the run has failed.
    Fail { error: PipelineError },
}

impl PipelineState {
    /// A document that the state holds is well formed.
    pub open spec fn wf(&self) -> bool {
        match self {
            PipelineState::AwaitingSecondary { primary } => primary.wf(),
            _ => true,
        }
    }

    /// The state in which a run begins.
    pub fn start() -> (r: PipelineState)
        ensures
            r is AwaitingPrimary,
            r.wf(),
    {
        PipelineState::AwaitingPrimary
    }
}

/// What follows the arrival of the primary document `document` with the pages
/// `pages`: without exercise numbers the document is saved as it is and nothing is
/// fetched; with numbers the exercises are fetched; an unreadable page or an ill
/// formed document ends the run.
pub open spec fn after_primary(
    document: Document,
    pages: Seq<PageScan>,
    next: PipelineState,
    action: PipelineAction,
) -> bool {
    if !document.wf() {
        &&& next is Done
        &&& action == (PipelineAction::Fail { error: PipelineError::Parse(Stage::Primary) })
    } else if !all_readable(pages) {
        &&& next is Done
        &&& action matches PipelineAction::Fail { error: PipelineError::Extraction(e) }
        &&& first_unreadable(pages, e.page as int)
    } else if exercise_numbers(pages).len() == 0 {
        &&& next is Done
        &&& action matches PipelineAction::Save { document: saved }
        &&& saved@ == document@
    } else {
        &&& next matches PipelineState::AwaitingSecondary { primary }
        &&& primary@ == document@
        &&& action matches PipelineAction::Fetch { locator }
        &&& locator@ == exercises_url(exercise_numbers(pages))
    }
}

/// What follows the arrival of the secondary document `secondary` while `primary`
/// waits: the primary document with the pages of the secondary appended is saved,
/// or the run ends with the reason for which they could not be appended.
pub open spec fn after_secondary(
    primary: DocumentView,
    secondary: DocumentView,
    action: PipelineAction,
) -> bool {
    match action {
        PipelineAction::Save { document } => {
            &&& pages_sound(secondary)
            &&& pages_fit(secondary, primary)
            &&& exists|m: Map<usize, usize>| #[trigger] merged(secondary, primary, document@, m)
        },
        PipelineAction::Fail { error: PipelineError::Merge(MergeError::Graft(GraftError::Dangling(x))) } => {
            &&& x >= secondary.objects.len()
            &&& exists|j: int, k: int|
                0 <= j < secondary.pages.len() && 0 <= k < page_keys().len() && #[trigger] leads_to(
                    secondary,
                    j,
                    k,
                    x,
                )
        },
        PipelineAction::Fail { error: PipelineError::Merge(MergeError::Graft(GraftError::Full)) } => {
            !pages_fit(secondary, primary)
        },
        PipelineAction::Fail { error: PipelineError::Merge(MergeError::Page(e)) } => {
            &&& e == DocumentError::Full
            &&& !pages_fit(secondary, primary)
        },
        _ => false,
    }
}

/// Takes one step of a run: from what the run waited for and what came, to what it
/// waits for now and what is to be done.
///
/// Only the arrival of a primary document with exercise numbers asks for a fetch,
/// and only the arrival of a usable document (the primary without numbers, or the
/// secondary) asks for output. Whatever else comes ends the run with an error and
/// without output.
pub fn step(state: PipelineState, event: PipelineEvent) -> (r: (PipelineState, PipelineAction))
    requires
        state.wf(),
    ensures
        r.0.wf(),
        match (state, event) {
            (PipelineState::AwaitingPrimary, PipelineEvent::Unavailable) => {
                &&& r.0 is Done
                &&& r.1 == (PipelineAction::Fail { error: PipelineError::Fetch(Stage::Primary) })
            },
            (PipelineState::AwaitingPrimary, PipelineEvent::Unreadable) => {
                &&& r.0 is Done
                &&& r.1 == (PipelineAction::Fail { error: PipelineError::Parse(Stage::Primary) })
            },
            (PipelineState::AwaitingPrimary, PipelineEvent::Primary { document, pages }) => {
                after_primary(document, pages@, r.0, r.1)
            },
            (PipelineState::AwaitingSecondary { primary }, PipelineEvent::Unavailable) => {
                &&& r.0 is Done
                &&& r.1 == (PipelineAction::Fail { error: PipelineError::Fetch(Stage::Secondary) })
            },
            (PipelineState::AwaitingSecondary { primary }, PipelineEvent::Unreadable) => {
                &&& r.0 is Done
                &&& r.1 == (PipelineAction::Fail { error: PipelineError::Parse(Stage::Secondary) })
            },
            (
                PipelineState::AwaitingSecondary { primary },
                PipelineEvent::Secondary { document },
            ) => {
                &&& r.0 is Done
                &&& after_secondary(primary@, document@, r.1)
            },
            _ => {
                &&& r.0 is Done
                &&& r.1 == (PipelineAction::Fail { error: PipelineError::OutOfTurn })
            },
        },
{
    match state {
        PipelineState::AwaitingPrimary => match event {
            PipelineEvent::Unavailable => (
                PipelineState::Done,
                PipelineAction::Fail { error: PipelineError::Fetch(Stage::Primary) },
            ),
            PipelineEvent::Unreadable => (
                PipelineState::Done,
                PipelineAction::Fail { error: PipelineError::Parse(Stage::Primary) },
            ),
            PipelineEvent::Primary { document, pages } => primary_arrived(document, pages),
            PipelineEvent::Secondary { document } => (
                PipelineState::Done,
                PipelineAction::Fail { error: PipelineError::OutOfTurn },
            ),
        },
        PipelineState::AwaitingSecondary { primary } => match event {
            PipelineEvent::Unavailable => (
                PipelineState::Done,
                PipelineAction::Fail { error: PipelineError::Fetch(Stage::Secondary) },
            ),
            PipelineEvent::Unreadable => (
                PipelineState::Done,
                PipelineAction::Fail { error: PipelineError::Parse(Stage::Secondary) },
            ),
            PipelineEvent::Secondary { document } => (
                PipelineState::Done,
                secondary_arrived(primary, &document),
            ),
            PipelineEvent::Primary { document, pages } => (
                PipelineState::Done,
                PipelineAction::Fail { error: PipelineError::OutOfTurn },
            ),
        },
        PipelineState::Done => (
            PipelineState::Done,
            PipelineAction::Fail { error: PipelineError::OutOfTurn },
        ),
    }
}

/// Decides what follows the arrival of the primary document.
pub fn primary_arrived(document: Document, pages: Vec<PageScan>) -> (r: (
    PipelineState,
    PipelineAction,
))
    ensures
        r.0.wf(),
        after_primary(document, pages@, r.0, r.1),
{
    if !document.check() {
        return (
            PipelineState::Done,
            PipelineAction::Fail { error: PipelineError::Parse(Stage::Primary) },
        );
    }
    let numbers = match extract_exercise_numbers(&pages) {
        Ok(numbers) => numbers,
        Err(e) => {
            return (
                PipelineState::Done,
                PipelineAction::Fail { error: PipelineError::Extraction(e) },
            );
        },
    };
    match secondary_locator(&numbers) {
        Some(locator) => (
            PipelineState::AwaitingSecondary { primary: document },
            PipelineAction::Fetch { locator },
        ),
        None => (PipelineState::Done, PipelineAction::Save { document }),
    }
}

/// Appends the pages of the secondary document and decides what follows.
pub fn secondary_arrived(primary: Document, secondary: &Document) -> (r: PipelineAction)
    requires
        primary.wf(),
    ensures
        after_secondary(primary@, secondary@, r),
{
    let mut document = primary;
    match merge_pdf_document(&mut document, secondary) {
        Ok(_) => {
            let ghost saved = document@;
            assert(exists|m: Map<usize, usize>| #[trigger] merged(secondary@, primary@, saved, m));
            let r = PipelineAction::Save { document };
            assert(r matches PipelineAction::Save { document: d } && d@ == saved);
            r
        },
        Err(e) => {
            let r = PipelineAction::Fail { error: PipelineError::Merge(e) };
            assert(r matches PipelineAction::Fail { error: PipelineError::Merge(f) } && f == e);
            r
        },
    }
}

} // verus!
