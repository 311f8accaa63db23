//! The order in which a book is converted.

use vstd::prelude::*;

use crate::extractor::fingerprint::needs_conversion;
use crate::text::trimmed;

verus! {

/// What to do next about a book that was found.
#[derive(Clone, Copy, PartialEq, Eq, Structural)]
pub enum BookStep {
    MakeDirectory,
    Clean,
    Convert,
    StoreFingerprint,
    Done,
    Failed,
}

/// What to do first about a book with the fingerprint `hash`, where `stored` is the
/// fingerprint kept when it was converted last: nothing, if it has not changed.
pub fn first_book_step(hash: &str, stored: Option<&str>) -> (step: BookStep)
    ensures
        step == if stored matches Some(kept) && trimmed(kept@) == hash@ {
            BookStep::Done
        } else {
            BookStep::MakeDirectory
        },
{
    if needs_conversion(hash, stored) {
        BookStep::MakeDirectory
    } else {
        BookStep::Done
    }
}

/// What follows a step that has succeeded. Clearing the directory does what it can.
pub open spec fn book_step_behind(step: BookStep) -> BookStep {
    match step {
        BookStep::MakeDirectory => BookStep::Clean,
        BookStep::Clean => BookStep::Convert,
        BookStep::Convert => BookStep::StoreFingerprint,
        BookStep::StoreFingerprint => BookStep::Done,
        BookStep::Done => BookStep::Done,
        BookStep::Failed => BookStep::Failed,
    }
}

/// What follows the step `step`: a step that fails ends the work on the book, but
/// clearing its directory never does.
pub open spec fn book_step_after(step: BookStep, succeeded: bool) -> BookStep {
    if succeeded || step == BookStep::Clean || step == BookStep::Done {
        book_step_behind(step)
    } else {
        BookStep::Failed
    }
}

/// What follows the step `step`, which has succeeded or not.
pub fn next_book_step(step: BookStep, succeeded: bool) -> (next: BookStep)
    ensures
        next == book_step_after(step, succeeded),
{
    match step {
        BookStep::Clean => BookStep::Convert,
        BookStep::Done => BookStep::Done,
        BookStep::MakeDirectory if succeeded => BookStep::Clean,
        BookStep::Convert if succeeded => BookStep::StoreFingerprint,
        BookStep::StoreFingerprint if succeeded => BookStep::Done,
        _ => BookStep::Failed,
    }
}

/// A fingerprint is stored only for a book whose conversion has succeeded, so that a
/// book whose conversion has failed is tried again.
pub proof fn law_fingerprint_follows_conversion(step: BookStep, succeeded: bool)
    requires
        book_step_after(step, succeeded) == BookStep::StoreFingerprint,
    ensures
        step == BookStep::Convert,
        succeeded,
{
}

} // verus!
