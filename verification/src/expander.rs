//! Expanding one directory: collecting what its cursor yields, step by step,
//! until the cursor is done or breaks.
//!
//! The caller drives the cursor of the host. After every step it hands in
//! what the step gave and is told whether to ask for another one.

use vstd::prelude::*;
use crate::property::{lookup_failed, lookup_failed_message, no_function, no_function_message};

verus! {

/// Why a directory could not be expanded.
#[derive(Debug, PartialEq, Eq)]
pub enum ExpandFailure {
    /// Looking up `values` on the handle failed.
    ValuesMissing,
    /// The handle's `values` is no function.
    ValuesNotFunction,
    /// Calling `values` failed.
    CallFailed,
    /// What `values` returned is no asynchronous cursor.
    NotCursor,
    /// Asking the cursor for its next element failed at once. Holds the
    /// host's description of the error.
    StepThrew(String),
    /// The cursor promised its next element and broke the promise.
    StepRejected,
}

/// The message for a directory that could not be expanded.
pub open spec fn failure_message(f: ExpandFailure) -> Seq<char> {
    match f {
        ExpandFailure::ValuesMissing => lookup_failed_message("values"@),
        ExpandFailure::ValuesNotFunction => no_function_message("Handle"@, "values"@),
        ExpandFailure::CallFailed => "Failed calling values on handle"@,
        ExpandFailure::NotCursor => "Not AsyncIterator from values on handle"@,
        ExpandFailure::StepThrew(e) => "Error iterating Directory handle values(): "@ + e@,
        ExpandFailure::StepRejected
            => "Promise for Directory handle values() iterator next() failed"@,
    }
}

impl ExpandFailure {
    /// The message for this failure.
    pub fn message(&self) -> (m: String)
        ensures
            m@ == failure_message(*self),
    {
        match self {
            ExpandFailure::ValuesMissing => lookup_failed("values"),
            ExpandFailure::ValuesNotFunction => no_function("Handle", "values"),
            ExpandFailure::CallFailed => String::from_str("Failed calling values on handle"),
            ExpandFailure::NotCursor => String::from_str(
                "Not AsyncIterator from values on handle",
            ),
            ExpandFailure::StepThrew(e) => {
                let mut m = String::from_str("Error iterating Directory handle values(): ");
                m.append(e.as_str());
                m
            },
            ExpandFailure::StepRejected => String::from_str(
                "Promise for Directory handle values() iterator next() failed",
            ),
        }
    }

    /// Whether the failure came with the cursor open, that is, at a step.
    #[verifier::when_used_as_spec(spec_cursor_opened)]
    pub fn cursor_opened(&self) -> (b: bool)
        ensures
            b == self.spec_cursor_opened(),
    {
        match self {
            ExpandFailure::StepThrew(_) => true,
            ExpandFailure::StepRejected => true,
            _ => false,
        }
    }

    /// Whether the failure came with the cursor open, that is, at a step.
    pub open spec fn spec_cursor_opened(&self) -> bool {
        self is StepThrew || self is StepRejected
    }

    /// A second value of this failure.
    pub fn duplicate(&self) -> (f: ExpandFailure)
        ensures
            f == *self,
    {
        match self {
            ExpandFailure::ValuesMissing => ExpandFailure::ValuesMissing,
            ExpandFailure::ValuesNotFunction => ExpandFailure::ValuesNotFunction,
            ExpandFailure::CallFailed => ExpandFailure::CallFailed,
            ExpandFailure::NotCursor => ExpandFailure::NotCursor,
            ExpandFailure::StepThrew(e) => ExpandFailure::StepThrew(e.clone()),
            ExpandFailure::StepRejected => ExpandFailure::StepRejected,
        }
    }
}

/// What one step of a directory's cursor gave.
pub enum CursorStep<H> {
    /// A child of the directory.
    Item(H),
    /// The cursor is done: the directory has no more children.
    Done,
    /// The step failed.
    Failed(ExpandFailure),
}

/// The children of one directory that its cursor has yielded so far.
pub struct Expansion<H> {
    items: Vec<H>,
}

/// Where the expansion of one directory stands.
pub enum Progress<H> {
    /// The cursor has more to give: ask it for its next element.
    Pending(Expansion<H>),
    /// The expansion is over: all the children in the order the cursor
    /// yielded them, or the message of the failure that ended it.
    Complete(Result<Vec<H>, String>),
}

impl<H> View for Expansion<H> {
    type V = Seq<H>;

    /// The children yielded so far, oldest first.
    closed spec fn view(&self) -> Seq<H> {
        self.items@
    }
}

impl<H> Expansion<H> {
    /// Starts the expansion of a directory from what opening its cursor
    /// gave: `None` where the cursor is open, the failure where it is not.
    pub fn begin(opened: Option<ExpandFailure>) -> (p: Progress<H>)
        ensures
            match opened {
                None => p is Pending && p->Pending_0@ == Seq::<H>::empty(),
                Some(f) => p is Complete && p->Complete_0 is Err && p->Complete_0->Err_0@
                    == failure_message(f),
            },
    {
        match opened {
            None => Progress::Pending(Expansion { items: Vec::new() }),
            Some(f) => Progress::Complete(Err(f.message())),
        }
    }

    /// Takes in what one step of the cursor gave. An item is kept and
    /// another step asked for. The end of the cursor completes the expansion
    /// with all the items, in the order they came. A failure completes it
    /// with the failure's message and without any item.
    pub fn feed(self, step: CursorStep<H>) -> (p: Progress<H>)
        ensures
            match step {
                CursorStep::Item(h) => p is Pending && p->Pending_0@ == self@.push(h),
                CursorStep::Done => p is Complete && p->Complete_0 is Ok && p->Complete_0->Ok_0@
                    == self@,
                CursorStep::Failed(f) => p is Complete && p->Complete_0 is Err
                    && p->Complete_0->Err_0@ == failure_message(f),
            },
    {
        let mut items = self.items;
        match step {
            CursorStep::Item(h) => {
                items.push(h);
                Progress::Pending(Expansion { items })
            },
            CursorStep::Done => Progress::Complete(Ok(items)),
            CursorStep::Failed(f) => Progress::Complete(Err(f.message())),
        }
    }
}

} // verus!
