//! What can go wrong while a document is edited, and what was being
//! attempted when it did.

use vstd::prelude::*;

verus! {

/// The root cause of a failure.
#[derive(Debug, PartialEq, Eq)]
pub enum Cause {
    /// A required element is absent; the payload is its name.
    MissingTag(String),
    /// An element lacks a required child; the payload is the child's name.
    MissingChild(String),
    /// An element lacks a required attribute; the payload is its key.
    MissingAttribute(String),
    /// A consist holds an element outside its vocabulary; the payload is the
    /// element's name.
    UnrecognizedVariant(String),
    /// An attribute does not hold a number; the payload is its value.
    InvalidNumber(String),
    /// An attribute does not hold a time; the payload is its value.
    InvalidTime(String),
    /// A time moved out of the representable range.
    Overflow,
    /// The train has no timetable entry.
    MissingEntry,
    /// The delay of the entry cannot be drawn: the parameters given describe
    /// no distribution.
    InvalidDistributionParameters,
}

/// What a cause is in contracts.
pub enum CauseView {
    MissingTag(Seq<char>),
    MissingChild(Seq<char>),
    MissingAttribute(Seq<char>),
    UnrecognizedVariant(Seq<char>),
    InvalidNumber(Seq<char>),
    InvalidTime(Seq<char>),
    Overflow,
    MissingEntry,
    InvalidDistributionParameters,
}

impl View for Cause {
    type V = CauseView;

    open spec fn view(&self) -> CauseView {
        match *self {
            Cause::MissingTag(s) => CauseView::MissingTag(s@),
            Cause::MissingChild(s) => CauseView::MissingChild(s@),
            Cause::MissingAttribute(s) => CauseView::MissingAttribute(s@),
            Cause::UnrecognizedVariant(s) => CauseView::UnrecognizedVariant(s@),
            Cause::InvalidNumber(s) => CauseView::InvalidNumber(s@),
            Cause::InvalidTime(s) => CauseView::InvalidTime(s@),
            Cause::Overflow => CauseView::Overflow,
            Cause::MissingEntry => CauseView::MissingEntry,
            Cause::InvalidDistributionParameters => CauseView::InvalidDistributionParameters,
        }
    }
}

/// An operation during which a failure can surface.
#[derive(Clone, Copy, Debug, PartialEq, Eq, Structural)]
pub enum Step {
    ClassifyingConsist,
    ParsingAcceleration,
    ParsingArrival,
    ParsingDeparture,
    ApplyingMultiplier,
    DelayingEntry,
    DelayingDepartures,
}

/// A root cause and the operations that were under way, innermost first.
#[derive(Debug, PartialEq, Eq)]
pub struct Failure {
    pub cause: Cause,
    pub context: Vec<Step>,
}

/// What a failure is in contracts.
pub struct FailureView {
    pub cause: CauseView,
    pub context: Seq<Step>,
}

impl FailureView {
    /// A failure with no operation recorded yet.
    pub open spec fn root(cause: CauseView) -> FailureView {
        FailureView { cause, context: Seq::empty() }
    }

    /// The failure as seen from the enclosing operation `step`.
    pub open spec fn within(self, step: Step) -> FailureView {
        FailureView { cause: self.cause, context: self.context.push(step) }
    }
}

impl View for Failure {
    type V = FailureView;

    open spec fn view(&self) -> FailureView {
        FailureView { cause: self.cause@, context: self.context@ }
    }
}

impl Failure {
    /// A failure with no operation recorded yet.
    pub fn root(cause: Cause) -> (failure: Failure)
        ensures
            failure@ == FailureView::root(cause@),
    {
        Failure { cause, context: Vec::new() }
    }

    /// Records that the failure surfaced during `step`.
    pub fn within(self, step: Step) -> (failure: Failure)
        ensures
            failure@ == self@.within(step),
    {
        let mut failure = self;
        failure.context.push(step);
        failure
    }

    /// The root cause.
    pub fn root_cause(&self) -> (cause: &Cause)
        ensures
            cause@ == self@.cause,
    {
        &self.cause
    }
}

} // verus!
