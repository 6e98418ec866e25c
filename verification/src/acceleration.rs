//! Rescales the acceleration capability of a train.
//!
//! The capability is a decimal fraction in an attribute. The arithmetic on
//! it is the caller's: one closure rescales the value of a train that is
//! hauled by a locomotive, another that of a multiple unit. Which of the two
//! is asked is decided here, by the consist.

use crate::consist::{consist_has_locomotive, consist_verdict, VEHICLE_GROUP};
use crate::document::{child_position, Element, ElementView, Node, NodeView};
use crate::error::{Cause, CauseView, Failure, FailureView, Step};
use crate::timetable::{ends_as, TRAIN};
use vstd::pervasive::unreached;
use vstd::prelude::*;

verus! {

/// Key of the attribute that holds the acceleration capability of a train.
pub const ACCELERATION: &'static str = "APBeschl";

/// The kind of a train by its traction, which decides how much a loss of
/// friction costs it.
#[derive(Clone, Copy, Debug, PartialEq, Eq, Structural)]
pub enum Traction {
    Locomotive,
    MultipleUnit,
}

/// What there is to rescale: the traction of a train and the value that its
/// acceleration attribute holds.
pub struct Capability {
    pub traction: Traction,
    pub value: Seq<char>,
}

/// The capability that a train states, or why none can be read.
pub open spec fn train_capability(train: ElementView) -> Result<Capability, FailureView> {
    match child_position(train.children, VEHICLE_GROUP@, 0) {
        None => Err(FailureView::root(CauseView::MissingTag(VEHICLE_GROUP@))),
        Some(consist) => match consist_verdict(train.children[consist].element().children, 0) {
            Err(cause) => Err(FailureView::root(cause).within(Step::ClassifyingConsist)),
            Ok(hauled) => match train.attribute(ACCELERATION@) {
                None => Err(FailureView::root(CauseView::MissingAttribute(ACCELERATION@))),
                Some(value) => Ok(
                    Capability {
                        traction: if hauled {
                            Traction::Locomotive
                        } else {
                            Traction::MultipleUnit
                        },
                        value,
                    },
                ),
            },
        },
    }
}

/// The train with its acceleration set to `rescaled`, or why that cannot be
/// done; `None` stands for a value that is no number.
pub open spec fn train_rescaled(train: ElementView, rescaled: Option<Seq<char>>) -> Result<
    ElementView,
    FailureView,
> {
    match train_capability(train) {
        Err(failure) => Err(failure),
        Ok(found) => match rescaled {
            None => Err(
                FailureView::root(CauseView::InvalidNumber(found.value)).within(
                    Step::ParsingAcceleration,
                ),
            ),
            Some(value) => Ok(train.with_attribute(ACCELERATION@, value)),
        },
    }
}

/// The document with the acceleration of its train set to `rescaled`, or
/// why that cannot be done.
pub open spec fn multiplier_applied(doc: ElementView, rescaled: Option<Seq<char>>) -> Result<
    ElementView,
    FailureView,
> {
    match child_position(doc.children, TRAIN@, 0) {
        None => Err(FailureView::root(CauseView::MissingTag(TRAIN@))),
        Some(at) => match train_rescaled(doc.children[at].element(), rescaled) {
            Ok(train) => Ok(doc.with_child(at, train)),
            Err(failure) => Err(failure),
        },
    }
}

/// The characters of a rescaled value.
pub open spec fn rescaled_view(rescaled: Option<String>) -> Option<Seq<char>> {
    match rescaled {
        Some(value) => Some(value@),
        None => None,
    }
}

/// Whether `output` is what the closure for the train's traction answered
/// when it was given, as `input`, the value that the train holds.
pub open spec fn train_rescaled_by<
    L: Fn(String) -> Option<String>,
    M: Fn(String) -> Option<String>,
>(for_locomotive: L, for_multiple_unit: M, train: ElementView, input: String, output: Option<
    String,
>) -> bool {
    train_capability(train) matches Ok(found) ==> input@ == found.value && match found.traction {
        Traction::Locomotive => call_ensures(for_locomotive, (input,), output),
        Traction::MultipleUnit => call_ensures(for_multiple_unit, (input,), output),
    }
}

/// Whether `output` is what the closure for the traction of the document's
/// train answered when it was given, as `input`, the value that the train
/// holds.
pub open spec fn rescaled_by<L: Fn(String) -> Option<String>, M: Fn(String) -> Option<String>>(
    for_locomotive: L,
    for_multiple_unit: M,
    doc: ElementView,
    input: String,
    output: Option<String>,
) -> bool {
    child_position(doc.children, TRAIN@, 0) matches Some(at) ==> train_rescaled_by(
        for_locomotive,
        for_multiple_unit,
        doc.children[at].element(),
        input,
        output,
    )
}

/// Rescales the acceleration of `train`: see `modify_multiplier`.
pub fn rescale_train<L: Fn(String) -> Option<String>, M: Fn(String) -> Option<String>>(
    train: &mut Element,
    for_locomotive: L,
    for_multiple_unit: M,
) -> (result: Result<(), Failure>)
    requires
        forall|value: String| call_requires(for_locomotive, (value,)),
        forall|value: String| call_requires(for_multiple_unit, (value,)),
    ensures
        exists|input: String, output: Option<String>|
            #[trigger] train_rescaled_by(
                for_locomotive,
                for_multiple_unit,
                old(train)@,
                input,
                output,
            ) && ends_as(
                result,
                old(train)@,
                final(train)@,
                train_rescaled(old(train)@, rescaled_view(output)),
            ),
        old(train).well_formed() ==> final(train).well_formed(),
{
    let ghost unread: String = arbitrary();
    let consist = match train.child(VEHICLE_GROUP) {
        Some(consist) => consist,
        None => {
            let failure = Failure::root(Cause::MissingTag(String::from_str(VEHICLE_GROUP)));
            assert(train_rescaled_by(for_locomotive, for_multiple_unit, train@, unread, None));
            return Err(failure);
        },
    };
    let hauled = match consist_has_locomotive(consist) {
        Ok(hauled) => hauled,
        Err(failure) => {
            let failure = failure.within(Step::ClassifyingConsist);
            assert(train_rescaled_by(for_locomotive, for_multiple_unit, train@, unread, None));
            return Err(failure);
        },
    };
    let value = match train.attribute(ACCELERATION) {
        Some(value) => value.clone(),
        None => {
            let failure = Failure::root(Cause::MissingAttribute(String::from_str(ACCELERATION)));
            assert(train_rescaled_by(for_locomotive, for_multiple_unit, train@, unread, None));
            return Err(failure);
        },
    };
    let shown = value.clone();
    let rescaled = if hauled {
        for_locomotive(value)
    } else {
        for_multiple_unit(value)
    };
    assert(train_rescaled_by(for_locomotive, for_multiple_unit, train@, value, rescaled));
    match rescaled {
        Some(written) => {
            train.set_attribute(ACCELERATION, written);
            Ok(())
        },
        None => Err(Failure::root(Cause::InvalidNumber(shown)).within(Step::ParsingAcceleration)),
    }
}

/// Rescales the acceleration of the train of `tree`. The value of the
/// attribute is handed to `for_locomotive` where the consist of the train
/// holds a locomotive and to `for_multiple_unit` where it holds none; what
/// comes back is written in its place. An answer of `None` says that the
/// value is no number. On a failure the document stays as it was.
pub fn modify_multiplier<L: Fn(String) -> Option<String>, M: Fn(String) -> Option<String>>(
    tree: &mut Element,
    for_locomotive: L,
    for_multiple_unit: M,
) -> (result: Result<(), Failure>)
    requires
        forall|value: String| call_requires(for_locomotive, (value,)),
        forall|value: String| call_requires(for_multiple_unit, (value,)),
    ensures
        exists|input: String, output: Option<String>|
            #[trigger] rescaled_by(for_locomotive, for_multiple_unit, old(tree)@, input, output)
                && ends_as(
                result,
                old(tree)@,
                final(tree)@,
                multiplier_applied(old(tree)@, rescaled_view(output)),
            ),
        old(tree).well_formed() ==> final(tree).well_formed(),
{
    let at = match tree.child_index(TRAIN) {
        Some(at) => at,
        None => {
            let failure = Failure::root(Cause::MissingTag(String::from_str(TRAIN)));
            proof {
                let unread: String = arbitrary();
                assert(rescaled_by(for_locomotive, for_multiple_unit, old(tree)@, unread, None));
            }
            return Err(failure);
        },
    };
    assert(tree@.children[at as int] == tree.children@[at as int]@);
    let ghost train_before = tree@.children[at as int].element();
    let result = match &mut tree.children[at] {
        Node::Element(train) => rescale_train(train, for_locomotive, for_multiple_unit),
        _ => unreached(),
    };
    assert(tree@.children[at as int] == tree.children@[at as int]@);
    assert(tree@.children =~= old(tree)@.children.update(at as int, tree@.children[at as int]));
    if result.is_err() {
        assert(tree@.children =~= old(tree)@.children);
    }
    proof {
        let train_after = tree@.children[at as int].element();
        let (input, output) = choose|input: String, output: Option<String>|
            #[trigger] train_rescaled_by(
                for_locomotive,
                for_multiple_unit,
                train_before,
                input,
                output,
            ) && ends_as(
                result,
                train_before,
                train_after,
                train_rescaled(train_before, rescaled_view(output)),
            );
        assert(rescaled_by(for_locomotive, for_multiple_unit, old(tree)@, input, output));
    }
    result
}

} // verus!
