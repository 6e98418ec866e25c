//! Decides whether the vehicles of a train include a locomotive.
//!
//! A consist is walked in document order. The first locomotive ends the walk
//! with `true`, the first malformed node ends it with an error, and a walk
//! that meets neither ends with `false`.

use crate::document::{child_position, Element, ElementView, Node, NodeView};
use crate::error::{Cause, CauseView, Failure, FailureView};
use crate::text::{contains, contains_text};
use vstd::prelude::*;

verus! {

/// Name of the element that refers to one vehicle.
pub const VEHICLE: &'static str = "Datei";

/// Key of the attribute that holds a vehicle's file name.
pub const VEHICLE_FILE: &'static str = "Dateiname";

/// Name of the element that wraps one vehicle reference.
pub const VEHICLE_INFO: &'static str = "FahrzeugInfo";

/// Name of the element that groups vehicles; a consist is one itself.
pub const VEHICLE_GROUP: &'static str = "FahrzeugVarianten";

/// The mark in a file name that makes its vehicle a locomotive.
pub const LOCOMOTIVE_MARK: &'static str = "lok";

/// Whether an element name belongs to the vocabulary of a consist.
pub open spec fn in_vocabulary(name: Seq<char>) -> bool {
    name == VEHICLE@ || name == VEHICLE_INFO@ || name == VEHICLE_GROUP@
}

/// What a vehicle reference says: whether its file name carries the
/// locomotive mark, or that it has no file name.
pub open spec fn vehicle_verdict(vehicle: ElementView) -> Result<bool, CauseView> {
    match vehicle.attribute(VEHICLE_FILE@) {
        Some(file) => Ok(contains(file, LOCOMOTIVE_MARK@)),
        None => Err(CauseView::MissingAttribute(VEHICLE_FILE@)),
    }
}

/// What one child of a consist says on its own.
pub open spec fn node_verdict(node: NodeView) -> Result<bool, CauseView>
    decreases node,
{
    match node {
        NodeView::Element(e) => {
            if e.name == VEHICLE@ {
                vehicle_verdict(e)
            } else if e.name == VEHICLE_INFO@ {
                match child_position(e.children, VEHICLE@, 0) {
                    Some(at) => match e.children[at] {
                        NodeView::Element(vehicle) => vehicle_verdict(vehicle),
                        _ => Err(CauseView::MissingChild(VEHICLE@)),
                    },
                    None => Err(CauseView::MissingChild(VEHICLE@)),
                }
            } else if e.name == VEHICLE_GROUP@ {
                consist_verdict(e.children, 0)
            } else {
                Err(CauseView::UnrecognizedVariant(e.name))
            }
        },
        _ => Ok(false),
    }
}

/// What the children of a consist say from position `from` on: the verdict
/// of the first child that is a locomotive or malformed, and `Ok(false)`
/// where there is no such child.
pub open spec fn consist_verdict(children: Seq<NodeView>, from: int) -> Result<bool, CauseView>
    decreases children, children.len() - from,
{
    if from < 0 || from >= children.len() {
        Ok(false)
    } else {
        match node_verdict(children[from]) {
            Ok(false) => consist_verdict(children, from + 1),
            decided => decided,
        }
    }
}

/// Whether a child of a consist is a vehicle that is a locomotive, or a
/// group that lists one at any depth.
pub open spec fn node_lists_locomotive(node: NodeView) -> bool
    decreases node,
{
    match node {
        NodeView::Element(e) => {
            if e.name == VEHICLE@ {
                vehicle_verdict(e) == Ok::<bool, CauseView>(true)
            } else if e.name == VEHICLE_INFO@ {
                child_position(e.children, VEHICLE@, 0) matches Some(at)
                    && e.children[at] matches NodeView::Element(vehicle) && vehicle_verdict(vehicle)
                    == Ok::<bool, CauseView>(true)
            } else if e.name == VEHICLE_GROUP@ {
                lists_locomotive(e.children)
            } else {
                false
            }
        },
        _ => false,
    }
}

/// Whether a consist lists a locomotive, at any depth of nesting.
pub open spec fn lists_locomotive(children: Seq<NodeView>) -> bool
    decreases children,
{
    exists|i: int| 0 <= i < children.len() && node_lists_locomotive(#[trigger] children[i])
}

/// Whether a child of a consist is an element outside the vocabulary, or a
/// group that lists one at any depth.
pub open spec fn node_lists_unrecognized(node: NodeView) -> bool
    decreases node,
{
    match node {
        NodeView::Element(e) => {
            if e.name == VEHICLE_GROUP@ {
                lists_unrecognized(e.children)
            } else {
                !in_vocabulary(e.name)
            }
        },
        _ => false,
    }
}

/// Whether a consist lists an element outside the vocabulary, at any depth
/// of nesting.
pub open spec fn lists_unrecognized(children: Seq<NodeView>) -> bool
    decreases children,
{
    exists|i: int| 0 <= i < children.len() && node_lists_unrecognized(#[trigger] children[i])
}

/// Whether a cause is one that a consist can fail with.
pub open spec fn consist_cause(cause: CauseView) -> bool {
    match cause {
        CauseView::UnrecognizedVariant(name) => !in_vocabulary(name),
        CauseView::MissingAttribute(key) => key == VEHICLE_FILE@,
        CauseView::MissingChild(name) => name == VEHICLE@,
        _ => false,
    }
}

/// The three names of the vocabulary differ from one another.
pub proof fn lemma_vocabulary_distinct()
    ensures
        VEHICLE@ != VEHICLE_INFO@,
        VEHICLE@ != VEHICLE_GROUP@,
        VEHICLE_INFO@ != VEHICLE_GROUP@,
{
    reveal_strlit("Datei");
    reveal_strlit("FahrzeugInfo");
    reveal_strlit("FahrzeugVarianten");
    assert(VEHICLE@.len() == 5);
    assert(VEHICLE_INFO@.len() == 12);
    assert(VEHICLE_GROUP@.len() == 17);
}

proof fn lemma_node_verdict(node: NodeView)
    ensures
        node_verdict(node) == Ok::<bool, CauseView>(true) ==> node_lists_locomotive(node),
        node_verdict(node) == Ok::<bool, CauseView>(false) ==> !node_lists_locomotive(node)
            && !node_lists_unrecognized(node),
        node_verdict(node) matches Err(cause) ==> consist_cause(cause),
        node_verdict(node) matches Err(CauseView::UnrecognizedVariant(_))
            ==> node_lists_unrecognized(node),
    decreases node, 0nat,
{
    lemma_vocabulary_distinct();
    match node {
        NodeView::Element(e) => {
            if e.name == VEHICLE_GROUP@ {
                lemma_consist_verdict(e.children, 0);
            }
        },
        _ => {},
    }
}

proof fn lemma_consist_verdict(children: Seq<NodeView>, from: int)
    requires
        0 <= from,
    ensures
        consist_verdict(children, from) == Ok::<bool, CauseView>(true) ==> lists_locomotive(
            children,
        ),
        consist_verdict(children, from) == Ok::<bool, CauseView>(false) ==> forall|i: int|
            from <= i < children.len() ==> !node_lists_locomotive(#[trigger] children[i])
                && !node_lists_unrecognized(children[i]),
        consist_verdict(children, from) matches Err(cause) ==> consist_cause(cause),
        consist_verdict(children, from) matches Err(CauseView::UnrecognizedVariant(_))
            ==> lists_unrecognized(children),
    decreases children, children.len() - from,
{
    if from < children.len() {
        lemma_node_verdict(children[from]);
        if node_verdict(children[from]) == Ok::<bool, CauseView>(false) {
            lemma_consist_verdict(children, from + 1);
        }
    }
}

/// Where classification succeeds, it says `true` exactly where the consist
/// lists a locomotive at some depth; a consist without children lists none.
pub proof fn law_locomotive_iff_listed(children: Seq<NodeView>)
    ensures
        consist_verdict(children, 0) is Ok ==> (consist_verdict(children, 0) == Ok::<
            bool,
            CauseView,
        >(true) <==> lists_locomotive(children)),
        children.len() == 0 ==> consist_verdict(children, 0) == Ok::<bool, CauseView>(false),
{
    lemma_consist_verdict(children, 0);
    match consist_verdict(children, 0) {
        Ok(found) => {
            assert(consist_verdict(children, 0) == Ok::<bool, CauseView>(found));
        },
        Err(_) => {},
    }
}

/// An element outside the vocabulary is never passed over: a consist that
/// lists one, at any depth, is not classified `false`. Classification fails
/// only for such an element, a vehicle without file name, or a vehicle info
/// without vehicle; where it fails for such an element, the consist lists
/// one.
pub proof fn law_unrecognized_not_skipped(children: Seq<NodeView>)
    ensures
        lists_unrecognized(children) ==> consist_verdict(children, 0) != Ok::<bool, CauseView>(
            false,
        ),
        consist_verdict(children, 0) matches Err(cause) ==> consist_cause(cause),
        consist_verdict(children, 0) matches Err(CauseView::UnrecognizedVariant(_))
            ==> lists_unrecognized(children),
{
    lemma_consist_verdict(children, 0);
}

/// Whether a result of the library states the verdict `expected`.
pub open spec fn states(result: Result<bool, Failure>, expected: Result<bool, CauseView>) -> bool {
    match expected {
        Ok(found) => result == Ok::<bool, Failure>(found),
        Err(cause) => result matches Err(failure) && failure@ == FailureView::root(cause),
    }
}

/// Whether the vehicle that `data_tag` refers to is a locomotive: its file
/// name holds `lok`.
pub fn is_wagon_locomotive(data_tag: &Element) -> (result: Result<bool, Failure>)
    ensures
        states(result, vehicle_verdict(data_tag@)),
{
    match data_tag.attribute(VEHICLE_FILE) {
        Some(file) => Ok(contains_text(file.as_str(), LOCOMOTIVE_MARK)),
        None => Err(Failure::root(Cause::MissingAttribute(String::from_str(VEHICLE_FILE)))),
    }
}

/// Whether the consist holds a locomotive.
pub fn consist_has_locomotive(consist: &Element) -> (result: Result<bool, Failure>)
    ensures
        states(result, consist_verdict(consist@.children, 0)),
    decreases consist,
{
    let vehicle = String::from_str(VEHICLE);
    let info = String::from_str(VEHICLE_INFO);
    let group = String::from_str(VEHICLE_GROUP);
    let mut i: usize = 0;
    while i < consist.children.len()
        invariant
            i <= consist.children@.len(),
            vehicle@ == VEHICLE@,
            info@ == VEHICLE_INFO@,
            group@ == VEHICLE_GROUP@,
            consist_verdict(consist@.children, 0) == consist_verdict(consist@.children, i as int),
        decreases consist.children.len() - i,
    {
        assert(consist@.children[i as int] == consist.children@[i as int]@);
        match &consist.children[i] {
            Node::Element(element) => {
                assert(consist@.children[i as int] == NodeView::Element(element@));
                if element.name == vehicle {
                    assert(node_verdict(consist@.children[i as int]) == vehicle_verdict(element@));
                    match is_wagon_locomotive(element) {
                        Ok(true) => {
                            return Ok(true);
                        },
                        Ok(false) => {},
                        Err(failure) => {
                            return Err(failure);
                        },
                    }
                } else if element.name == info {
                    match element.child(VEHICLE) {
                        Some(data) => match is_wagon_locomotive(data) {
                            Ok(true) => {
                                return Ok(true);
                            },
                            Ok(false) => {},
                            Err(failure) => {
                                return Err(failure);
                            },
                        },
                        None => {
                            return Err(
                                Failure::root(Cause::MissingChild(String::from_str(VEHICLE))),
                            );
                        },
                    }
                } else if element.name == group {
                    match consist_has_locomotive(element) {
                        Ok(true) => {
                            return Ok(true);
                        },
                        Ok(false) => {},
                        Err(failure) => {
                            return Err(failure);
                        },
                    }
                } else {
                    return Err(
                        Failure::root(Cause::UnrecognizedVariant(element.name.clone())),
                    );
                }
            },
            _ => {},
        }
        i += 1;
    }
    Ok(false)
}

} // verus!
