//! The edits of one document, in their fixed order.
//!
//! First the acceleration is rescaled, then the delay of the entry is drawn
//! and the entry delayed, then the stops are extended. Each step runs only
//! where the caller asks for it. The first failure ends the run, and no
//! document comes back.

use crate::acceleration::{modify_multiplier, multiplier_applied, rescaled_by, rescaled_view};
use crate::document::{child_position, law_child_position, Element, ElementView, NodeView};
use crate::error::{Cause, CauseView, Failure, FailureView, Step};
use crate::timetable::{
    answers, delay_departures, delay_entry, departures_delayed, ends_as, entry_delayed,
    law_scheduled_position, law_stops_extended, scheduled_position, stops_extended, TRAIN,
};
use vstd::prelude::*;

verus! {

/// An outcome as seen from the enclosing operation `step`.
pub open spec fn in_step(outcome: Result<ElementView, FailureView>, step: Step) -> Result<
    ElementView,
    FailureView,
> {
    match outcome {
        Ok(doc) => Ok(doc),
        Err(failure) => Err(failure.within(step)),
    }
}

/// The first step: the acceleration set to `rescaled`, where one is
/// given.
pub open spec fn accelerated(doc: ElementView, rescaled: Option<Option<Seq<char>>>) -> Result<
    ElementView,
    FailureView,
> {
    match rescaled {
        None => Ok(doc),
        Some(value) => in_step(multiplier_applied(doc, value), Step::ApplyingMultiplier),
    }
}

/// The second step: the entry delayed by the seconds drawn, unless they are
/// zero; a failure where none could be drawn.
pub open spec fn entered(doc: ElementView, drawn: Option<u32>) -> Result<ElementView, FailureView> {
    match drawn {
        None => Err(FailureView::root(CauseView::InvalidDistributionParameters)),
        Some(seconds) => if seconds == 0 {
            Ok(doc)
        } else {
            in_step(entry_delayed(doc, seconds as int), Step::DelayingEntry)
        },
    }
}

/// The third step: the stops extended by the scaled waits and the longest
/// wait of `stretch`, where one is given.
pub open spec fn stretched(doc: ElementView, stretch: Option<(Seq<i64>, int)>) -> Result<
    ElementView,
    FailureView,
> {
    match stretch {
        None => Ok(doc),
        Some((scaled, max_wait)) => in_step(
            departures_delayed(doc, scaled, max_wait),
            Step::DelayingDepartures,
        ),
    }
}

/// The three steps in their order; the first failure is the outcome.
pub open spec fn modified(
    doc: ElementView,
    rescaled: Option<Option<Seq<char>>>,
    drawn: Option<u32>,
    stretch: Option<(Seq<i64>, int)>,
) -> Result<ElementView, FailureView> {
    match accelerated(doc, rescaled) {
        Err(failure) => Err(failure),
        Ok(first) => match entered(first, drawn) {
            Err(failure) => Err(failure),
            Ok(second) => stretched(second, stretch),
        },
    }
}

/// Whether `output`, `drawn` and `scaled` are what the closures of a run
/// answered: `output` the closure that rescaled the acceleration of `doc`,
/// given `input`; `drawn` the closure that draws the delay, asked once the
/// first step was done; and `scaled` the closure that scaled the waits of the
/// document that the first two steps left.
pub open spec fn answered<
    L: Fn(String) -> Option<String>,
    M: Fn(String) -> Option<String>,
    D: FnOnce() -> Option<u32>,
    S: Fn(i64) -> i64,
>(
    doc: ElementView,
    acceleration: Option<(L, M)>,
    entry_delay: D,
    departures: Option<(S, i64)>,
    input: String,
    output: Option<String>,
    drawn: Option<u32>,
    scaled: Seq<i64>,
) -> bool {
    &&& acceleration matches Some((for_locomotive, for_multiple_unit)) ==> rescaled_by(
        for_locomotive,
        for_multiple_unit,
        doc,
        input,
        output,
    )
    &&& accelerated(doc, rescaling(acceleration, output)) matches Ok(first) ==> {
        &&& call_ensures(entry_delay, (), drawn)
        &&& departures matches Some((scale, max_wait)) ==> (entered(first, drawn) matches Ok(
            second,
        ) ==> answers(scale, second, scaled, max_wait as int))
    }
}

/// What the first step is given: nothing where no rescaling is asked for.
pub open spec fn rescaling<L, M>(acceleration: Option<(L, M)>, output: Option<String>) -> Option<
    Option<Seq<char>>,
> {
    match acceleration {
        Some(_) => Some(rescaled_view(output)),
        None => None,
    }
}

/// What the third step is given: nothing where no stretching is asked for.
pub open spec fn stretching<S>(departures: Option<(S, i64)>, scaled: Seq<i64>) -> Option<
    (Seq<i64>, int),
> {
    match departures {
        Some((_, max_wait)) => Some((scaled, max_wait as int)),
        None => None,
    }
}

/// Whether a run ended as `expected` says.
pub open spec fn yields(result: Result<Element, Failure>, expected: Result<ElementView, FailureView>) -> bool {
    match expected {
        Ok(doc) => result matches Ok(tree) && tree@ == doc,
        Err(failure) => result matches Err(f) && f@ == failure,
    }
}

/// Edits one document. Where `acceleration` is given, the acceleration of
/// the train is rescaled by its two closures, the first for a train with a
/// locomotive and the second for a multiple unit. Then `entry_delay` is asked
/// for the seconds by which the entry of the train is delayed; zero delays
/// nothing, and `None` says that no delay can be drawn. Where `departures` is
/// given, every stop is extended by what its closure makes of the wait, at
/// most by its number of seconds. A step that fails ends the run: the failure
/// names the step, no later closure is asked, and no document is returned.
pub fn modify_document<
    L: Fn(String) -> Option<String>,
    M: Fn(String) -> Option<String>,
    D: FnOnce() -> Option<u32>,
    S: Fn(i64) -> i64,
>(
    tree: Element,
    acceleration: Option<(L, M)>,
    entry_delay: D,
    departures: Option<(S, i64)>,
) -> (result: Result<Element, Failure>)
    requires
        acceleration matches Some((for_locomotive, for_multiple_unit)) ==> (forall|value: String|
            call_requires(for_locomotive, (value,))) && (forall|value: String|
            call_requires(for_multiple_unit, (value,))),
        call_requires(entry_delay, ()),
        departures matches Some((scale, _)) ==> forall|wait: i64| call_requires(scale, (wait,)),
    ensures
        exists|input: String, output: Option<String>, drawn: Option<u32>, scaled: Seq<i64>|
            #[trigger] answered(
                tree@,
                acceleration,
                entry_delay,
                departures,
                input,
                output,
                drawn,
                scaled,
            ) && yields(
                result,
                modified(
                    tree@,
                    rescaling(acceleration, output),
                    drawn,
                    stretching(departures, scaled),
                ),
            ),
        tree.well_formed() ==> (result matches Ok(after) ==> after.well_formed()),
{
    let mut tree = tree;
    let ghost start = tree@;
    let ghost mut input: String = arbitrary();
    let ghost mut output: Option<String> = None;
    let ghost mut scaled: Seq<i64> = Seq::empty();
    if let Some((for_locomotive, for_multiple_unit)) = acceleration {
        let outcome = modify_multiplier(&mut tree, for_locomotive, for_multiple_unit);
        proof {
            let found = choose|input: String, output: Option<String>|
                #[trigger] rescaled_by(for_locomotive, for_multiple_unit, start, input, output)
                    && ends_as(
                    outcome,
                    start,
                    tree@,
                    multiplier_applied(start, rescaled_view(output)),
                );
            input = found.0;
            output = found.1;
        }
        if let Err(failure) = outcome {
            let failure = failure.within(Step::ApplyingMultiplier);
            assert(answered(
                start,
                acceleration,
                entry_delay,
                departures,
                input,
                output,
                None,
                scaled,
            ));
            return Err(failure);
        }
    }
    let ghost first = tree@;
    assert(accelerated(start, rescaling(acceleration, output)) == Ok::<ElementView, FailureView>(
        first,
    ));
    let drawn = entry_delay();
    let seconds = match drawn {
        Some(seconds) => seconds,
        None => {
            let failure = Failure::root(Cause::InvalidDistributionParameters);
            assert(answered(
                start,
                acceleration,
                entry_delay,
                departures,
                input,
                output,
                drawn,
                scaled,
            ));
            return Err(failure);
        },
    };
    if seconds != 0 {
        if let Err(failure) = delay_entry(&mut tree, seconds) {
            let failure = failure.within(Step::DelayingEntry);
            assert(answered(
                start,
                acceleration,
                entry_delay,
                departures,
                input,
                output,
                drawn,
                scaled,
            ));
            return Err(failure);
        }
    }
    let ghost second = tree@;
    assert(entered(first, drawn) == Ok::<ElementView, FailureView>(second));
    if let Some((scale, max_wait)) = departures {
        let outcome = delay_departures(&mut tree, scale, max_wait);
        proof {
            scaled = choose|scaled: Seq<i64>|
                answers(scale, second, scaled, max_wait as int) && ends_as(
                    outcome,
                    second,
                    tree@,
                    #[trigger] departures_delayed(second, scaled, max_wait as int),
                );
        }
        if let Err(failure) = outcome {
            let failure = failure.within(Step::DelayingDepartures);
            assert(answered(
                start,
                acceleration,
                entry_delay,
                departures,
                input,
                output,
                drawn,
                scaled,
            ));
            return Err(failure);
        }
    }
    assert(answered(start, acceleration, entry_delay, departures, input, output, drawn, scaled));
    Ok(tree)
}

/// Whether `after` is `before` but for what its child elements hold: the
/// same name, the same attributes, as many children, each element still an
/// element of its name, and each child that is no element unchanged.
pub open spec fn content_kept(before: ElementView, after: ElementView) -> bool {
    &&& after.name == before.name
    &&& after.children.len() == before.children.len()
    &&& forall|i: int|
        0 <= i < before.children.len() ==> match #[trigger] before.children[i] {
            NodeView::Element(e) => after.children[i] matches NodeView::Element(f) && f.name
                == e.name,
            other => after.children[i] == other,
        }
}

/// Whether `after` is the document `before` but for attribute values of its
/// train and of the children of its train: nothing is added, removed, moved
/// or renamed, and no text, comment or other content is touched, in the
/// document or in the train.
pub open spec fn document_kept(before: ElementView, after: ElementView) -> bool {
    &&& content_kept(before, after)
    &&& after.attributes == before.attributes
    &&& forall|i: int|
        0 <= i < before.children.len() ==> (#[trigger] after.children[i]) == before.children[i] || (
        child_position(before.children, TRAIN@, 0) == Some(i) && content_kept(
            before.children[i].element(),
            after.children[i].element(),
        ))
}

/// A train whose content is kept stays where it is in its document.
proof fn lemma_train_stays(before: ElementView, after: ElementView, from: int)
    requires
        content_kept(before, after),
        0 <= from,
    ensures
        child_position(after.children, TRAIN@, from) == child_position(
            before.children,
            TRAIN@,
            from,
        ),
    decreases before.children.len() - from,
{
    if from < before.children.len() {
        assert(before.children[from].is_named(TRAIN@) == after.children[from].is_named(TRAIN@));
        lemma_train_stays(before, after, from + 1);
    }
}

/// Keeping the content twice is keeping the content.
proof fn lemma_content_kept_twice(a: ElementView, b: ElementView, c: ElementView)
    requires
        content_kept(a, b),
        content_kept(b, c),
    ensures
        content_kept(a, c),
{
    assert forall|i: int| 0 <= i < a.children.len() implies match #[trigger] a.children[i] {
        NodeView::Element(e) => c.children[i] matches NodeView::Element(f) && f.name == e.name,
        other => c.children[i] == other,
    } by {
        assert(b.children[i] is Element <==> a.children[i] is Element);
    }
}

/// Keeping the document twice is keeping the document.
proof fn lemma_document_kept_twice(a: ElementView, b: ElementView, c: ElementView)
    requires
        document_kept(a, b),
        document_kept(b, c),
    ensures
        document_kept(a, c),
{
    lemma_content_kept_twice(a, b, c);
    lemma_train_stays(a, b, 0);
    assert forall|i: int| 0 <= i < a.children.len() implies (#[trigger] c.children[i])
        == a.children[i] || (child_position(a.children, TRAIN@, 0) == Some(i) && content_kept(
        a.children[i].element(),
        c.children[i].element(),
    )) by {
        if c.children[i] != a.children[i] {
            if b.children[i] == a.children[i] {
            } else if c.children[i] == b.children[i] {
            } else {
                lemma_content_kept_twice(
                    a.children[i].element(),
                    b.children[i].element(),
                    c.children[i].element(),
                );
            }
        }
    }
}

/// A document whose train is replaced by one that keeps its content is
/// kept.
proof fn lemma_train_replaced(doc: ElementView, train: ElementView)
    requires
        child_position(doc.children, TRAIN@, 0) matches Some(at) && content_kept(
            doc.children[at].element(),
            train,
        ),
    ensures
        document_kept(doc, doc.with_child(child_position(doc.children, TRAIN@, 0)->Some_0, train)),
{
    law_child_position(doc.children, TRAIN@, 0);
    let at = child_position(doc.children, TRAIN@, 0)->Some_0;
    let after = doc.with_child(at, train);
    assert forall|i: int| 0 <= i < doc.children.len() implies match #[trigger] doc.children[i] {
        NodeView::Element(e) => after.children[i] matches NodeView::Element(f) && f.name == e.name,
        other => after.children[i] == other,
    } by {
        if i != at {
            assert(after.children[i] == doc.children[i]);
        }
    }
}

/// Each of the three steps keeps the document.
proof fn lemma_steps_keep(
    doc: ElementView,
    rescaled: Option<Option<Seq<char>>>,
    drawn: Option<u32>,
    stretch: Option<(Seq<i64>, int)>,
)
    ensures
        accelerated(doc, rescaled) matches Ok(after) ==> document_kept(doc, after),
        entered(doc, drawn) matches Ok(after) ==> document_kept(doc, after),
        stretched(doc, stretch) matches Ok(after) ==> document_kept(doc, after),
{
    if accelerated(doc, rescaled) is Ok {
        let after = accelerated(doc, rescaled)->Ok_0;
        if rescaled is Some {
            let at = child_position(doc.children, TRAIN@, 0)->Some_0;
            law_child_position(doc.children, TRAIN@, 0);
            lemma_train_replaced(doc, after.children[at].element());
        }
    }
    if entered(doc, drawn) is Ok {
        let after = entered(doc, drawn)->Ok_0;
        if drawn != Some(0u32) {
            let at = child_position(doc.children, TRAIN@, 0)->Some_0;
            let train = doc.children[at].element();
            law_child_position(doc.children, TRAIN@, 0);
            law_scheduled_position(train.children, 0);
            let moved = after.children[at].element();
            let entry = scheduled_position(train.children, 0)->Some_0;
            assert forall|i: int| 0 <= i < train.children.len() implies match #[trigger] train.children[i] {
                NodeView::Element(e) => moved.children[i] matches NodeView::Element(f) && f.name
                    == e.name,
                other => moved.children[i] == other,
            } by {
                if i != entry {
                    assert(moved.children[i] == train.children[i]);
                }
            }
            lemma_train_replaced(doc, moved);
        }
    }
    if stretched(doc, stretch) is Ok {
        let after = stretched(doc, stretch)->Ok_0;
        if stretch is Some {
            let scaled = stretch->Some_0.0;
            let max_wait = stretch->Some_0.1;
            let at = child_position(doc.children, TRAIN@, 0)->Some_0;
            let train = doc.children[at].element();
            law_child_position(doc.children, TRAIN@, 0);
            law_stops_extended(train.children, scaled, max_wait);
            let moved = after.children[at].element();
            assert(moved.children == stops_extended(train.children, scaled, max_wait)->Ok_0);
            lemma_train_replaced(doc, moved);
        }
    }
}

/// No delay drawn is a failure, and a delay of zero seconds leaves the
/// document as it is.
pub proof fn law_delay_drawn(doc: ElementView)
    ensures
        entered(doc, None) == Err::<ElementView, FailureView>(
            FailureView::root(CauseView::InvalidDistributionParameters),
        ),
        entered(doc, Some(0u32)) == Ok::<ElementView, FailureView>(doc),
{
}

/// Whatever a run is asked to do, the document that comes back is the one
/// that went in but for attribute values of the train and of the children of
/// the train. Nothing is added, removed, moved or renamed; text, comments
/// and other content stay as they were.
pub proof fn law_edits_keep_content(
    doc: ElementView,
    rescaled: Option<Option<Seq<char>>>,
    drawn: Option<u32>,
    stretch: Option<(Seq<i64>, int)>,
)
    ensures
        modified(doc, rescaled, drawn, stretch) matches Ok(after) ==> document_kept(doc, after),
{
    if modified(doc, rescaled, drawn, stretch) is Ok {
        let after = modified(doc, rescaled, drawn, stretch)->Ok_0;
        let first = accelerated(doc, rescaled)->Ok_0;
        let second = entered(first, drawn)->Ok_0;
        lemma_steps_keep(doc, rescaled, drawn, stretch);
        lemma_steps_keep(first, rescaled, drawn, stretch);
        lemma_steps_keep(second, rescaled, drawn, stretch);
        lemma_document_kept_twice(doc, first, second);
        lemma_document_kept_twice(doc, second, after);
    }
}

} // verus!
