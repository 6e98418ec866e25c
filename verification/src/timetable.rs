//! Edits of a train's timetable: a delay of its entry, and longer stops.

use crate::document::{child_position, Element, ElementView, Node, NodeView};
use crate::error::{Cause, CauseView, Failure, FailureView, Step};
use crate::instant::{
    elapsed_seconds, instant_text, parse_time, parsed_instant, Instant, TIME_LAYOUT,
};
use vstd::pervasive::unreached;
use vstd::prelude::*;

verus! {

/// Name of the element that describes the train.
pub const TRAIN: &'static str = "Zug";

/// Name of the element that describes one timetable entry.
pub const ENTRY: &'static str = "FahrplanEintrag";

/// Key of the attribute that holds the arrival time of an entry.
pub const ARRIVAL: &'static str = "Ank";

/// Key of the attribute that holds the departure time of an entry.
pub const DEPARTURE: &'static str = "Abf";

impl NodeView {
    /// Whether the node is a timetable entry with an arrival time.
    pub open spec fn is_scheduled(self) -> bool {
        self.is_named(ENTRY@) && self.element().attribute(ARRIVAL@) is Some
    }
}

/// The position of the first child from `from` on that is a timetable entry
/// with an arrival time.
pub open spec fn scheduled_position(children: Seq<NodeView>, from: int) -> Option<int>
    decreases children.len() - from,
{
    if from < 0 || from >= children.len() {
        None
    } else if children[from].is_scheduled() {
        Some(from)
    } else {
        scheduled_position(children, from + 1)
    }
}

/// `scheduled_position` returns the least position that holds a timetable
/// entry with an arrival time, and `None` only where there is none.
pub proof fn law_scheduled_position(children: Seq<NodeView>, from: int)
    requires
        0 <= from,
    ensures
        match scheduled_position(children, from) {
            Some(at) => from <= at < children.len() && children[at].is_scheduled() && forall|
                j: int,
            |
                from <= j < at ==> !(#[trigger] children[j]).is_scheduled(),
            None => forall|j: int|
                from <= j < children.len() ==> !(#[trigger] children[j]).is_scheduled(),
        },
    decreases children.len() - from,
{
    if from < children.len() && !children[from].is_scheduled() {
        law_scheduled_position(children, from + 1);
    }
}

/// The point in time that attribute `key` of an element holds, where it
/// holds one.
pub open spec fn time_held(element: ElementView, key: Seq<char>) -> Option<Instant> {
    match element.attribute(key) {
        Some(text) => parsed_instant(text, TIME_LAYOUT@),
        None => None,
    }
}

/// Whether the arrival that `after` holds for the first scheduled entry of
/// `before` is read as the arrival of `before` moved by `seconds`, where that
/// arrival was on a whole second.
pub open spec fn entry_reads_back(before: ElementView, after: ElementView, seconds: int) -> bool {
    scheduled_position(before.children, 0) matches Some(at) ==> (time_held(
        before.children[at].element(),
        ARRIVAL@,
    ) matches Some(arrival) ==> (arrival.nanos == 0 ==> time_held(
        after.children[at].element(),
        ARRIVAL@,
    ) == arrival.plus(seconds)))
}

/// `entry_reads_back` for the trains of two documents.
pub open spec fn document_entry_reads_back(
    before: ElementView,
    after: ElementView,
    seconds: int,
) -> bool {
    child_position(before.children, TRAIN@, 0) matches Some(at) ==> entry_reads_back(
        before.children[at].element(),
        after.children[at].element(),
        seconds,
    )
}

/// Whether the departure that `after` holds is read as the departure of
/// `before` moved by the smaller of `scaled` and `max_wait`, where `before`
/// is a stop whose departure was on a whole second.
pub open spec fn stop_reads_back(
    before: NodeView,
    after: NodeView,
    scaled: int,
    max_wait: int,
) -> bool {
    dwell(before) matches Some(Ok((departure, _))) ==> (departure.nanos == 0 ==> time_held(
        after.element(),
        DEPARTURE@,
    ) == departure.plus(capped(scaled, max_wait)))
}

/// `stop_reads_back` for each child of a train.
pub open spec fn stops_read_back(
    before: Seq<NodeView>,
    after: Seq<NodeView>,
    scaled: Seq<i64>,
    max_wait: int,
) -> bool {
    forall|i: int|
        0 <= i < before.len() ==> stop_reads_back(
            #[trigger] before[i],
            after[i],
            scaled[i] as int,
            max_wait,
        )
}

/// `stops_read_back` for the trains of two documents.
pub open spec fn document_stops_read_back(
    before: ElementView,
    after: ElementView,
    scaled: Seq<i64>,
    max_wait: int,
) -> bool {
    child_position(before.children, TRAIN@, 0) matches Some(at) ==> stops_read_back(
        before.children[at].element().children,
        after.children[at].element().children,
        scaled,
        max_wait,
    )
}

/// The train with the arrival of its first scheduled entry moved by
/// `seconds`, or why that cannot be done.
pub open spec fn train_entry_delayed(train: ElementView, seconds: int) -> Result<
    ElementView,
    FailureView,
> {
    match scheduled_position(train.children, 0) {
        None => if child_position(train.children, ENTRY@, 0) is Some {
            Err(FailureView::root(CauseView::MissingAttribute(ARRIVAL@)))
        } else {
            Err(FailureView::root(CauseView::MissingEntry))
        },
        Some(at) => {
            let entry = train.children[at].element();
            let text = entry.attributes[ARRIVAL@];
            match parsed_instant(text, TIME_LAYOUT@) {
                None => Err(
                    FailureView::root(CauseView::InvalidTime(text)).within(Step::ParsingArrival),
                ),
                Some(arrival) => match arrival.plus(seconds) {
                    None => Err(FailureView::root(CauseView::Overflow)),
                    Some(moved) => Ok(
                        train.with_child(
                            at,
                            entry.with_attribute(ARRIVAL@, instant_text(moved, TIME_LAYOUT@)),
                        ),
                    ),
                },
            }
        },
    }
}

/// The document with the entry of its train delayed by `seconds`, or why
/// that cannot be done.
pub open spec fn entry_delayed(doc: ElementView, seconds: int) -> Result<ElementView, FailureView> {
    match child_position(doc.children, TRAIN@, 0) {
        None => Err(FailureView::root(CauseView::MissingTag(TRAIN@))),
        Some(at) => match train_entry_delayed(doc.children[at].element(), seconds) {
            Ok(train) => Ok(doc.with_child(at, train)),
            Err(failure) => Err(failure),
        },
    }
}

/// The smaller of a scaled wait and the longest wait allowed.
pub open spec fn capped(scaled: int, max_wait: int) -> int {
    if scaled <= max_wait {
        scaled
    } else {
        max_wait
    }
}

/// What a child of a train says of its stop: `None` where it is no timetable
/// entry or lacks an arrival or a departure; else the departure and the
/// seconds from arrival to departure, or why they cannot be read.
pub open spec fn dwell(node: NodeView) -> Option<Result<(Instant, i64), FailureView>> {
    if !node.is_named(ENTRY@) {
        None
    } else {
        match (node.element().attribute(ARRIVAL@), node.element().attribute(DEPARTURE@)) {
            (Some(arrival_text), Some(departure_text)) => Some(
                match parsed_instant(arrival_text, TIME_LAYOUT@) {
                    None => Err(
                        FailureView::root(CauseView::InvalidTime(arrival_text)).within(
                            Step::ParsingArrival,
                        ),
                    ),
                    Some(arrival) => match parsed_instant(departure_text, TIME_LAYOUT@) {
                        None => Err(
                            FailureView::root(CauseView::InvalidTime(departure_text)).within(
                                Step::ParsingDeparture,
                            ),
                        ),
                        Some(departure) => Ok((departure, elapsed_seconds(departure, arrival))),
                    },
                },
            ),
            _ => None,
        }
    }
}

/// A child of a train after its stop was extended, where `scaled` is the
/// scaled wait: its departure moves by the smaller of `scaled` and
/// `max_wait`; a child without a stop stays as it is.
pub open spec fn stop_extended(node: NodeView, scaled: int, max_wait: int) -> Result<
    NodeView,
    FailureView,
> {
    match dwell(node) {
        None => Ok(node),
        Some(Err(failure)) => Err(failure),
        Some(Ok((departure, wait))) => match departure.plus(capped(scaled, max_wait)) {
            None => Err(FailureView::root(CauseView::Overflow)),
            Some(moved) => Ok(
                NodeView::Element(
                    node.element().with_attribute(DEPARTURE@, instant_text(moved, TIME_LAYOUT@)),
                ),
            ),
        },
    }
}

/// The position of the first child from `from` on whose stop cannot be
/// extended.
pub open spec fn first_failure(
    children: Seq<NodeView>,
    scaled: Seq<i64>,
    max_wait: int,
    from: int,
) -> Option<int>
    decreases children.len() - from,
{
    if from < 0 || from >= children.len() {
        None
    } else if stop_extended(children[from], scaled[from] as int, max_wait) is Err {
        Some(from)
    } else {
        first_failure(children, scaled, max_wait, from + 1)
    }
}

/// The children of a train with every stop extended, or the failure of the
/// first stop that cannot be; `scaled` holds the scaled wait of each child.
pub open spec fn stops_extended(children: Seq<NodeView>, scaled: Seq<i64>, max_wait: int) -> Result<
    Seq<NodeView>,
    FailureView,
> {
    match first_failure(children, scaled, max_wait, 0) {
        Some(at) => match stop_extended(children[at], scaled[at] as int, max_wait) {
            Err(failure) => Err(failure),
            Ok(_) => Ok(children),
        },
        None => Ok(
            Seq::new(
                children.len(),
                |i: int|
                    match stop_extended(children[i], scaled[i] as int, max_wait) {
                        Ok(node) => node,
                        Err(_) => children[i],
                    },
            ),
        ),
    }
}

/// Whether `scaled` holds what `scale` answered: for each child whose stop
/// was read, up to the first failure, the value at its position is a result
/// of `scale` on the seconds from arrival to departure.
pub open spec fn train_answers<F: Fn(i64) -> i64>(
    scale: F,
    children: Seq<NodeView>,
    scaled: Seq<i64>,
    max_wait: int,
) -> bool {
    &&& scaled.len() == children.len()
    &&& forall|i: int|
        0 <= i < children.len() && (first_failure(children, scaled, max_wait, 0) matches Some(at)
            ==> i <= at) ==> (#[trigger] dwell(children[i]) matches Some(Ok((_, wait)))
            ==> call_ensures(scale, (wait,), scaled[i]))
}

/// The train with every stop extended, or the failure of the first stop
/// that cannot be.
pub open spec fn train_departures_delayed(
    train: ElementView,
    scaled: Seq<i64>,
    max_wait: int,
) -> Result<ElementView, FailureView> {
    match stops_extended(train.children, scaled, max_wait) {
        Ok(children) => Ok(ElementView { children, ..train }),
        Err(failure) => Err(failure),
    }
}

/// The document with every stop of its train extended, or why that cannot
/// be done.
pub open spec fn departures_delayed(doc: ElementView, scaled: Seq<i64>, max_wait: int) -> Result<
    ElementView,
    FailureView,
> {
    match child_position(doc.children, TRAIN@, 0) {
        None => Err(FailureView::root(CauseView::MissingTag(TRAIN@))),
        Some(at) => match train_departures_delayed(
            doc.children[at].element(),
            scaled,
            max_wait,
        ) {
            Ok(train) => Ok(doc.with_child(at, train)),
            Err(failure) => Err(failure),
        },
    }
}

/// Whether `scaled` holds what `scale` answered for the stops of the train
/// of `doc`.
pub open spec fn answers<F: Fn(i64) -> i64>(
    scale: F,
    doc: ElementView,
    scaled: Seq<i64>,
    max_wait: int,
) -> bool {
    child_position(doc.children, TRAIN@, 0) matches Some(at) ==> train_answers(
        scale,
        doc.children[at].element().children,
        scaled,
        max_wait,
    )
}

/// `first_failure` returns the least position whose stop cannot be extended,
/// and `None` only where there is none.
pub proof fn lemma_first_failure(
    children: Seq<NodeView>,
    scaled: Seq<i64>,
    max_wait: int,
    from: int,
)
    requires
        0 <= from,
    ensures
        match first_failure(children, scaled, max_wait, from) {
            Some(at) => from <= at < children.len() && stop_extended(
                children[at],
                scaled[at] as int,
                max_wait,
            ) is Err && forall|j: int|
                from <= j < at ==> (#[trigger] stop_extended(
                    children[j],
                    scaled[j] as int,
                    max_wait,
                )) is Ok,
            None => forall|j: int|
                from <= j < children.len() ==> (#[trigger] stop_extended(
                    children[j],
                    scaled[j] as int,
                    max_wait,
                )) is Ok,
        },
    decreases children.len() - from,
{
    if from < children.len() && stop_extended(children[from], scaled[from] as int, max_wait) is Ok {
        lemma_first_failure(children, scaled, max_wait, from + 1);
    }
}

/// A child that is no timetable entry, or an entry without arrival or
/// without departure, stays as it is. A stop that was read and extended has
/// its departure written anew, and nothing else changed: the departure that
/// is written is the one read, moved by the smaller of the scaled wait and
/// the longest wait; from a departure on a whole second it lies exactly that
/// many seconds away.
pub proof fn law_stop_extended(node: NodeView, scaled: int, max_wait: int)
    ensures
        !node.is_named(ENTRY@) || node.element().attribute(ARRIVAL@) is None
            || node.element().attribute(DEPARTURE@) is None ==> stop_extended(
            node,
            scaled,
            max_wait,
        ) == Ok::<NodeView, FailureView>(node),
        stop_extended(node, scaled, max_wait) matches Ok(after) ==> (dwell(node) matches Some(
            Ok((departure, _)),
        ) ==> departure.plus(capped(scaled, max_wait)) matches Some(moved) && after
            == NodeView::Element(
            node.element().with_attribute(DEPARTURE@, instant_text(moved, TIME_LAYOUT@)),
        ) && (departure.nanos == 0 ==> moved.nanos == 0 && moved.secs - departure.secs == capped(
            scaled,
            max_wait,
        ))),
        capped(scaled, max_wait) <= scaled,
        capped(scaled, max_wait) <= max_wait,
        capped(scaled, max_wait) == scaled || capped(scaled, max_wait) == max_wait,
{
}

/// Where every stop can be extended, each child of the train is extended on
/// its own, in its place.
pub proof fn law_stops_extended(children: Seq<NodeView>, scaled: Seq<i64>, max_wait: int)
    ensures
        stops_extended(children, scaled, max_wait) matches Ok(after) ==> after.len()
            == children.len() && forall|i: int|
            0 <= i < children.len() ==> stop_extended(children[i], scaled[i] as int, max_wait)
                == Ok::<NodeView, FailureView>(#[trigger] after[i]),
        stops_extended(children, scaled, max_wait) matches Err(failure) ==> exists|i: int|
            0 <= i < children.len() && #[trigger] stop_extended(
                children[i],
                scaled[i] as int,
                max_wait,
            ) == Err::<NodeView, FailureView>(failure),
{
    lemma_first_failure(children, scaled, max_wait, 0);
}

/// Whether an edit ended as `expected` says: with the document it names, or
/// with the failure it names and the document as it was.
pub open spec fn ends_as(
    result: Result<(), Failure>,
    before: ElementView,
    after: ElementView,
    expected: Result<ElementView, FailureView>,
) -> bool {
    match expected {
        Ok(doc) => result is Ok && after == doc,
        Err(failure) => result matches Err(f) && f@ == failure && after == before,
    }
}

/// The position of the first child from `from` on that is a timetable entry
/// with an arrival time.
fn scheduled_index(train: &Element, from: usize) -> (found: Option<usize>)
    ensures
        match found {
            Some(at) => scheduled_position(train@.children, from as int) == Some(at as int) && at
                < train.children@.len() && train.children@[at as int] is Element
                && train@.children[at as int].is_scheduled(),
            None => scheduled_position(train@.children, from as int).is_none(),
        },
{
    let entry = String::from_str(ENTRY);
    let mut i: usize = from;
    while i < train.children.len()
        invariant
            from <= i,
            entry@ == ENTRY@,
            scheduled_position(train@.children, from as int) == scheduled_position(
                train@.children,
                i as int,
            ),
        decreases train.children.len() - i,
    {
        assert(train@.children[i as int] == train.children@[i as int]@);
        match &train.children[i] {
            Node::Element(e) => {
                if e.name == entry && e.attribute(ARRIVAL).is_some() {
                    return Some(i);
                }
            },
            _ => {},
        }
        i += 1;
    }
    None
}

/// Sets attribute `key` of child `at` of `parent` to `value`.
fn set_child_attribute(parent: &mut Element, at: usize, key: &str, value: String)
    requires
        at < old(parent)@.children.len(),
        old(parent)@.children[at as int] is Element,
    ensures
        final(parent)@ == old(parent)@.with_child(
            at as int,
            old(parent)@.children[at as int].element().with_attribute(key@, value@),
        ),
        old(parent).well_formed() ==> final(parent).well_formed(),
{
    assert(parent@.children[at as int] == parent.children@[at as int]@);
    match &mut parent.children[at] {
        Node::Element(e) => {
            e.set_attribute(key, value);
        },
        _ => unreached(),
    }
    assert(parent@.children =~= old(parent)@.children.update(
        at as int,
        NodeView::Element(
            old(parent)@.children[at as int].element().with_attribute(key@, value@),
        ),
    ));
}

/// The value of attribute `key` of child `at` of `parent`.
fn child_attribute(parent: &Element, at: usize, key: &str) -> (value: Option<String>)
    requires
        at < parent@.children.len(),
        parent@.children[at as int] is Element,
    ensures
        match value {
            Some(v) => parent@.children[at as int].element().attribute(key@) == Some(v@),
            None => parent@.children[at as int].element().attribute(key@).is_none(),
        },
{
    assert(parent@.children[at as int] == parent.children@[at as int]@);
    match &parent.children[at] {
        Node::Element(e) => match e.attribute(key) {
            Some(v) => Some(v.clone()),
            None => None,
        },
        _ => unreached(),
    }
}

/// Delays the entry of `train`: moves the arrival of its first timetable
/// entry that has one by `seconds`.
pub fn delay_train_entry(train: &mut Element, seconds: u32) -> (result: Result<(), Failure>)
    ensures
        ends_as(result, old(train)@, final(train)@, train_entry_delayed(old(train)@, seconds as int)),
        result is Ok ==> entry_reads_back(old(train)@, final(train)@, seconds as int),
        old(train).well_formed() ==> final(train).well_formed(),
{
    let at = match scheduled_index(train, 0) {
        Some(at) => at,
        None => {
            if train.child_index(ENTRY).is_some() {
                return Err(Failure::root(Cause::MissingAttribute(String::from_str(ARRIVAL))));
            }
            return Err(Failure::root(Cause::MissingEntry));
        },
    };
    let text = match child_attribute(train, at, ARRIVAL) {
        Some(text) => text,
        None => unreached(),
    };
    let arrival = match parse_time(text.as_str()) {
        Some(arrival) => arrival,
        None => {
            return Err(Failure::root(Cause::InvalidTime(text)).within(Step::ParsingArrival));
        },
    };
    let moved = match arrival.shifted(seconds as i64) {
        Some(moved) => moved,
        None => {
            return Err(Failure::root(Cause::Overflow));
        },
    };
    set_child_attribute(train, at, ARRIVAL, moved.to_text());
    Ok(())
}

/// Delays the entry of the train of `tree` by `seconds`: the arrival of the
/// first timetable entry that has one moves that much later. An arrival on a
/// whole second is written so that it reads back as the moved arrival. On a
/// failure the document stays as it was.
pub fn delay_entry(tree: &mut Element, seconds: u32) -> (result: Result<(), Failure>)
    ensures
        ends_as(result, old(tree)@, final(tree)@, entry_delayed(old(tree)@, seconds as int)),
        result is Ok ==> document_entry_reads_back(old(tree)@, final(tree)@, seconds as int),
        old(tree).well_formed() ==> final(tree).well_formed(),
{
    let at = match tree.child_index(TRAIN) {
        Some(at) => at,
        None => {
            return Err(Failure::root(Cause::MissingTag(String::from_str(TRAIN))));
        },
    };
    assert(tree@.children[at as int] == tree.children@[at as int]@);
    let result = match &mut tree.children[at] {
        Node::Element(train) => delay_train_entry(train, seconds),
        _ => unreached(),
    };
    assert(tree@.children[at as int] == tree.children@[at as int]@);
    assert(tree@.children =~= old(tree)@.children.update(at as int, tree@.children[at as int]));
    if result.is_err() {
        assert(tree@.children =~= old(tree)@.children);
    }
    result
}

/// The departure text that child `at` of `train` gets where its stop is
/// extended, `None` where it has no stop; with it, what `scale` answered.
fn extended_departure<F: Fn(i64) -> i64>(
    train: &Element,
    at: usize,
    scale: &F,
    max_wait: i64,
) -> (result: (Result<Option<String>, Failure>, Ghost<i64>))
    requires
        at < train@.children.len(),
        forall|wait: i64| call_requires(*scale, (wait,)),
    ensures
        dwell(train@.children[at as int]) matches Some(Ok((_, wait))) ==> call_ensures(
            *scale,
            (wait,),
            result.1@,
        ),
        match result.0 {
            Ok(None) => dwell(train@.children[at as int]) is None,
            Ok(Some(text)) => dwell(train@.children[at as int]) is Some && stop_extended(
                train@.children[at as int],
                result.1@ as int,
                max_wait as int,
            ) == Ok::<NodeView, FailureView>(
                NodeView::Element(
                    train@.children[at as int].element().with_attribute(DEPARTURE@, text@),
                ),
            ) && stop_reads_back(
                train@.children[at as int],
                NodeView::Element(
                    train@.children[at as int].element().with_attribute(DEPARTURE@, text@),
                ),
                result.1@ as int,
                max_wait as int,
            ),
            Err(failure) => stop_extended(
                train@.children[at as int],
                result.1@ as int,
                max_wait as int,
            ) == Err::<NodeView, FailureView>(failure@),
        },
{
    assert(train@.children[at as int] == train.children@[at as int]@);
    let entry = match &train.children[at] {
        Node::Element(e) => e,
        _ => {
            return (Ok(None), Ghost(0));
        },
    };
    if entry.name != String::from_str(ENTRY) {
        return (Ok(None), Ghost(0));
    }
    let arrival_text = match entry.attribute(ARRIVAL) {
        Some(text) => text.clone(),
        None => {
            return (Ok(None), Ghost(0));
        },
    };
    let departure_text = match entry.attribute(DEPARTURE) {
        Some(text) => text.clone(),
        None => {
            return (Ok(None), Ghost(0));
        },
    };
    let arrival = match parse_time(arrival_text.as_str()) {
        Some(arrival) => arrival,
        None => {
            return (
                Err(Failure::root(Cause::InvalidTime(arrival_text)).within(Step::ParsingArrival)),
                Ghost(0),
            );
        },
    };
    let departure = match parse_time(departure_text.as_str()) {
        Some(departure) => departure,
        None => {
            return (
                Err(
                    Failure::root(Cause::InvalidTime(departure_text)).within(
                        Step::ParsingDeparture,
                    ),
                ),
                Ghost(0),
            );
        },
    };
    let wait = departure.seconds_since(&arrival);
    let scaled = scale(wait);
    let step = if scaled <= max_wait {
        scaled
    } else {
        max_wait
    };
    match departure.shifted(step) {
        Some(moved) => (Ok(Some(moved.to_text())), Ghost(scaled)),
        None => (Err(Failure::root(Cause::Overflow)), Ghost(scaled)),
    }
}

/// Extends every stop of `train`: where a timetable entry has an arrival
/// and a departure, the departure moves by the smaller of `max_wait` and what
/// `scale` answers for the seconds between the two. Entries without either
/// stay as they are. On a failure the train stays as it was.
pub fn delay_train_departures<F: Fn(i64) -> i64>(
    train: &mut Element,
    scale: &F,
    max_wait: i64,
) -> (result: Result<(), Failure>)
    requires
        forall|wait: i64| call_requires(*scale, (wait,)),
    ensures
        exists|scaled: Seq<i64>|
            train_answers(*scale, old(train)@.children, scaled, max_wait as int) && ends_as(
                result,
                old(train)@,
                final(train)@,
                #[trigger] train_departures_delayed(old(train)@, scaled, max_wait as int),
            ) && (result is Ok ==> stops_read_back(
                old(train)@.children,
                final(train)@.children,
                scaled,
                max_wait as int,
            )),
        old(train).well_formed() ==> final(train).well_formed(),
{
    let ghost before = train@.children;
    let count = train.children.len();
    let mut texts: Vec<Option<String>> = Vec::new();
    let ghost mut scaled: Seq<i64> = Seq::empty();
    let mut i: usize = 0;
    while i < count
        invariant
            i <= count,
            count == before.len(),
            *train == *old(train),
            before == old(train)@.children,
            texts@.len() == i,
            scaled.len() == i,
            forall|wait: i64| call_requires(*scale, (wait,)),
            forall|j: int|
                0 <= j < i ==> (#[trigger] dwell(before[j]) matches Some(Ok((_, wait)))
                    ==> call_ensures(*scale, (wait,), scaled[j])),
            forall|j: int|
                0 <= j < i ==> (#[trigger] stop_extended(
                    before[j],
                    scaled[j] as int,
                    max_wait as int,
                )) == Ok::<NodeView, FailureView>(
                    match texts@[j] {
                        Some(text) => NodeView::Element(
                            before[j].element().with_attribute(DEPARTURE@, text@),
                        ),
                        None => before[j],
                    },
                ),
            forall|j: int| 0 <= j < i ==> (texts@[j] is Some ==> #[trigger] before[j] is Element),
            forall|j: int|
                0 <= j < i ==> stop_reads_back(
                    #[trigger] before[j],
                    match texts@[j] {
                        Some(text) => NodeView::Element(
                            before[j].element().with_attribute(DEPARTURE@, text@),
                        ),
                        None => before[j],
                    },
                    scaled[j] as int,
                    max_wait as int,
                ),
        decreases count - i,
    {
        let (outcome, answer) = extended_departure(train, i, scale, max_wait);
        match outcome {
            Ok(text) => {
                proof {
                    scaled = scaled.push(answer@);
                }
                texts.push(text);
            },
            Err(failure) => {
                proof {
                    let all = Seq::new(
                        before.len(),
                        |j: int|
                            if j < i {
                                scaled[j]
                            } else {
                                answer@
                            },
                    );
                    lemma_first_failure(before, all, max_wait as int, 0);
                    assert(stop_extended(before[i as int], all[i as int] as int, max_wait as int)
                        is Err);
                    assert forall|j: int| 0 <= j < i implies (#[trigger] stop_extended(
                        before[j],
                        all[j] as int,
                        max_wait as int,
                    )) is Ok by {
                        assert(all[j] == scaled[j]);
                    }
                    assert(first_failure(before, all, max_wait as int, 0) == Some(i as int));
                    assert(train_answers(*scale, before, all, max_wait as int));
                    assert(ends_as(
                        Err::<(), Failure>(failure),
                        old(train)@,
                        train@,
                        train_departures_delayed(old(train)@, all, max_wait as int),
                    ));
                }
                return Err(failure);
            },
        }
        i += 1;
    }
    proof {
        lemma_first_failure(before, scaled, max_wait as int, 0);
        assert(first_failure(before, scaled, max_wait as int, 0).is_none());
    }
    let ghost target = stops_extended(before, scaled, max_wait as int)->Ok_0;
    let mut k: usize = 0;
    while k < count
        invariant
            k <= count,
            count == before.len(),
            texts@.len() == count,
            scaled.len() == count,
            before == old(train)@.children,
            first_failure(before, scaled, max_wait as int, 0).is_none(),
            target == stops_extended(before, scaled, max_wait as int)->Ok_0,
            train@.name == old(train)@.name,
            train@.attributes == old(train)@.attributes,
            train@.children.len() == count,
            old(train).well_formed() ==> train.well_formed(),
            forall|j: int| 0 <= j < k ==> train@.children[j] == target[j],
            forall|j: int| k <= j < count ==> train@.children[j] == before[j],
            forall|j: int|
                0 <= j < count ==> (#[trigger] stop_extended(
                    before[j],
                    scaled[j] as int,
                    max_wait as int,
                )) == Ok::<NodeView, FailureView>(
                    match texts@[j] {
                        Some(text) => NodeView::Element(
                            before[j].element().with_attribute(DEPARTURE@, text@),
                        ),
                        None => before[j],
                    },
                ),
            forall|j: int|
                0 <= j < count ==> (texts@[j] is Some ==> #[trigger] before[j] is Element),
            forall|j: int|
                0 <= j < count ==> stop_reads_back(
                    #[trigger] before[j],
                    match texts@[j] {
                        Some(text) => NodeView::Element(
                            before[j].element().with_attribute(DEPARTURE@, text@),
                        ),
                        None => before[j],
                    },
                    scaled[j] as int,
                    max_wait as int,
                ),
        decreases count - k,
    {
        assert(stop_extended(before[k as int], scaled[k as int] as int, max_wait as int) is Ok);
        match &texts[k] {
            Some(text) => {
                let ghost earlier = train@;
                set_child_attribute(train, k, DEPARTURE, text.clone());
                assert(train@.children[k as int] == target[k as int]);
                assert forall|j: int| 0 <= j < k implies train@.children[j] == target[j] by {
                    assert(train@.children[j] == earlier.children[j]);
                }
            },
            None => {},
        }
        k += 1;
    }
    proof {
        assert(train@.children =~= target);
        assert(train_answers(*scale, before, scaled, max_wait as int));
        assert(ends_as(
            Ok::<(), Failure>(()),
            old(train)@,
            train@,
            train_departures_delayed(old(train)@, scaled, max_wait as int),
        ));
        assert forall|j: int| 0 <= j < before.len() implies stop_reads_back(
            #[trigger] before[j],
            train@.children[j],
            scaled[j] as int,
            max_wait as int,
        ) by {
            assert(stop_extended(before[j], scaled[j] as int, max_wait as int) is Ok);
            assert(train@.children[j] == target[j]);
        }
    }
    Ok(())
}

/// Extends every stop of the train of `tree`: where a timetable entry has an
/// arrival and a departure, the departure moves by the smaller of `max_wait`
/// and what `scale` answers for the seconds between the two. A departure on
/// a whole second is written so that it reads back as the moved departure.
/// Entries without either time stay as they are. On a failure the document
/// stays as it was.
pub fn delay_departures<F: Fn(i64) -> i64>(tree: &mut Element, scale: F, max_wait: i64) -> (result:
    Result<(), Failure>)
    requires
        forall|wait: i64| call_requires(scale, (wait,)),
    ensures
        exists|scaled: Seq<i64>|
            answers(scale, old(tree)@, scaled, max_wait as int) && ends_as(
                result,
                old(tree)@,
                final(tree)@,
                #[trigger] departures_delayed(old(tree)@, scaled, max_wait as int),
            ) && (result is Ok ==> document_stops_read_back(
                old(tree)@,
                final(tree)@,
                scaled,
                max_wait as int,
            )),
        old(tree).well_formed() ==> final(tree).well_formed(),
{
    let at = match tree.child_index(TRAIN) {
        Some(at) => at,
        None => {
            let failure = Failure::root(Cause::MissingTag(String::from_str(TRAIN)));
            proof {
                let none = Seq::<i64>::empty();
                assert(answers(scale, old(tree)@, none, max_wait as int));
                assert(ends_as(
                    Err::<(), Failure>(failure),
                    old(tree)@,
                    tree@,
                    departures_delayed(old(tree)@, none, max_wait as int),
                ));
            }
            return Err(failure);
        },
    };
    assert(tree@.children[at as int] == tree.children@[at as int]@);
    let ghost train_before = tree@.children[at as int].element();
    let result = match &mut tree.children[at] {
        Node::Element(train) => delay_train_departures(train, &scale, max_wait),
        _ => unreached(),
    };
    assert(tree@.children[at as int] == tree.children@[at as int]@);
    assert(tree@.children =~= old(tree)@.children.update(at as int, tree@.children[at as int]));
    if result.is_err() {
        assert(tree@.children =~= old(tree)@.children);
    }
    proof {
        let train_after = tree@.children[at as int].element();
        let scaled = choose|scaled: Seq<i64>|
            train_answers(scale, train_before.children, scaled, max_wait as int) && ends_as(
                result,
                train_before,
                train_after,
                #[trigger] train_departures_delayed(train_before, scaled, max_wait as int),
            ) && (result is Ok ==> stops_read_back(
                train_before.children,
                train_after.children,
                scaled,
                max_wait as int,
            ));
        assert(answers(scale, old(tree)@, scaled, max_wait as int));
        assert(ends_as(
            result,
            old(tree)@,
            tree@,
            departures_delayed(old(tree)@, scaled, max_wait as int),
        ));
    }
    result
}

} // verus!
