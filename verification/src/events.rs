//! The stream of changes that a node applies.
use vstd::prelude::*;

use crate::conf_change::conf_change_json;
use crate::json::json_parsed;
use crate::kv::{command_decoded, command_json, lemma_command_json, Command, CommandView, TextMap};
use crate::message::{ConfChangeView, EntryType, LogEntry, LogEntryView};

verus! {

/// A change applied to the replicated store on this node, delivered in apply order.
#[derive(Debug, PartialEq, Eq)]
pub enum Event {
    Put { key: String, value: String },
    Delete { key: String },
    /// The entire store was replaced by a snapshot from the leader (this node was lagging too far
    /// to catch up entry by entry). Subscribers must re-read any state derived from the store.
    SnapshotApplied,
}

pub ghost enum EventView {
    Put { key: Seq<char>, value: Seq<char> },
    Delete { key: Seq<char> },
    SnapshotApplied,
}

impl View for Event {
    type V = EventView;

    open spec fn view(&self) -> EventView {
        match *self {
            Event::Put { key, value } => EventView::Put { key: key@, value: value@ },
            Event::Delete { key } => EventView::Delete { key: key@ },
            Event::SnapshotApplied => EventView::SnapshotApplied,
        }
    }
}

impl Clone for Event {
    fn clone(&self) -> (copy: Self)
        ensures
            copy@ == self@,
    {
        match self {
            Event::Put { key, value } => Event::Put { key: key.clone(), value: value.clone() },
            Event::Delete { key } => Event::Delete { key: key.clone() },
            Event::SnapshotApplied => Event::SnapshotApplied,
        }
    }
}

/// The event for an applied entry. No-ops and membership changes are not writes to the store.
pub open spec fn event_of(entry: LogEntryView) -> Option<EventView> {
    if entry.entry_type != EntryType::Normal || entry.command.len() == 0 {
        None
    } else {
        match command_decoded(entry.command) {
            Some(CommandView::Put { key, value }) => Some(EventView::Put { key, value }),
            Some(CommandView::Delete { key }) => Some(EventView::Delete { key }),
            None => None,
        }
    }
}

/// The events for a run of applied entries: a function of the entries alone, so that every node
/// that applies the same log delivers the same sequence.
pub open spec fn events_of(entries: Seq<LogEntryView>) -> Seq<EventView> {
    entries.filter_map(|e: LogEntryView| event_of(e))
}

pub open spec fn event_views(events: Seq<Event>) -> Seq<EventView> {
    events.map_values(|e: Event| e@)
}

impl Event {
    pub fn of(entry: &LogEntry) -> (event: Option<Event>)
        ensures
            event is Some <==> event_of(entry@) is Some,
            event matches Some(e) ==> event_of(entry@) == Some(e@),
    {
        match entry.entry_type {
            EntryType::ConfChange => return None,
            EntryType::Normal => {},
        }
        if entry.command.len() == 0 {
            return None;
        }
        match Command::decode(entry.command.as_slice()) {
            Ok(Command::Put { key, value }) => Some(Event::Put { key, value }),
            Ok(Command::Delete { key }) => Some(Event::Delete { key }),
            Err(_) => None,
        }
    }
}

/// Delivering the events of two runs of entries one after the other is delivering the events of
/// both together: how the log is cut into steps does not show in the stream.
pub proof fn law_events_do_not_depend_on_batches(first: Seq<LogEntryView>, second: Seq<LogEntryView>)
    ensures
        events_of(first + second) == events_of(first) + events_of(second),
    decreases second.len(),
{
    if second.len() == 0 {
        assert(first + second =~= first);
        assert(events_of(first) + events_of(second) =~= events_of(first));
    } else {
        law_events_do_not_depend_on_batches(first, second.drop_last());
        assert((first + second).drop_last() =~= first + second.drop_last());
        assert(events_of(first + second) =~= events_of(first) + events_of(second));
    }
}

/// A node that goes on to apply a history delivers the events of that history, neither more nor
/// less: what was delivered before and what comes now are together what the history calls for.
pub proof fn law_events_follow_history(history: Seq<LogEntryView>, from: int, upto: int)
    requires
        0 <= from <= upto <= history.len(),
    ensures
        events_of(history.take(from)) + events_of(history.subrange(from, upto)) == events_of(
            history.take(upto),
        ),
{
    law_events_do_not_depend_on_batches(history.take(from), history.subrange(from, upto));
    assert(history.take(from) + history.subrange(from, upto) =~= history.take(upto));
}

/// Every command that stands in a log entry becomes one event, with its own key and value, however
/// long it is.
pub proof fn law_command_becomes_an_event(entry: LogEntryView, command: CommandView)
    requires
        entry.entry_type == EntryType::Normal,
        entry.command.len() > 0,
        json_parsed(entry.command) == Some(command_json(command)),
    ensures
        command matches CommandView::Put { key, value } ==> events_of(seq![entry]) == seq![
            EventView::Put { key, value },
        ],
        command matches CommandView::Delete { key } ==> events_of(seq![entry]) == seq![
            EventView::Delete { key },
        ],
        event_of(entry) == Some(events_of(seq![entry])[0]),
{
    lemma_command_json(command);
    lemma_events_of_one(entry);
}

proof fn lemma_events_of_one(entry: LogEntryView)
    ensures
        events_of(seq![entry]) == match event_of(entry) {
            Some(event) => seq![event],
            None => Seq::empty(),
        },
{
    let one = seq![entry];
    assert(one.drop_last() =~= Seq::empty());
    assert(one.last() == entry);
    reveal_with_fuel(Seq::filter_map, 2);
    assert(events_of(one) =~= match event_of(entry) {
        Some(event) => seq![event],
        None => Seq::empty(),
    });
}

/// Membership changes, the empty entries of new leaders and bytes that are no JSON become no
/// event, and no entry stands for a replaced store.
pub proof fn law_nothing_else_becomes_an_event(entry: LogEntryView)
    ensures
        entry.entry_type == EntryType::ConfChange ==> events_of(seq![entry]).len() == 0,
        entry.command.len() == 0 ==> events_of(seq![entry]).len() == 0,
        json_parsed(entry.command) is None ==> events_of(seq![entry]).len() == 0,
        event_of(entry) != Some(EventView::SnapshotApplied),
{
    lemma_events_of_one(entry);
}

/// What a subscriber makes of an event that reports a write.
pub open spec fn event_followed(store: TextMap, event: EventView) -> TextMap {
    match event {
        EventView::Put { key, value } => store.insert(key, value),
        EventView::Delete { key } => store.remove(key),
        EventView::SnapshotApplied => store,
    }
}

/// What a subscriber makes of a run of events.
pub open spec fn events_followed(store: TextMap, events: Seq<EventView>) -> TextMap
    decreases events.len(),
{
    if events.len() == 0 {
        store
    } else {
        event_followed(events_followed(store, events.drop_last()), events.last())
    }
}

/// A membership change is no command to the store.
pub proof fn law_membership_change_is_no_command(command: Seq<u8>, cmd: ConfChangeView)
    requires
        json_parsed(command) == Some(conf_change_json(cmd)),
    ensures
        command_decoded(command) is None,
{
    assert(conf_change_json(cmd)->Object_0.len() >= 2);
}

} // verus!
