//! Contribution events.

use crate::names;
use crate::order;
use crate::text;
use crate::text::{same_text, text_less};
use vstd::prelude::*;

verus! {

/// One contribution.
#[derive(Debug, PartialEq, Eq)]
pub struct Event {
    pub id: String,
    pub event_type: String,
    pub repo: String,
    pub title: String,
    pub url: String,
    pub occurred_at: String,
    pub thread_id: String,
    pub thread_title: String,
    pub thread_url: String,
    pub status: String,
}

/// The mathematical value of an event.
#[verifier::ext_equal]
pub struct EventModel {
    pub id: Seq<char>,
    pub event_type: Seq<char>,
    pub repo: Seq<char>,
    pub title: Seq<char>,
    pub url: Seq<char>,
    pub occurred_at: Seq<char>,
    pub thread_id: Seq<char>,
    pub thread_title: Seq<char>,
    pub thread_url: Seq<char>,
    pub status: Seq<char>,
}

impl View for Event {
    type V = EventModel;

    open spec fn view(&self) -> EventModel {
        EventModel {
            id: self.id@,
            event_type: self.event_type@,
            repo: self.repo@,
            title: self.title@,
            url: self.url@,
            occurred_at: self.occurred_at@,
            thread_id: self.thread_id@,
            thread_title: self.thread_title@,
            thread_url: self.thread_url@,
            status: self.status@,
        }
    }
}

impl Clone for Event {
    fn clone(&self) -> (copy: Event)
        ensures
            copy@ == self@,
    {
        Event {
            id: self.id.clone(),
            event_type: self.event_type.clone(),
            repo: self.repo.clone(),
            title: self.title.clone(),
            url: self.url.clone(),
            occurred_at: self.occurred_at.clone(),
            thread_id: self.thread_id.clone(),
            thread_title: self.thread_title.clone(),
            thread_url: self.thread_url.clone(),
            status: self.status.clone(),
        }
    }
}

/// The values of a sequence of events.
pub open spec fn models(events: Seq<Event>) -> Seq<EventModel> {
    events.map_values(|e: Event| e@)
}

// ---------------------------------------------------------------------------
// Merging
// ---------------------------------------------------------------------------

/// The events by their id; of equal ids the last one counts.
pub open spec fn by_id(events: Seq<EventModel>) -> Map<Seq<char>, EventModel>
    decreases events.len(),
{
    if events.len() == 0 {
        Map::empty()
    } else {
        by_id(events.drop_last()).insert(events.last().id, events.last())
    }
}

/// Whether the events are in ascending order of their ids, so that no id occurs twice.
pub open spec fn ids_ascending(events: Seq<EventModel>) -> bool {
    forall|i: int, j: int|
        0 <= i < j < events.len() ==> text::text_lt(
            (#[trigger] events[i]).id,
            (#[trigger] events[j]).id,
        )
}

/// Where an event of an id goes in a list: behind all with lower ids.
pub open spec fn id_place(list: Seq<EventModel>, id: Seq<char>) -> nat
    decreases list.len(),
{
    if list.len() == 0 || !text::text_lt(list[0].id, id) {
        0
    } else {
        1 + id_place(list.skip(1), id)
    }
}

/// The list with an event at its place, or in place of the one with its id.
pub open spec fn with_event(list: Seq<EventModel>, e: EventModel) -> Seq<EventModel> {
    let k = id_place(list, e.id) as int;
    if k < list.len() && list[k].id == e.id {
        list.update(k, e)
    } else {
        list.insert(k, e)
    }
}

/// The events by ascending ids; of equal ids the last event counts.
pub open spec fn merged(events: Seq<EventModel>) -> Seq<EventModel>
    decreases events.len(),
{
    if events.len() == 0 {
        seq![]
    } else {
        with_event(merged(events.drop_last()), events.last())
    }
}

/// An index that parts a list by ids is the place.
proof fn lemma_id_place(list: Seq<EventModel>, id: Seq<char>, k: int)
    requires
        0 <= k <= list.len(),
        forall|i: int| 0 <= i < k ==> text::text_lt((#[trigger] list[i]).id, id),
        k < list.len() ==> !text::text_lt(list[k].id, id),
    ensures
        id_place(list, id) == k,
    decreases list.len(),
{
    if k > 0 {
        let rest = list.skip(1);
        assert(text::text_lt(list[0].id, id));
        assert forall|i: int| 0 <= i < k - 1 implies text::text_lt((#[trigger] rest[i]).id, id) by {
            assert(text::text_lt(list[i + 1].id, id));
        }
        lemma_id_place(rest, id, k - 1);
    }
}

/// The place parts a list by ids.
proof fn lemma_id_place_parts(list: Seq<EventModel>, id: Seq<char>)
    ensures
        id_place(list, id) <= list.len(),
        forall|i: int|
            0 <= i < id_place(list, id) ==> text::text_lt((#[trigger] list[i]).id, id),
        id_place(list, id) < list.len() ==> !text::text_lt(
            list[id_place(list, id) as int].id,
            id,
        ),
    decreases list.len(),
{
    if list.len() > 0 && text::text_lt(list[0].id, id) {
        let rest = list.skip(1);
        lemma_id_place_parts(rest, id);
        assert forall|i: int| 0 <= i < id_place(list, id) implies text::text_lt(
            (#[trigger] list[i]).id,
            id,
        ) by {
            if i > 0 {
                assert(text::text_lt(rest[i - 1].id, id));
            }
        }
    }
}

/// The ids that occur lead to events with those ids.
proof fn lemma_by_id_sound(events: Seq<EventModel>, id: Seq<char>)
    ensures
        by_id(events).dom().contains(id) <==> exists|i: int|
            0 <= i < events.len() && (#[trigger] events[i]).id == id,
        by_id(events).dom().contains(id) ==> by_id(events)[id].id == id,
    decreases events.len(),
{
    if events.len() > 0 {
        let front = events.drop_last();
        lemma_by_id_sound(front, id);
        if by_id(front).dom().contains(id) {
            let i = choose|i: int| 0 <= i < front.len() && (#[trigger] front[i]).id == id;
            assert(events[i].id == id);
        }
        if events.last().id == id {
            assert(events[events.len() - 1].id == id);
        }
        if exists|i: int| 0 <= i < events.len() && (#[trigger] events[i]).id == id {
            let i = choose|i: int| 0 <= i < events.len() && (#[trigger] events[i]).id == id;
            if i < events.len() - 1 {
                assert(front[i].id == id);
            }
        }
    }
}

/// Where every id occurs once, it leads to its event.
proof fn lemma_by_id_at(events: Seq<EventModel>, i: int)
    requires
        ids_ascending(events),
        0 <= i < events.len(),
    ensures
        by_id(events).dom().contains(events[i].id),
        by_id(events)[events[i].id] == events[i],
    decreases events.len(),
{
    if i < events.len() - 1 {
        let front = events.drop_last();
        assert(ids_ascending(front)) by {
            assert forall|p: int, q: int| 0 <= p < q < front.len() implies text::text_lt(
                (#[trigger] front[p]).id,
                (#[trigger] front[q]).id,
            ) by {
                assert(text::text_lt(events[p].id, events[q].id));
            }
        }
        lemma_by_id_at(front, i);
        text::lemma_text_lt_asymmetric(events[i].id, events[events.len() - 1].id);
        assert(front[i] == events[i]);
    }
}

/// Where every id occurs once, the events that ids lead to are those of the list.
pub proof fn lemma_by_id_holds(events: Seq<EventModel>, e: EventModel)
    requires
        ids_ascending(events),
    ensures
        events.contains(e) <==> by_id(events).dom().contains(e.id) && by_id(events)[e.id] == e,
{
    lemma_by_id_sound(events, e.id);
    if events.contains(e) {
        let i = choose|i: int| 0 <= i < events.len() && events[i] == e;
        lemma_by_id_at(events, i);
    }
    if by_id(events).dom().contains(e.id) && by_id(events)[e.id] == e {
        let i = choose|i: int| 0 <= i < events.len() && (#[trigger] events[i]).id == e.id;
        lemma_by_id_at(events, i);
        assert(events[i] == e);
    }
}

/// A list in ascending order of ids is determined by the events that it holds.
pub proof fn lemma_ids_ascending_unique(a: Seq<EventModel>, b: Seq<EventModel>)
    requires
        ids_ascending(a),
        ids_ascending(b),
        by_id(a) == by_id(b),
    ensures
        a == b,
{
    let x = a.map_values(|e: EventModel| e.id);
    let y = b.map_values(|e: EventModel| e.id);
    assert forall|id: Seq<char>| x.contains(id) <==> y.contains(id) by {
        lemma_by_id_sound(a, id);
        lemma_by_id_sound(b, id);
        if x.contains(id) {
            let i = choose|i: int| 0 <= i < x.len() && x[i] == id;
            assert(a[i].id == id);
            let j = choose|j: int| 0 <= j < b.len() && (#[trigger] b[j]).id == id;
            assert(y[j] == id);
        }
        if y.contains(id) {
            let i = choose|i: int| 0 <= i < y.len() && y[i] == id;
            assert(b[i].id == id);
            let j = choose|j: int| 0 <= j < a.len() && (#[trigger] a[j]).id == id;
            assert(x[j] == id);
        }
    }
    assert(names::ascending(x)) by {
        assert forall|p: int, q: int| 0 <= p < q < x.len() implies text::text_lt(
            #[trigger] x[p],
            #[trigger] x[q],
        ) by {
            assert(text::text_lt(a[p].id, a[q].id));
        }
    }
    assert(names::ascending(y)) by {
        assert forall|p: int, q: int| 0 <= p < q < y.len() implies text::text_lt(
            #[trigger] y[p],
            #[trigger] y[q],
        ) by {
            assert(text::text_lt(b[p].id, b[q].id));
        }
    }
    names::lemma_ascending_unique(x, y);
    assert(a.len() == b.len()) by {
        assert(x.len() == y.len());
    }
    assert forall|i: int| 0 <= i < a.len() implies a[i] == b[i] by {
        assert(x[i] == y[i]);
        lemma_by_id_at(a, i);
        lemma_by_id_at(b, i);
    }
    assert(a =~= b);
}

/// Putting an event at its place, or in place of the one with its id, keeps the order.
proof fn lemma_put(list: Seq<EventModel>, e: EventModel, k: int, out: Seq<EventModel>)
    requires
        ids_ascending(list),
        0 <= k <= list.len(),
        forall|i: int| 0 <= i < k ==> text::text_lt((#[trigger] list[i]).id, e.id),
        k < list.len() ==> !text::text_lt(list[k].id, e.id),
        out == if k < list.len() && list[k].id == e.id {
            list.update(k, e)
        } else {
            list.insert(k, e)
        },
    ensures
        ids_ascending(out),
        by_id(out) == by_id(list).insert(e.id, e),
{
    let found = k < list.len() && list[k].id == e.id;
    assert forall|i: int, j: int| 0 <= i < j < out.len() implies text::text_lt(
        (#[trigger] out[i]).id,
        (#[trigger] out[j]).id,
    ) by {
        if found {
            assert(text::text_lt(list[i].id, list[j].id));
        } else if j < k {
            assert(text::text_lt(list[i].id, list[j].id));
        } else if j == k {
            assert(text::text_lt(list[i].id, e.id));
        } else if i > k {
            assert(text::text_lt(list[i - 1].id, list[j - 1].id));
        } else if i == k {
            text::lemma_text_lt_total(list[k].id, e.id);
            if j - 1 > k {
                assert(text::text_lt(list[k].id, list[j - 1].id));
                text::lemma_text_lt_transitive(e.id, list[k].id, list[j - 1].id);
            }
        } else {
            assert(text::text_lt(list[i].id, list[j - 1].id));
        }
    }
    let expected = by_id(list).insert(e.id, e);
    assert forall|id: Seq<char>| by_id(out).dom().contains(id) == expected.dom().contains(
        id,
    ) by {
        lemma_by_id_sound(out, id);
        lemma_by_id_sound(list, id);
        if by_id(list).dom().contains(id) {
            let i = choose|i: int| 0 <= i < list.len() && (#[trigger] list[i]).id == id;
            if i < k || found {
                assert(out[i].id == id);
            } else {
                assert(out[i + 1].id == id);
            }
        }
        if by_id(out).dom().contains(id) {
            let i = choose|i: int| 0 <= i < out.len() && (#[trigger] out[i]).id == id;
            if i < k || (found && i != k) {
                assert(list[i].id == id);
            } else if i > k {
                assert(list[i - 1].id == id);
            }
        }
        assert(out[k].id == e.id);
    }
    assert forall|id: Seq<char>| by_id(out).dom().contains(id) implies by_id(out)[id]
        == expected[id] by {
        lemma_by_id_sound(out, id);
        let i = choose|i: int| 0 <= i < out.len() && (#[trigger] out[i]).id == id;
        lemma_by_id_at(out, i);
        if i == k {
        } else {
            if i < k || found {
                assert(out[i] == list[i]);
                lemma_by_id_at(list, i);
            } else {
                assert(out[i] == list[i - 1]);
                lemma_by_id_at(list, i - 1);
            }
            if i < k {
                text::lemma_text_lt_asymmetric(out[i].id, out[k].id);
            } else {
                text::lemma_text_lt_asymmetric(out[k].id, out[i].id);
            }
        }
    }
    assert(by_id(out) =~= expected);
}

/// Merged events are in ascending order of ids and hold the last event of each id.
pub proof fn lemma_merged(events: Seq<EventModel>)
    ensures
        ids_ascending(merged(events)),
        by_id(merged(events)) == by_id(events),
    decreases events.len(),
{
    if events.len() > 0 {
        let list = merged(events.drop_last());
        let e = events.last();
        lemma_merged(events.drop_last());
        lemma_id_place_parts(list, e.id);
        lemma_put(list, e, id_place(list, e.id) as int, merged(events));
    }
}

/// Puts an event into a list at its place, or in place of the one with its id.
fn put(list: &mut Vec<Event>, e: Event)
    ensures
        models(final(list)@) == with_event(models(old(list)@), e@),
{
    let mut k: usize = 0;
    let ghost before = models(list@);
    let ghost model = e@;
    while k < list.len() && text_less(list[k].id.as_str(), e.id.as_str())
        invariant
            k <= list@.len(),
            list@ == old(list)@,
            before == models(list@),
            model == e@,
            forall|i: int| 0 <= i < k ==> text::text_lt((#[trigger] before[i]).id, model.id),
        decreases list.len() - k,
    {
        assert(before[k as int] == list@[k as int]@);
        k += 1;
    }
    assert(k < before.len() ==> before[k as int] == list@[k as int]@);
    proof {
        lemma_id_place(before, model.id, k as int);
    }
    if k < list.len() && same_text(list[k].id.as_str(), e.id.as_str()) {
        list.set(k, e);
        assert(models(list@) =~= before.update(k as int, model));
    } else {
        list.insert(k, e);
        assert(models(list@) =~= before.insert(k as int, model));
    }
}

/// Merges events into a list by their ids. Of equal ids the last event counts, and the list
/// comes out in ascending order of ids.
pub fn merge_events(existing: &mut Vec<Event>, incoming: Vec<Event>)
    ensures
        models(final(existing)@) == merged(models(old(existing)@) + models(incoming@)),
        ids_ascending(models(final(existing)@)),
        by_id(models(final(existing)@)) == by_id(models(old(existing)@) + models(incoming@)),
{
    let mut out: Vec<Event> = Vec::new();
    let ghost all = models(existing@) + models(incoming@);
    assert(models(out@) =~= seq![]);
    assert(all.take(0) =~= seq![]);
    for i in 0..existing.len()
        invariant
            existing@ == old(existing)@,
            all == models(existing@) + models(incoming@),
            models(out@) == merged(all.take(i as int)),
    {
        assert(all.take(i + 1).drop_last() =~= all.take(i as int));
        assert(all[i as int] == existing@[i as int]@);
        put(&mut out, existing[i].clone());
    }
    for i in 0..incoming.len()
        invariant
            existing@ == old(existing)@,
            all == models(existing@) + models(incoming@),
            models(out@) == merged(all.take(existing@.len() + i)),
    {
        let ghost k = existing@.len() + i;
        assert(all.take(k + 1).drop_last() =~= all.take(k));
        assert(all[k] == incoming@[i as int]@);
        put(&mut out, incoming[i].clone());
    }
    assert(all.take(all.len() as int) =~= all);
    proof {
        lemma_merged(all);
    }
    *existing = out;
}

// ---------------------------------------------------------------------------
// Pruning
// ---------------------------------------------------------------------------

/// Drops the events that occurred before the given time and keeps the others in order.
pub fn prune_events_before(events: &mut Vec<Event>, from: &str)
    ensures
        models(final(events)@) == models(old(events)@).filter(
            |e: EventModel| !text::text_lt(e.occurred_at, from@),
        ),
{
    let ghost keep = |e: EventModel| !text::text_lt(e.occurred_at, from@);
    let ghost all = models(events@);
    let mut kept: Vec<Event> = Vec::new();
    reveal(Seq::filter);
    assert(models(kept@) =~= all.take(0).filter(keep));
    for i in 0..events.len()
        invariant
            events@ == old(events)@,
            all == models(events@),
            keep == |e: EventModel| !text::text_lt(e.occurred_at, from@),
            models(kept@) == all.take(i as int).filter(keep),
    {
        reveal(Seq::filter);
        let ghost before = models(kept@);
        assert(all.take(i + 1).drop_last() =~= all.take(i as int));
        assert(all[i as int] == events@[i as int]@);
        if !text_less(events[i].occurred_at.as_str(), from) {
            kept.push(events[i].clone());
            assert(models(kept@) =~= before.push(all[i as int]));
        }
    }
    assert(all.take(all.len() as int) =~= all);
    *events = kept;
}

// ---------------------------------------------------------------------------
// Sorting
// ---------------------------------------------------------------------------

/// Whether an event comes before another: the later one first, and of events of the same
/// time the one with the lower id.
pub open spec fn newer(a: EventModel, b: EventModel) -> bool {
    text::text_lt(b.occurred_at, a.occurred_at) || (a.occurred_at == b.occurred_at
        && text::text_lt(a.id, b.id))
}

/// The events, the newest first.
pub open spec fn newest_first(events: Seq<EventModel>) -> Seq<EventModel> {
    order::sorted(events, |a: EventModel, b: EventModel| newer(a, b))
}

/// The order of events is one.
pub proof fn lemma_newer_is_order()
    ensures
        order::is_order(|a: EventModel, b: EventModel| newer(a, b)),
{
    let before = |a: EventModel, b: EventModel| newer(a, b);
    assert forall|a: EventModel, b: EventModel| #[trigger] before(a, b) implies !before(b, a) by {
        if text::text_lt(b.occurred_at, a.occurred_at) {
            text::lemma_text_lt_asymmetric(b.occurred_at, a.occurred_at);
        } else {
            text::lemma_text_lt_irreflexive(a.occurred_at);
            text::lemma_text_lt_asymmetric(a.id, b.id);
        }
    }
    assert forall|a: EventModel, b: EventModel, c: EventModel|
        #![trigger before(a, c), before(a, b)]
        before(a, c) implies before(a, b) || before(b, c) by {
        text::lemma_text_lt_total(a.occurred_at, b.occurred_at);
        text::lemma_text_lt_total(b.occurred_at, c.occurred_at);
        text::lemma_text_lt_total(a.id, b.id);
        text::lemma_text_lt_total(b.id, c.id);
        if text::text_lt(a.occurred_at, b.occurred_at) {
            if text::text_lt(b.occurred_at, c.occurred_at) {
                text::lemma_text_lt_transitive(a.occurred_at, b.occurred_at, c.occurred_at);
                text::lemma_text_lt_asymmetric(a.occurred_at, c.occurred_at);
            }
        }
        if text::text_lt(b.id, a.id) && text::text_lt(c.id, b.id) {
            text::lemma_text_lt_transitive(c.id, b.id, a.id);
        }
        if text::text_lt(a.id, c.id) {
            text::lemma_text_lt_asymmetric(a.id, c.id);
        }
        if text::text_lt(c.occurred_at, a.occurred_at) {
            text::lemma_text_lt_asymmetric(c.occurred_at, a.occurred_at);
        }
        text::lemma_text_lt_irreflexive(a.occurred_at);
        text::lemma_text_lt_irreflexive(a.id);
    }
}

/// Whether an event comes before another.
pub fn is_newer(a: &Event, b: &Event) -> (out: bool)
    ensures
        out == newer(a@, b@),
{
    text_less(b.occurred_at.as_str(), a.occurred_at.as_str()) || (same_text(
        a.occurred_at.as_str(),
        b.occurred_at.as_str(),
    ) && text_less(a.id.as_str(), b.id.as_str()))
}

/// Sorts events, the newest first.
pub fn sort_events(events: &mut Vec<Event>)
    ensures
        models(final(events)@) == newest_first(models(old(events)@)),
{
    let ghost before = |a: EventModel, b: EventModel| newer(a, b);
    let ghost all = models(events@);
    let mut out: Vec<Event> = Vec::new();
    assert(models(out@) =~= seq![]);
    for i in 0..events.len()
        invariant
            events@ == old(events)@,
            all == models(events@),
            before == |a: EventModel, b: EventModel| newer(a, b),
            models(out@) == order::sorted(all.take(i as int), before),
    {
        let ghost list = models(out@);
        assert(all.take(i + 1).drop_last() =~= all.take(i as int));
        assert(all[i as int] == events@[i as int]@);
        let e = events[i].clone();
        let mut k: usize = out.len();
        while k > 0 && is_newer(&e, &out[k - 1])
            invariant
                k <= out@.len(),
                list == models(out@),
                e@ == all[i as int],
                before == |a: EventModel, b: EventModel| newer(a, b),
                forall|j: int| k <= j < list.len() ==> before(e@, #[trigger] list[j]),
            decreases k,
        {
            assert(list[k - 1] == out@[k - 1]@);
            k -= 1;
        }
        assert(k > 0 ==> list[k - 1] == out@[k - 1]@);
        proof {
            order::lemma_place_is(list, e@, before, k as int);
        }
        let ghost model = e@;
        out.insert(k, e);
        assert(models(out@) =~= list.insert(k as int, model));
    }
    assert(all.take(all.len() as int) =~= all);
    *events = out;
}

// ---------------------------------------------------------------------------
// Laws
// ---------------------------------------------------------------------------

/// An event that comes in replaces the one with its id, and all others stay.
pub proof fn lemma_incoming_wins(existing: Seq<EventModel>, incoming: Seq<EventModel>, id: Seq<char>)
    ensures
        by_id(existing + incoming).dom().contains(id) <==> by_id(existing).dom().contains(id)
            || by_id(incoming).dom().contains(id),
        by_id(incoming).dom().contains(id) ==> by_id(existing + incoming)[id]
            == by_id(incoming)[id],
        by_id(existing).dom().contains(id) && !by_id(incoming).dom().contains(id) ==> by_id(
            existing + incoming,
        )[id] == by_id(existing)[id],
    decreases incoming.len(),
{
    let all = existing + incoming;
    if incoming.len() == 0 {
        assert(all =~= existing);
    } else {
        lemma_incoming_wins(existing, incoming.drop_last(), id);
        assert(all.drop_last() =~= existing + incoming.drop_last());
        assert(all.last() == incoming.last());
    }
}

/// Merging the same events in once more changes nothing.
pub proof fn lemma_merge_idempotent(existing: Seq<EventModel>, incoming: Seq<EventModel>)
    ensures
        by_id((existing + incoming) + incoming) == by_id(existing + incoming),
{
    let once = existing + incoming;
    assert forall|id: Seq<char>| by_id(once + incoming).dom().contains(id) == by_id(
        once,
    ).dom().contains(id) by {
        lemma_incoming_wins(once, incoming, id);
        lemma_incoming_wins(existing, incoming, id);
    }
    assert forall|id: Seq<char>| by_id(once).dom().contains(id) implies by_id(once + incoming)[id]
        == by_id(once)[id] by {
        lemma_incoming_wins(once, incoming, id);
        lemma_incoming_wins(existing, incoming, id);
    }
    assert(by_id(once + incoming) =~= by_id(once));
}

/// Merging in turn is merging at once: it does not matter how the events that were there
/// before were merged.
pub proof fn lemma_merge_in_turn(
    merged: Seq<EventModel>,
    events: Seq<EventModel>,
    incoming: Seq<EventModel>,
)
    requires
        by_id(merged) == by_id(events),
    ensures
        by_id(merged + incoming) == by_id(events + incoming),
    decreases incoming.len(),
{
    if incoming.len() == 0 {
        assert(merged + incoming =~= merged);
        assert(events + incoming =~= events);
    } else {
        lemma_merge_in_turn(merged, events, incoming.drop_last());
        assert((merged + incoming).drop_last() =~= merged + incoming.drop_last());
        assert((events + incoming).drop_last() =~= events + incoming.drop_last());
    }
}

/// Merging events into merged ones is merging all of them.
pub proof fn lemma_merged_in_turn(events: Seq<EventModel>, incoming: Seq<EventModel>)
    ensures
        merged(merged(events) + incoming) == merged(events + incoming),
{
    lemma_merged(events);
    lemma_merged(merged(events) + incoming);
    lemma_merged(events + incoming);
    lemma_merge_in_turn(merged(events), events, incoming);
    lemma_ids_ascending_unique(merged(merged(events) + incoming), merged(events + incoming));
}

/// Sorting keeps the events and puts none behind an older one.
pub proof fn lemma_newest_first(events: Seq<EventModel>)
    ensures
        newest_first(events).to_multiset() == events.to_multiset(),
        forall|i: int, j: int|
            0 <= i < j < newest_first(events).len() ==> !newer(
                #[trigger] newest_first(events)[j],
                #[trigger] newest_first(events)[i],
            ),
{
    let before = |a: EventModel, b: EventModel| newer(a, b);
    lemma_newer_is_order();
    order::lemma_sorted(events, before);
    let out = newest_first(events);
    assert forall|i: int, j: int| 0 <= i < j < out.len() implies !newer(
        #[trigger] out[j],
        #[trigger] out[i],
    ) by {
        assert(!before(out[j], out[i]));
    }
}

/// Events are in order where no event is older than one that follows it, and where of events
/// of the same time the one with the lower id comes first.
pub open spec fn newest_on_top(events: Seq<EventModel>) -> bool {
    forall|i: int, j: int|
        0 <= i < j < events.len() ==> {
            let (a, b) = (#[trigger] events[i], #[trigger] events[j]);
            &&& a.occurred_at == b.occurred_at || text::text_lt(b.occurred_at, a.occurred_at)
            &&& a.occurred_at == b.occurred_at ==> a.id == b.id || text::text_lt(a.id, b.id)
        }
}

/// Sorting puts the events into this order, all of them and no other.
pub proof fn lemma_newest_on_top(events: Seq<EventModel>)
    ensures
        newest_on_top(newest_first(events)),
        newest_first(events).to_multiset() == events.to_multiset(),
        newest_first(events).len() == events.len(),
{
    let out = newest_first(events);
    lemma_newest_first(events);
    assert forall|i: int, j: int| 0 <= i < j < out.len() implies ({
        let (a, b) = (#[trigger] out[i], #[trigger] out[j]);
        &&& a.occurred_at == b.occurred_at || text::text_lt(b.occurred_at, a.occurred_at)
        &&& a.occurred_at == b.occurred_at ==> a.id == b.id || text::text_lt(a.id, b.id)
    }) by {
        assert(!newer(out[j], out[i]));
        text::lemma_text_lt_total(out[i].occurred_at, out[j].occurred_at);
        text::lemma_text_lt_total(out[i].id, out[j].id);
    }
    lemma_newer_is_order();
    order::lemma_sorted(events, |a: EventModel, b: EventModel| newer(a, b));
}

/// Merging leaves one event of each id that occurs, namely the last one, in ascending order
/// of the ids.
pub proof fn lemma_last_counts(events: Seq<EventModel>, e: EventModel)
    ensures
        ids_ascending(merged(events)),
        merged(events).contains(e) <==> exists|i: int|
            0 <= i < events.len() && #[trigger] events[i] == e && forall|j: int|
                i < j < events.len() ==> (#[trigger] events[j]).id != e.id,
{
    lemma_merged(events);
    lemma_by_id_holds(merged(events), e);
    lemma_by_id_last(events, e);
}

/// An id leads to the last event that has it.
proof fn lemma_by_id_last(events: Seq<EventModel>, e: EventModel)
    ensures
        by_id(events).dom().contains(e.id) && by_id(events)[e.id] == e <==> exists|i: int|
            0 <= i < events.len() && #[trigger] events[i] == e && forall|j: int|
                i < j < events.len() ==> (#[trigger] events[j]).id != e.id,
    decreases events.len(),
{
    if events.len() > 0 {
        let front = events.drop_last();
        let last = events.last();
        lemma_by_id_last(front, e);
        if by_id(events).dom().contains(e.id) && by_id(events)[e.id] == e {
            if last.id == e.id {
                assert(events[events.len() - 1] == e);
            } else {
                let i = choose|i: int|
                    0 <= i < front.len() && #[trigger] front[i] == e && forall|j: int|
                        i < j < front.len() ==> (#[trigger] front[j]).id != e.id;
                assert(events[i] == e);
                assert forall|j: int| i < j < events.len() implies (#[trigger] events[j]).id
                    != e.id by {
                    if j < front.len() {
                        assert(front[j].id != e.id);
                    }
                }
            }
        }
        if exists|i: int|
            0 <= i < events.len() && #[trigger] events[i] == e && forall|j: int|
                i < j < events.len() ==> (#[trigger] events[j]).id != e.id {
            let i = choose|i: int|
                0 <= i < events.len() && #[trigger] events[i] == e && forall|j: int|
                    i < j < events.len() ==> (#[trigger] events[j]).id != e.id;
            if i < front.len() {
                assert(events[events.len() - 1].id != e.id);
                assert(front[i] == e);
                assert forall|j: int| i < j < front.len() implies (#[trigger] front[j]).id
                    != e.id by {
                    assert(events[j].id != e.id);
                }
            }
        }
    }
}

} // verus!
