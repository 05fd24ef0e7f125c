//! A whole collection: first the contributions of each window of time, then the comments.

use crate::calendar;
use crate::clock;
use crate::clock::{contribution_windows, months_ago_rfc3339, now_rfc3339};
use crate::collect;
use crate::collect::{absorb, finish_feed, start_feed};
use crate::collection;
use crate::collection::{Found, Service};
use crate::collector;
use crate::collector::{Collector, CollectorModel};
use crate::config::{Config, ConfigModel};
use crate::contributions;
use crate::event;
use crate::event::{Event, EventModel};
use crate::feed::{Feed, FeedModel};
use crate::grammar::JsonModel;
use crate::json::Json;
use crate::names;
use crate::names::NameSet;
use crate::request;
use crate::request::{fetch_contributions, Request, RequestModel};
use crate::text;
use crate::text::owned;
use vstd::prelude::*;

verus! {

// ---------------------------------------------------------------------------
// States
// ---------------------------------------------------------------------------

/// A collection under way.
#[derive(Debug)]
pub struct Session {
    feed: Feed,
    candidates: NameSet,
    from: String,
    windows: Vec<(String, String)>,
    next: usize,
    comments: Option<Collector>,
}

/// The mathematical value of a collection: the feed and the candidates so far, the time from
/// which events are taken, the windows that are still to come, and the collection of
/// comments once it has started.
#[verifier::ext_equal]
pub struct SessionModel {
    pub feed: FeedModel,
    pub candidates: Seq<Seq<char>>,
    pub from: Seq<char>,
    pub windows: Seq<(Seq<char>, Seq<char>)>,
    pub comments: Option<CollectorModel>,
}

/// An optional collection of comments, seen as a value.
pub open spec fn comments_model(comments: Option<Collector>) -> Option<CollectorModel> {
    match comments {
        Some(s) => Some(s@),
        None => None,
    }
}

impl View for Session {
    type V = SessionModel;

    closed spec fn view(&self) -> SessionModel {
        SessionModel {
            feed: self.feed@,
            candidates: self.candidates.listing(),
            from: self.from@,
            windows: clock::text_pairs(self.windows@).skip(self.next as int),
            comments: comments_model(self.comments),
        }
    }
}

/// The request that is made next.
pub open spec fn next_request(c: ConfigModel, s: SessionModel) -> Option<RequestModel> {
    match s.comments {
        None => Some(
            request::contributions_request(c.username, s.windows[0].0, s.windows[0].1),
        ),
        Some(comments) => if comments.work.len() == 0 {
            None
        } else {
            Some(collector::task_request(c, comments.work.last()))
        },
    }
}

/// Whether the reply to the next request can be taken in: there is a request, and the page
/// behind it can be counted.
pub open spec fn ready(s: SessionModel) -> bool {
    match s.comments {
        None => s.windows.len() > 0,
        Some(comments) => comments.work.len() > 0 && collector::has_room(comments),
    }
}

/// What the reply to the next request leads to, on the given day. Once the last window is
/// in, the collection of comments starts.
pub open spec fn advance(
    c: ConfigModel,
    s: SessionModel,
    reply: JsonModel,
    today: Seq<char>,
) -> Result<SessionModel, Seq<char>> {
    match s.comments {
        None => match contributions::contributions(c, reply) {
            Err(e) => Err(e),
            Ok((events, names)) => {
                let feed = FeedModel { events: event::merged(s.feed.events + events), ..s.feed };
                let candidates = names::with_names(s.candidates, names);
                let windows = s.windows.skip(1);
                if windows.len() > 0 {
                    Ok(SessionModel { feed, candidates, windows, ..s })
                } else {
                    match collector::started(c, s.from, today) {
                        Ok(comments) => Ok(
                            SessionModel {
                                feed,
                                candidates,
                                windows,
                                comments: Some(comments),
                                ..s
                            },
                        ),
                        Err(e) => Err(e),
                    }
                }
            },
        },
        Some(comments) => match collector::advance(c, comments, reply) {
            Ok(next) => Ok(SessionModel { comments: Some(next), ..s }),
            Err(e) => Err(e),
        },
    }
}

/// The comments that were collected.
pub open spec fn comments_of(s: SessionModel) -> Seq<EventModel> {
    match s.comments {
        Some(comments) => comments.events,
        None => seq![],
    }
}

/// The feed that a collection gives.
pub open spec fn final_feed(s: SessionModel) -> FeedModel {
    FeedModel {
        events: collect::finished(s.feed.events + comments_of(s), s.from),
        ..s.feed
    }
}

/// A collection, seen as a value.
pub open spec fn session_outcome(out: Result<Session, String>) -> Result<SessionModel, Seq<char>> {
    match out {
        Ok(s) => Ok(s@),
        Err(e) => Err(e@),
    }
}

/// How a collection starts.
pub open spec fn first_session(
    c: ConfigModel,
    state: Option<Seq<char>>,
    now: Seq<char>,
    from: Seq<char>,
    windows: Seq<(Seq<char>, Seq<char>)>,
) -> Result<SessionModel, Seq<char>> {
    match collect::first_feed(c, state, now) {
        Ok(feed) => Ok(
            SessionModel { feed, candidates: seq![], from, windows, comments: None },
        ),
        Err(e) => Err(e),
    }
}

impl Session {
    #[verifier::type_invariant]
    spec fn windows_are_left(self) -> bool {
        &&& self.next <= self.windows@.len()
        &&& self.comments is None ==> self.next < self.windows@.len()
        &&& self.candidates.valid()
    }

    /// Starts a collection: from the feed of the last one, where there is one to go on from,
    /// at the given time, for events from another time on and contributions in the given
    /// windows.
    pub fn start(
        config: &Config,
        state: Option<&str>,
        now: &str,
        from: &str,
        windows: Vec<(String, String)>,
    ) -> (out: Result<Session, String>)
        requires
            windows@.len() > 0,
        ensures
            session_outcome(out) == first_session(
                config@,
                collect::opt_text(state),
                now@,
                from@,
                clock::text_pairs(windows@),
            ),
    {
        let feed = start_feed(config, state, now)?;
        let ghost all = clock::text_pairs(windows@);
        assert(all.skip(0) =~= all);
        Ok(
            Session {
                feed,
                candidates: NameSet::new(),
                from: owned(from),
                windows,
                next: 0,
                comments: None,
            },
        )
    }

    /// The request that is made next, or none where the collection is complete.
    pub fn request(&self, config: &Config) -> (out: Option<Request>)
        ensures
            match out {
                Some(r) => next_request(config@, self@) == Some(r@),
                None => next_request(config@, self@) is None,
            },
    {
        proof {
            use_type_invariant(self);
        }
        match &self.comments {
            None => {
                let window = &self.windows[self.next];
                assert(self@.windows[0] == (window.0@, window.1@));
                Some(
                    fetch_contributions(
                        config.username.as_str(),
                        window.0.as_str(),
                        window.1.as_str(),
                    ),
                )
            },
            Some(comments) => comments.request(config),
        }
    }

    /// Whether the reply to the next request can be taken in.
    pub fn can_step(&self) -> (out: bool)
        ensures
            out == ready(self@),
    {
        proof {
            use_type_invariant(self);
        }
        match &self.comments {
            None => true,
            Some(comments) => comments.can_step(),
        }
    }

    /// Goes on with the reply to the request that was made, on the given day.
    pub fn step(self, config: &Config, reply: &Json, today: &str) -> (out: Result<Session, String>)
        requires
            ready(self@),
        ensures
            session_outcome(out) == advance(config@, self@, reply@, today@),
    {
        proof {
            use_type_invariant(&self);
        }
        let ghost s = self@;
        let ghost all = clock::text_pairs(self.windows@);
        let Session { feed, candidates, from, windows, next, comments } = self;
        let mut feed = feed;
        let mut candidates = candidates;
        match comments {
            None => {
                absorb(config, &mut feed, &mut candidates, reply)?;
                let count: usize = windows.len();
                let next: usize = next + 1;
                assert(all.skip(next - 1).skip(1) =~= all.skip(next as int));
                if next < count {
                    Ok(Session { feed, candidates, from, windows, next, comments: None })
                } else {
                    let started = Collector::start(config, from.as_str(), today)?;
                    Ok(Session { feed, candidates, from, windows, next, comments: Some(started) })
                }
            },
            Some(comments) => {
                let moved = comments.step(config, reply)?;
                Ok(Session { feed, candidates, from, windows, next, comments: Some(moved) })
            },
        }
    }

    /// The feed and the candidates of a collection.
    pub fn finish(self) -> (out: (Feed, NameSet))
        ensures
            out.0@ == final_feed(self@),
            out.1.listing() == self@.candidates,
            out.1.valid(),
    {
        proof {
            use_type_invariant(&self);
        }
        let Session { feed, candidates, from, windows, next, comments } = self;
        let mut feed = feed;
        let events: Vec<Event> = match comments {
            Some(comments) => comments.into_events(),
            None => Vec::new(),
        };
        assert(event::models(events@) =~= comments_of(self@));
        finish_feed(&mut feed, events, from.as_str());
        (feed, candidates)
    }
}

/// Starts a collection now: for events from the months before the current time that the
/// configuration names, in windows that reach back from the current time. The clock is read
/// three times, and once more for the windows where its year is not one of four digits.
pub fn collect_cmd(config: &Config, state: Option<&str>) -> (out: Result<Session, String>)
    requires
        clock::countable(config@.bootstrap_months),
    ensures
        exists|now: i64, start: i64, end: i64, reading: i64|
            {
                &&& calendar::four_digit_year(end as int / 86_400) ==> reading == end
                &&& session_outcome(out) == first_session(
                    config@,
                    collect::opt_text(state),
                    #[trigger] calendar::timestamp(now as int),
                    calendar::timestamp(
                        #[trigger] clock::months_back(start, config@.bootstrap_months) as int,
                    ),
                    #[trigger] clock::windows(
                        reading,
                        config@.bootstrap_months,
                        #[trigger] calendar::timestamp(end as int),
                    ),
                )
            },
{
    let now = now_rfc3339();
    let from = months_ago_rfc3339(config.bootstrap_months);
    let to = now_rfc3339();
    let windows = contribution_windows(config.bootstrap_months, to.as_str());
    proof {
        let months = config@.bootstrap_months;
        let end = choose|end: i64| to@ == #[trigger] calendar::timestamp(end as int);
        let reading = if calendar::is_timestamp(to@) {
            calendar::stamp_secs(to@) as i64
        } else {
            choose|reading: i64|
                clock::text_pairs(windows@) == #[trigger] clock::windows(reading, months, to@)
        };
        if calendar::four_digit_year(end as int / 86_400) {
            calendar::lemma_stamp_read_back(end as int);
        }
        clock::lemma_windows_join(reading, months, to@);
        assert(clock::text_pairs(windows@).len() > 0);
    }
    Session::start(config, state, now.as_str(), from.as_str(), windows)
}

// ---------------------------------------------------------------------------
// The collection, written down as a whole
// ---------------------------------------------------------------------------

/// What a whole collection gives: the events of the feed and the candidates.
pub type Outcome = Result<(Seq<EventModel>, Seq<Seq<char>>), Seq<char>>;

/// The events and the candidates that the windows give, one window after another.
pub open spec fn windows_found(
    g: Service,
    c: ConfigModel,
    windows: Seq<(Seq<char>, Seq<char>)>,
) -> Outcome
    decreases windows.len(),
{
    if windows.len() == 0 {
        Ok((seq![], seq![]))
    } else {
        let asked = request::contributions_request(c.username, windows[0].0, windows[0].1);
        match contributions::contributions(c, (g.reply)(asked)) {
            Err(e) => Err(e),
            Ok((events, names)) => match windows_found(g, c, windows.skip(1)) {
                Err(e) => Err(e),
                Ok((later, more)) => Ok((events + later, names + more)),
            },
        }
    }
}

/// The feed with the events of the windows and the comments.
pub open spec fn gathered(
    events: Seq<EventModel>,
    candidates: Seq<Seq<char>>,
    from: Seq<char>,
    found: Outcome,
    comments: Found,
) -> Outcome {
    match found {
        Err(e) => Err(e),
        Ok((more, names)) => match comments {
            Err(e) => Err(e),
            Ok(last) => Ok(
                (
                    collect::finished(events + more + last, from),
                    names::with_names(candidates, names),
                ),
            ),
        },
    }
}

/// The comments that a collection which starts on the given day finds.
pub open spec fn comments_found(g: Service, c: ConfigModel, from: Seq<char>, today: Seq<char>) -> Found {
    match collector::started(c, from, today) {
        Ok(start) => collection::total(g, c, start),
        Err(e) => Err(e),
    }
}

/// What a collection has and will have.
pub open spec fn whole(g: Service, c: ConfigModel, s: SessionModel, today: Seq<char>) -> Outcome {
    match s.comments {
        None => gathered(
            s.feed.events,
            s.candidates,
            s.from,
            windows_found(g, c, s.windows),
            comments_found(g, c, s.from, today),
        ),
        Some(comments) => gathered(
            s.feed.events,
            s.candidates,
            s.from,
            Ok((seq![], seq![])),
            collection::total(g, c, comments),
        ),
    }
}

/// Whether the tasks of the comments can be carried out.
pub open spec fn sound(s: SessionModel) -> bool {
    match s.comments {
        Some(comments) => collector::sound(comments),
        None => s.windows.len() > 0,
    }
}

/// Merging some of the events beforehand makes no difference at the end.
proof fn lemma_finished_in_turn(
    first: Seq<EventModel>,
    second: Seq<EventModel>,
    third: Seq<EventModel>,
    from: Seq<char>,
)
    ensures
        collect::finished(event::merged(first) + second + third, from) == collect::finished(
            first + (second + third),
            from,
        ),
{
    event::lemma_merged_in_turn(first, second + third);
    assert(event::merged(first) + second + third =~= event::merged(first) + (second + third));
}

/// Taking the reply of a window in keeps what a collection has and will have.
proof fn lemma_gathered(
    events: Seq<EventModel>,
    here: Seq<EventModel>,
    candidates: Seq<Seq<char>>,
    names: Seq<Seq<char>>,
    from: Seq<char>,
    found: Outcome,
    comments: Found,
)
    ensures
        gathered(
            event::merged(events + here),
            names::with_names(candidates, names),
            from,
            found,
            comments,
        ) == gathered(
            events,
            candidates,
            from,
            match found {
                Err(e) => Err(e),
                Ok((later, more)) => Ok((here + later, names + more)),
            },
            comments,
        ),
{
    if let Ok((later, more)) = found {
        names::lemma_with_names_in_turn(candidates, names, more);
        if let Ok(last) = comments {
            lemma_finished_in_turn(events + here, later, last, from);
            assert(events + (here + later) + last =~= (events + here) + (later + last));
        }
    }
}

/// Whether a step keeps what a collection has and will have, and fails only where the whole
/// collection fails.
pub open spec fn step_keeps(g: Service, c: ConfigModel, s: SessionModel, today: Seq<char>) -> bool {
    match advance(c, s, (g.reply)(next_request(c, s)->0), today) {
        Ok(t) => sound(t) && whole(g, c, t, today) == whole(g, c, s, today),
        Err(e) => whole(g, c, s, today) == Err::<(Seq<EventModel>, Seq<Seq<char>>), Seq<char>>(e),
    }
}

/// A step on a window.
proof fn lemma_window_step(g: Service, c: ConfigModel, s: SessionModel, today: Seq<char>)
    requires
        s.comments is None,
        s.windows.len() > 0,
    ensures
        step_keeps(g, c, s, today),
{
    let reply = (g.reply)(next_request(c, s)->0);
    collector::lemma_started_sound(c, s.from, today);
    if let Ok((events, names)) = contributions::contributions(c, reply) {
        let later = windows_found(g, c, s.windows.skip(1));
        let comments = comments_found(g, c, s.from, today);
        lemma_gathered(s.feed.events, events, s.candidates, names, s.from, later, comments);
        if s.windows.len() == 1 {
            assert(later == Ok::<(Seq<EventModel>, Seq<Seq<char>>), Seq<char>>((seq![], seq![])));
        }
    }
}

/// A step with what GitHub answers keeps what a collection has and will have, and fails only
/// where the whole collection fails.
pub proof fn lemma_step(g: Service, c: ConfigModel, s: SessionModel, today: Seq<char>)
    requires
        collection::threads_end(g),
        sound(s),
        next_request(c, s) is Some,
    ensures
        step_keeps(g, c, s, today),
{
    match s.comments {
        None => {
            lemma_window_step(g, c, s, today);
        },
        Some(comments) => {
            let reply = (g.reply)(collector::task_request(c, comments.work.last()));
            collection::lemma_step(g, c, comments);
            collector::lemma_advance_sound(c, comments, reply);
        },
    }
}

/// A collection after so many steps with what GitHub answers, or as many as it takes.
pub open spec fn run(
    g: Service,
    c: ConfigModel,
    s: SessionModel,
    today: Seq<char>,
    n: nat,
) -> Result<SessionModel, Seq<char>>
    decreases n,
{
    match next_request(c, s) {
        Some(asked) => if n == 0 {
            Ok(s)
        } else {
            match advance(c, s, (g.reply)(asked), today) {
                Ok(t) => run(g, c, t, today, (n - 1) as nat),
                Err(e) => Err(e),
            }
        },
        None => Ok(s),
    }
}

/// Steps keep what a collection has and will have.
proof fn lemma_run(g: Service, c: ConfigModel, s: SessionModel, today: Seq<char>, n: nat)
    requires
        collection::threads_end(g),
        sound(s),
    ensures
        match run(g, c, s, today, n) {
            Ok(t) => sound(t) && whole(g, c, t, today) == whole(g, c, s, today),
            Err(e) => whole(g, c, s, today) == Err::<
                (Seq<EventModel>, Seq<Seq<char>>),
                Seq<char>,
            >(e),
        },
    decreases n,
{
    if n > 0 && next_request(c, s) is Some {
        lemma_step(g, c, s, today);
        if let Ok(t) = advance(c, s, (g.reply)(next_request(c, s)->0), today) {
            lemma_run(g, c, t, today, (n - 1) as nat);
        }
    }
}

/// A collection that was carried out to its end gives the events that were there before,
/// those of all windows and the comments, merged by their ids in this order, without those
/// that are too old and the newest first, and the candidates of all windows. One that failed
/// tells the first error.
pub proof fn lemma_session(g: Service, c: ConfigModel, s: SessionModel, today: Seq<char>, n: nat)
    requires
        collection::threads_end(g),
        s.comments is None,
        s.windows.len() > 0,
    ensures
        match run(g, c, s, today, n) {
            Ok(t) => next_request(c, t) is None ==> gathered(
                s.feed.events,
                s.candidates,
                s.from,
                windows_found(g, c, s.windows),
                comments_found(g, c, s.from, today),
            ) == Ok::<(Seq<EventModel>, Seq<Seq<char>>), Seq<char>>(
                (final_feed(t).events, t.candidates),
            ),
            Err(e) => gathered(
                s.feed.events,
                s.candidates,
                s.from,
                windows_found(g, c, s.windows),
                comments_found(g, c, s.from, today),
            ) == Err::<(Seq<EventModel>, Seq<Seq<char>>), Seq<char>>(e),
        },
{
    lemma_run(g, c, s, today, n);
    if let Ok(t) = run(g, c, s, today, n) {
        if next_request(c, t) is None {
            let comments = t.comments->0;
            assert(comments.work.len() == 0);
            assert(collection::total(g, c, comments) == Ok::<Seq<EventModel>, Seq<char>>(
                comments.events,
            )) by {
                assert(comments.events + Seq::<EventModel>::empty() =~= comments.events);
            }
            assert(t.feed.events + Seq::<EventModel>::empty() + comments.events =~= t.feed.events
                + comments.events);
        }
    }
}

/// Every window is asked for, and all its events and candidates are taken in.
pub proof fn lemma_windows_complete(
    g: Service,
    c: ConfigModel,
    windows: Seq<(Seq<char>, Seq<char>)>,
    k: int,
)
    requires
        0 <= k < windows.len(),
        windows_found(g, c, windows) is Ok,
    ensures
        ({
            let asked = request::contributions_request(c.username, windows[k].0, windows[k].1);
            contributions::contributions(c, (g.reply)(asked)) matches Ok((events, names)) && (
            forall|e: EventModel| #[trigger]
                events.contains(e) ==> windows_found(g, c, windows)->Ok_0.0.contains(e)) && (
            forall|name: Seq<char>| #[trigger]
                names.contains(name) ==> windows_found(g, c, windows)->Ok_0.1.contains(name))
        }),
    decreases windows.len(),
{
    let asked = request::contributions_request(c.username, windows[0].0, windows[0].1);
    let (events, names) = contributions::contributions(c, (g.reply)(asked))->Ok_0;
    let (later, more) = windows_found(g, c, windows.skip(1))->Ok_0;
    if k == 0 {
        assert forall|e: EventModel| #[trigger] events.contains(e) implies (events
            + later).contains(e) by {
            let i = choose|i: int| 0 <= i < events.len() && events[i] == e;
            assert((events + later)[i] == e);
        }
        assert forall|name: Seq<char>| #[trigger] names.contains(name) implies (names
            + more).contains(name) by {
            let i = choose|i: int| 0 <= i < names.len() && names[i] == name;
            assert((names + more)[i] == name);
        }
    } else {
        assert(windows.skip(1)[k - 1] == windows[k]);
        lemma_windows_complete(g, c, windows.skip(1), k - 1);
        assert forall|e: EventModel| #[trigger] later.contains(e) implies (events
            + later).contains(e) by {
            let i = choose|i: int| 0 <= i < later.len() && later[i] == e;
            assert((events + later)[events.len() + i] == e);
        }
        assert forall|name: Seq<char>| #[trigger] more.contains(name) implies (names
            + more).contains(name) by {
            let i = choose|i: int| 0 <= i < more.len() && more[i] == name;
            assert((names + more)[names.len() + i] == name);
        }
    }
}

/// Whether the last event of an id among those of three lists in a row is the given one.
pub open spec fn last_of_id(
    a: Seq<EventModel>,
    b: Seq<EventModel>,
    d: Seq<EventModel>,
    e: EventModel,
) -> bool {
    exists|i: int|
        0 <= i < (a + b + d).len() && #[trigger] (a + b + d)[i] == e && forall|j: int|
            i < j < (a + b + d).len() ==> (#[trigger] (a + b + d)[j]).id != e.id
}

/// A collection that was carried out to its end leaves exactly the events of the last feed,
/// of the windows and of the comments that are not before the given time, of each id the one
/// that came last, with no id twice and the newest on top. Its candidates are exactly those
/// from before and those of the windows.
pub proof fn lemma_collected(
    g: Service,
    c: ConfigModel,
    s: SessionModel,
    today: Seq<char>,
    n: nat,
    t: SessionModel,
)
    requires
        collection::threads_end(g),
        s.comments is None,
        s.windows.len() > 0,
        names::ascending(s.candidates),
        run(g, c, s, today, n) == Ok::<SessionModel, Seq<char>>(t),
        next_request(c, t) is None,
    ensures
        windows_found(g, c, s.windows) is Ok,
        comments_found(g, c, s.from, today) is Ok,
        event::newest_on_top(final_feed(t).events),
        forall|e: EventModel| #[trigger]
            final_feed(t).events.contains(e) <==> (e.occurred_at == s.from || text::text_lt(
                s.from,
                e.occurred_at,
            )) && last_of_id(
                s.feed.events,
                windows_found(g, c, s.windows)->Ok_0.0,
                comments_found(g, c, s.from, today)->Ok_0,
                e,
            ),
        forall|name: Seq<char>| #[trigger]
            t.candidates.contains(name) <==> s.candidates.contains(name) || windows_found(
                g,
                c,
                s.windows,
            )->Ok_0.1.contains(name),
{
    lemma_session(g, c, s, today, n);
    let (more, names) = windows_found(g, c, s.windows)->Ok_0;
    let last = comments_found(g, c, s.from, today)->Ok_0;
    collect::lemma_finished_feed(s.feed.events + more + last, s.from);
    names::lemma_with_names(s.candidates, names);
}

} // verus!
