//! What a collection does to the feed.

use crate::candidates;
use crate::candidates::candidate_report;
use crate::command::CollectOptions;
use crate::config::{Config, ConfigModel};
use crate::contributions;
use crate::contributions::extract_contributions;
use crate::event;
use crate::event::{merge_events, prune_events_before, sort_events, Event, EventModel};
use crate::feed;
use crate::feed::{Feed, FeedModel};
use crate::json::Json;
use crate::names;
use crate::names::NameSet;
use crate::outcome;
use crate::round_trip;
use crate::site;
use crate::site::SiteFile;
use crate::text;
use crate::text::owned;
use vstd::prelude::*;

verus! {

/// The feed that a collection starts from: the one of the last collection, where there is
/// one to go on from, or else one without events.
pub open spec fn first_feed(c: ConfigModel, state: Option<Seq<char>>, now: Seq<char>) -> Result<
    FeedModel,
    Seq<char>,
> {
    match state {
        Some(raw) => match feed::read_feed(raw) {
            Ok(f) => Ok(FeedModel { generated_at: now, ..f }),
            Err(e) => Err(e),
        },
        None => Ok(FeedModel { generated_at: now, username: c.username, events: seq![] }),
    }
}

/// An optional string, seen as a text.
pub open spec fn opt_text(s: Option<&str>) -> Option<Seq<char>> {
    match s {
        Some(s) => Some(s@),
        None => None,
    }
}

/// The feed that a collection starts from.
pub fn start_feed(config: &Config, state: Option<&str>, now: &str) -> (out: Result<Feed, String>)
    ensures
        feed::feed_outcome(out) == first_feed(config@, opt_text(state), now@),
{
    match state {
        Some(raw) => {
            let mut feed = Feed::from_json(raw)?;
            let ghost read = feed@;
            feed.generated_at = owned(now);
            assert(feed@ =~= (FeedModel { generated_at: now@, ..read }));
            Ok(feed)
        },
        None => {
            let events: Vec<Event> = Vec::new();
            assert(event::models(events@) =~= seq![]);
            Ok(
                Feed {
                    generated_at: owned(now),
                    username: owned(config.username.as_str()),
                    events,
                },
            )
        },
    }
}

/// Takes the events and the candidates of a reply in. Nothing changes where the reply is not
/// a report.
pub fn absorb(config: &Config, feed: &mut Feed, candidates: &mut NameSet, graph: &Json) -> (out:
    Result<(), String>)
    ensures
        match contributions::contributions(config@, graph@) {
            Ok((events, names)) => {
                &&& out is Ok
                &&& final(feed)@ == (FeedModel {
                    events: event::merged(old(feed)@.events + events),
                    ..old(feed)@
                })
                &&& final(candidates).listing() == names::with_names(
                    old(candidates).listing(),
                    names,
                )
            },
            Err(e) => {
                &&& outcome::problem(out) == Some(e)
                &&& final(feed)@ == old(feed)@
                &&& final(candidates).listing() == old(candidates).listing()
            },
        },
        old(candidates).valid() ==> final(candidates).valid(),
{
    let (events, found) = extract_contributions(config, graph)?;
    merge_events(&mut feed.events, events);
    assert(feed@ =~= (FeedModel { events: feed@.events, ..old(feed)@ }));
    candidates.extend(&found);
    Ok(())
}

/// The events of a feed at the end of a collection: all of them merged, without the ones
/// before the given time, the newest first.
pub open spec fn finished(events: Seq<EventModel>, from: Seq<char>) -> Seq<EventModel> {
    event::newest_first(
        event::merged(events).filter(|e: EventModel| !text::text_lt(e.occurred_at, from)),
    )
}

/// Takes the comments in, drops what occurred before the given time, and sorts the events,
/// the newest first.
pub fn finish_feed(feed: &mut Feed, comments: Vec<Event>, from: &str)
    ensures
        final(feed)@ == (FeedModel {
            events: finished(old(feed)@.events + event::models(comments@), from@),
            ..old(feed)@
        }),
{
    merge_events(&mut feed.events, comments);
    prune_events_before(&mut feed.events, from);
    sort_events(&mut feed.events);
    assert(feed@ =~= (FeedModel { events: feed@.events, ..old(feed)@ }));
}

/// The files that a collection writes: the feed for the site and for the next collection,
/// and the report on candidates where there are any.
pub open spec fn collected_files(
    c: ConfigModel,
    paths: (Seq<char>, Seq<char>, Seq<char>),
    f: FeedModel,
    repos: Seq<Seq<char>>,
) -> Seq<(Seq<char>, Seq<char>)> {
    let text = feed::feed_text(f);
    let files = seq![(paths.0, text), (paths.1, text)];
    if repos.len() == 0 {
        files
    } else {
        files.push((paths.2, candidates::report(c, repos)))
    }
}

/// The files that a collection writes.
pub fn collect_files(
    config: &Config,
    options: &CollectOptions,
    feed: &Feed,
    candidates: &NameSet,
) -> (out: Vec<SiteFile>)
    ensures
        site::file_models(out@) == collected_files(
            config@,
            (options.out_path@, options.state_path@, options.candidates_path@),
            feed@,
            candidates.listing(),
        ),
{
    let mut out: Vec<SiteFile> = Vec::new();
    out.push(SiteFile { name: owned(options.out_path.as_str()), body: feed.to_json() });
    out.push(SiteFile { name: owned(options.state_path.as_str()), body: feed.to_json() });
    if !candidates.is_empty() {
        out.push(
            SiteFile {
                name: owned(options.candidates_path.as_str()),
                body: candidate_report(config, candidates),
            },
        );
    }
    assert(site::file_models(out@) =~= collected_files(
        config@,
        (options.out_path@, options.state_path@, options.candidates_path@),
        feed@,
        candidates.listing(),
    ));
    out
}

// ---------------------------------------------------------------------------
// Laws
// ---------------------------------------------------------------------------

/// Leaving events out keeps the order of the ids.
proof fn lemma_filter_ascending(events: Seq<EventModel>, keep: spec_fn(EventModel) -> bool)
    requires
        event::ids_ascending(events),
    ensures
        event::ids_ascending(events.filter(keep)),
    decreases events.len(),
{
    reveal(Seq::filter);
    if events.len() > 0 {
        let front = events.drop_last();
        let kept = front.filter(keep);
        assert(event::ids_ascending(front)) by {
            assert forall|i: int, j: int| 0 <= i < j < front.len() implies text::text_lt(
                (#[trigger] front[i]).id,
                (#[trigger] front[j]).id,
            ) by {
                assert(text::text_lt(events[i].id, events[j].id));
            }
        }
        lemma_filter_ascending(front, keep);
        let out = events.filter(keep);
        assert forall|i: int, j: int| 0 <= i < j < out.len() implies text::text_lt(
            (#[trigger] out[i]).id,
            (#[trigger] out[j]).id,
        ) by {
            assert(out[i] == kept[i]);
            if j < kept.len() {
                assert(out[j] == kept[j]);
            } else {
                assert(kept.contains(kept[i]));
                front.lemma_filter_contains_rev(keep, kept[i]);
                let p = choose|p: int| 0 <= p < front.len() && front[p] == kept[i];
                assert(text::text_lt(events[p].id, events[events.len() - 1].id));
            }
        }
    }
}

/// A feed at the end of a collection holds the last event of each id that is not before the
/// given time and no other, no id twice, and each event is newer than all that follow it.
pub proof fn lemma_finished(events: Seq<EventModel>, from: Seq<char>)
    ensures
        forall|e: EventModel| #[trigger]
            finished(events, from).contains(e) <==> event::by_id(events).dom().contains(e.id)
                && event::by_id(events)[e.id] == e && !text::text_lt(e.occurred_at, from),
        forall|i: int, j: int|
            0 <= i < j < finished(events, from).len() ==> (#[trigger] finished(events, from)[i]).id
                != (#[trigger] finished(events, from)[j]).id && event::newer(
                finished(events, from)[i],
                finished(events, from)[j],
            ),
{
    let merged = event::merged(events);
    event::lemma_merged(events);
    let keep = |e: EventModel| !text::text_lt(e.occurred_at, from);
    let kept = merged.filter(keep);
    let out = finished(events, from);
    lemma_filter_ascending(merged, keep);
    event::lemma_newest_first(kept);
    out.to_multiset_ensures();
    kept.to_multiset_ensures();
    assert forall|e: EventModel| #[trigger] out.contains(e) <==> event::by_id(
        events,
    ).dom().contains(e.id) && event::by_id(events)[e.id] == e && !text::text_lt(
        e.occurred_at,
        from,
    ) by {
        event::lemma_by_id_holds(merged, e);
        assert(out.to_multiset().count(e) == kept.to_multiset().count(e));
        if kept.contains(e) {
            merged.lemma_filter_contains_rev(keep, e);
            let i = choose|i: int| 0 <= i < kept.len() && kept[i] == e;
            merged.lemma_filter_pred(keep, i);
        }
        if merged.contains(e) && keep(e) {
            let i = choose|i: int| 0 <= i < merged.len() && merged[i] == e;
            merged.lemma_filter_contains(keep, i);
        }
    }
    assert(kept.no_duplicates()) by {
        assert forall|i: int, j: int|
            0 <= i < kept.len() && 0 <= j < kept.len() && i != j implies kept[i] != kept[j] by {
            if i < j {
                text::lemma_text_lt_asymmetric(kept[i].id, kept[j].id);
            } else {
                text::lemma_text_lt_asymmetric(kept[j].id, kept[i].id);
            }
        }
    }
    kept.lemma_multiset_has_no_duplicates();
    out.lemma_multiset_has_no_duplicates_conv();
    assert forall|i: int, j: int| 0 <= i < j < out.len() implies (#[trigger] out[i]).id != (
    #[trigger] out[j]).id && event::newer(out[i], out[j]) by {
        assert(out.contains(out[i]) && out.contains(out[j]));
        assert(kept.to_multiset().count(out[i]) > 0 && kept.to_multiset().count(out[j]) > 0);
        let p = choose|p: int| 0 <= p < kept.len() && kept[p] == out[i];
        let q = choose|q: int| 0 <= q < kept.len() && kept[q] == out[j];
        assert(p != q);
        if p < q {
            text::lemma_text_lt_asymmetric(kept[p].id, kept[q].id);
        } else {
            text::lemma_text_lt_asymmetric(kept[q].id, kept[p].id);
        }
        assert(!event::newer(out[j], out[i]));
        text::lemma_text_lt_total(out[i].occurred_at, out[j].occurred_at);
        text::lemma_text_lt_total(out[i].id, out[j].id);
    }
}

/// A feed at the end of a collection holds exactly the events that are not before the given
/// time and behind which no other event of their id comes, the newest on top.
pub proof fn lemma_finished_feed(events: Seq<EventModel>, from: Seq<char>)
    ensures
        event::newest_on_top(finished(events, from)),
        forall|i: int, j: int|
            0 <= i < j < finished(events, from).len() ==> (#[trigger] finished(events, from)[i]).id
                != (#[trigger] finished(events, from)[j]).id,
        forall|e: EventModel| #[trigger]
            finished(events, from).contains(e) <==> (e.occurred_at == from || text::text_lt(
                from,
                e.occurred_at,
            )) && exists|i: int|
                0 <= i < events.len() && #[trigger] events[i] == e && forall|j: int|
                    i < j < events.len() ==> (#[trigger] events[j]).id != e.id,
{
    lemma_finished(events, from);
    event::lemma_newest_on_top(
        event::merged(events).filter(|e: EventModel| !text::text_lt(e.occurred_at, from)),
    );
    event::lemma_merged(events);
    assert forall|e: EventModel| #[trigger] finished(events, from).contains(e) <==> (e.occurred_at
        == from || text::text_lt(from, e.occurred_at)) && exists|i: int|
        0 <= i < events.len() && #[trigger] events[i] == e && forall|j: int|
            i < j < events.len() ==> (#[trigger] events[j]).id != e.id by {
        event::lemma_last_counts(events, e);
        event::lemma_by_id_holds(event::merged(events), e);
        text::lemma_text_lt_total(e.occurred_at, from);
        text::lemma_text_lt_irreflexive(from);
        if text::text_lt(from, e.occurred_at) {
            text::lemma_text_lt_asymmetric(from, e.occurred_at);
        }
    }
}

/// A collection starts from the events that were written last, or from none, under the time
/// at which it starts. The user name is that of the last feed, or else of the configuration.
pub proof fn lemma_first_feed(c: ConfigModel, f: FeedModel, now: Seq<char>)
    ensures
        first_feed(c, Some(feed::feed_text(f)), now) == Ok::<FeedModel, Seq<char>>(
            FeedModel { generated_at: now, username: f.username, events: f.events },
        ),
        first_feed(c, None, now) == Ok::<FeedModel, Seq<char>>(
            FeedModel { generated_at: now, username: c.username, events: seq![] },
        ),
{
    round_trip::lemma_feed_round_trip(f);
}

/// A collection writes the same feed for the site and for the next collection, which both
/// read back as it was, and the report behind them where there are candidates.
pub proof fn lemma_collected_files(
    c: ConfigModel,
    paths: (Seq<char>, Seq<char>, Seq<char>),
    f: FeedModel,
    repos: Seq<Seq<char>>,
)
    ensures
        collected_files(c, paths, f, repos).len() == if repos.len() > 0 {
            3int
        } else {
            2int
        },
        collected_files(c, paths, f, repos)[0].0 == paths.0,
        collected_files(c, paths, f, repos)[1].0 == paths.1,
        feed::read_feed(collected_files(c, paths, f, repos)[0].1) == Ok::<FeedModel, Seq<char>>(f),
        feed::read_feed(collected_files(c, paths, f, repos)[1].1) == Ok::<FeedModel, Seq<char>>(f),
        repos.len() > 0 ==> collected_files(c, paths, f, repos)[2].0 == paths.2
            && collected_files(c, paths, f, repos)[2].1 == candidates::report(c, repos),
{
    round_trip::lemma_feed_round_trip(f);
}

} // verus!
