//! The page that shows a feed.

use crate::assets;
use crate::assets::bitcoin_logo_svg;
use crate::calendar;
use crate::calendar::short_date;
use crate::config::{Config, ConfigModel};
use crate::decimal;
use crate::event;
use crate::event::{is_newer, Event, EventModel};
use crate::feed::{Feed, FeedModel};
use crate::html;
use crate::html::{
    event_type_count_label, group_key, group_kind, group_title, html, html_attr, icon,
    row_title_cell, select, stat, status_badge,
};
use crate::names;
use crate::names::NameSet;
use crate::order;
use crate::text;
use crate::text::{
    owned, prefix_of_bytes, replace_char, same_text, text_less, trim_end_matches, Class,
};
use vstd::multiset::Multiset;
use vstd::prelude::*;

verus! {

// ---------------------------------------------------------------------------
// Summary
// ---------------------------------------------------------------------------

/// The repositories of events, in ascending order.
pub open spec fn repos_of(events: Seq<EventModel>) -> Seq<Seq<char>> {
    names::sorted_names(events.map_values(|e: EventModel| e.repo))
}

/// The types of events, in ascending order.
pub open spec fn types_of(events: Seq<EventModel>) -> Seq<Seq<char>> {
    names::sorted_names(events.map_values(|e: EventModel| e.event_type))
}

/// The year of an event: the first four bytes of its time, where they can be had.
pub open spec fn year_of(e: EventModel) -> Option<Seq<char>> {
    text::byte_prefix(e.occurred_at, 4)
}

/// The years of events, in the order of the events.
pub open spec fn years_in(events: Seq<EventModel>) -> Seq<Seq<char>>
    decreases events.len(),
{
    if events.len() == 0 {
        seq![]
    } else {
        let front = years_in(events.drop_last());
        match year_of(events.last()) {
            Some(year) => front.push(year),
            None => front,
        }
    }
}

/// The years of events, the last one first.
pub open spec fn years_of(events: Seq<EventModel>) -> Seq<Seq<char>> {
    names::sorted_names(years_in(events)).reverse()
}

/// How many events are of a type.
pub open spec fn type_count(events: Seq<EventModel>, kind: Seq<char>) -> nat {
    events.filter(|e: EventModel| e.event_type == kind).len()
}

/// The repositories of events.
fn event_repos(events: &[Event]) -> (out: NameSet)
    ensures
        out.listing() == repos_of(event::models(events@)),
{
    let mut list: Vec<String> = Vec::new();
    let ghost wanted = event::models(events@).map_values(|e: EventModel| e.repo);
    assert(text::texts(list@) =~= wanted.take(0));
    for i in 0..events.len()
        invariant
            wanted == event::models(events@).map_values(|e: EventModel| e.repo),
            text::texts(list@) == wanted.take(i as int),
    {
        let ghost before = text::texts(list@);
        list.push(owned(events[i].repo.as_str()));
        assert(text::texts(list@) =~= before.push(wanted[i as int]));
        assert(wanted.take(i + 1) =~= wanted.take(i as int).push(wanted[i as int]));
    }
    assert(wanted.take(wanted.len() as int) =~= wanted);
    NameSet::from_vec(list)
}

/// The types of events.
fn event_types(events: &[Event]) -> (out: NameSet)
    ensures
        out.listing() == types_of(event::models(events@)),
{
    let mut list: Vec<String> = Vec::new();
    let ghost wanted = event::models(events@).map_values(|e: EventModel| e.event_type);
    assert(text::texts(list@) =~= wanted.take(0));
    for i in 0..events.len()
        invariant
            wanted == event::models(events@).map_values(|e: EventModel| e.event_type),
            text::texts(list@) == wanted.take(i as int),
    {
        let ghost before = text::texts(list@);
        list.push(owned(events[i].event_type.as_str()));
        assert(text::texts(list@) =~= before.push(wanted[i as int]));
        assert(wanted.take(i + 1) =~= wanted.take(i as int).push(wanted[i as int]));
    }
    assert(wanted.take(wanted.len() as int) =~= wanted);
    NameSet::from_vec(list)
}

/// The years of events.
fn event_years(events: &[Event]) -> (out: NameSet)
    ensures
        out.listing() == names::sorted_names(years_in(event::models(events@))),
{
    let mut list: Vec<String> = Vec::new();
    let ghost all = event::models(events@);
    assert(all.take(0) =~= seq![]);
    assert(text::texts(list@) =~= seq![]);
    for i in 0..events.len()
        invariant
            all == event::models(events@),
            text::texts(list@) == years_in(all.take(i as int)),
    {
        let ghost before = text::texts(list@);
        assert(all.take(i + 1).drop_last() =~= all.take(i as int));
        assert(all[i as int] == events@[i as int]@);
        if let Some(year) = prefix_of_bytes(events[i].occurred_at.as_str(), 4) {
            let ghost added = year@;
            list.push(year);
            assert(text::texts(list@) =~= before.push(added));
        }
    }
    assert(all.take(all.len() as int) =~= all);
    NameSet::from_vec(list)
}

/// How many events are of a type.
fn count_type(events: &[Event], kind: &str) -> (n: usize)
    ensures
        n == type_count(event::models(events@), kind@),
{
    let ghost all = event::models(events@);
    let ghost keep = |e: EventModel| e.event_type == kind@;
    let mut n: usize = 0;
    reveal(Seq::filter);
    assert(all.take(0).filter(keep).len() == 0);
    for i in 0..events.len()
        invariant
            all == event::models(events@),
            keep == |e: EventModel| e.event_type == kind@,
            n == all.take(i as int).filter(keep).len(),
            n <= i,
    {
        reveal(Seq::filter);
        assert(all.take(i + 1).drop_last() =~= all.take(i as int));
        assert(all[i as int] == events@[i as int]@);
        if same_text(events[i].event_type.as_str(), kind) {
            n += 1;
        }
    }
    assert(all.take(all.len() as int) =~= all);
    n
}

/// The names of a set, in ascending order.
fn listed(set: &NameSet) -> (out: Vec<String>)
    ensures
        text::texts(out@) == set.listing(),
{
    let mut out: Vec<String> = Vec::new();
    let count: usize = set.len();
    let ghost all = set.listing();
    assert(text::texts(out@) =~= all.take(0));
    for i in 0..count
        invariant
            count == all.len(),
            all == set.listing(),
            text::texts(out@) == all.take(i as int),
    {
        let ghost before = text::texts(out@);
        out.push(owned(set.get(i)));
        assert(text::texts(out@) =~= before.push(all[i as int]));
        assert(all.take(i + 1) =~= all.take(i as int).push(all[i as int]));
    }
    assert(all.take(all.len() as int) =~= all);
    out
}

/// The names of a set, in descending order.
fn listed_back(set: &NameSet) -> (out: Vec<String>)
    ensures
        text::texts(out@) == set.listing().reverse(),
{
    let mut out: Vec<String> = Vec::new();
    let mut i: usize = set.len();
    let ghost all = set.listing();
    let ghost wanted = all.reverse();
    assert(text::texts(out@) =~= wanted.take(0));
    while i > 0
        invariant
            i <= all.len(),
            all == set.listing(),
            wanted == all.reverse(),
            text::texts(out@) == wanted.take(all.len() - i),
        decreases i,
    {
        i -= 1;
        let ghost before = text::texts(out@);
        let ghost k = all.len() - i - 1;
        out.push(owned(set.get(i)));
        assert(text::texts(out@) =~= before.push(all[i as int]));
        assert(wanted.take(k + 1) =~= wanted.take(k as int).push(wanted[k as int]));
    }
    assert(wanted.take(wanted.len() as int) =~= wanted);
    out
}

/// The numbers of events of each type.
pub open spec fn type_stats_html(events: Seq<EventModel>, kinds: Seq<Seq<char>>) -> Seq<char>
    decreases kinds.len(),
{
    if kinds.len() == 0 {
        seq![]
    } else {
        type_stats_html(events, kinds.drop_last()) + html::stat_html(
            html::count_label(kinds.last()),
            type_count(events, kinds.last()),
        )
    }
}

/// The summary: how many events and repositories there are, and how many events of each
/// type.
pub open spec fn stats_html(events: Seq<EventModel>) -> Seq<char> {
    "<section class=\"btc-stats\" aria-label=\"Contribution summary\">\n"@ + html::stat_html(
        "Events"@,
        events.len(),
    ) + html::stat_html("Repos"@, repos_of(events).len()) + type_stats_html(
        events,
        types_of(events),
    ) + "</section>\n"@
}

/// The summary.
fn write_stats(events: &[Event]) -> (out: String)
    ensures
        out@ == stats_html(event::models(events@)),
{
    let ghost all = event::models(events@);
    let mut out = owned("<section class=\"btc-stats\" aria-label=\"Contribution summary\">\n");
    stat(&mut out, "Events", events.len());
    stat(&mut out, "Repos", event_repos(events).len());
    let types = event_types(events);
    let count: usize = types.len();
    let ghost head = out@;
    let ghost kinds = types_of(all);
    assert(kinds.take(0) =~= seq![]);
    assert(head + type_stats_html(all, kinds.take(0)) =~= head);
    for i in 0..count
        invariant
            all == event::models(events@),
            count == kinds.len(),
            kinds == types.listing(),
            out@ == head + type_stats_html(all, kinds.take(i as int)),
    {
        assert(kinds.take(i + 1).drop_last() =~= kinds.take(i as int));
        let kind = types.get(i);
        stat(&mut out, event_type_count_label(kind), count_type(events, kind));
        assert(out@ =~= head + type_stats_html(all, kinds.take(i + 1)));
    }
    assert(kinds.take(kinds.len() as int) =~= kinds);
    out.append("</section>\n");
    out
}

/// The filters: by repository, by type and by year.
pub open spec fn filters_html(c: ConfigModel, events: Seq<EventModel>) -> Seq<char> {
    "<form class=\"btc-filters\" id=\"btc-filters\">\n"@ + html::select_html(
        "repo"@,
        "Repository"@,
        repos_of(events),
    ) + html::select_html("type"@, "Type"@, types_of(events)) + html::select_html(
        "year"@,
        "Year"@,
        years_of(events),
    ) + "<a class=\"btc-reset\" href=\""@ + html::attr_html(c.base_path)
        + "\">Reset</a></form>\n"@
}

/// The filters.
fn write_filters(config: &Config, events: &[Event]) -> (out: String)
    ensures
        out@ == filters_html(config@, event::models(events@)),
{
    let mut out = owned("<form class=\"btc-filters\" id=\"btc-filters\">\n");
    select(&mut out, "repo", "Repository", listed(&event_repos(events)).as_slice());
    select(&mut out, "type", "Type", listed(&event_types(events)).as_slice());
    select(&mut out, "year", "Year", listed_back(&event_years(events)).as_slice());
    out.append("<a class=\"btc-reset\" href=\"");
    out.append(html_attr(config.base_path.as_str()).as_str());
    out.append("\">Reset</a></form>\n");
    out
}

// ---------------------------------------------------------------------------
// Groups
// ---------------------------------------------------------------------------

/// The keys of events, in ascending order.
pub open spec fn keys_of(events: Seq<EventModel>) -> Seq<Seq<char>> {
    names::sorted_names(events.map_values(|e: EventModel| html::key_of(e)))
}

/// The events with a key, in their order.
pub open spec fn group_of(events: Seq<EventModel>, key: Seq<char>) -> Seq<EventModel> {
    events.filter(|e: EventModel| html::key_of(e) == key)
}

/// Whether a group comes before another one: that whose first event is later.
pub open spec fn group_before(a: Seq<EventModel>, b: Seq<EventModel>) -> bool {
    text::text_lt(b[0].occurred_at, a[0].occurred_at)
}

/// The groups of events by key. The group whose first event is the latest comes first, and
/// groups whose first events are of the same time stand in the order of their keys.
pub open spec fn groups_of(events: Seq<EventModel>) -> Seq<Seq<EventModel>> {
    order::sorted(
        keys_of(events).map_values(|key: Seq<char>| group_of(events, key)),
        |a: Seq<EventModel>, b: Seq<EventModel>| group_before(a, b),
    )
}

/// The values of groups.
pub open spec fn group_models(v: Seq<Vec<&Event>>) -> Seq<Seq<EventModel>> {
    v.map_values(|g: Vec<&Event>| html::referred(g@))
}

/// The keys of events.
fn event_keys(events: &[Event]) -> (out: NameSet)
    ensures
        out.listing() == keys_of(event::models(events@)),
{
    let mut list: Vec<String> = Vec::new();
    let ghost wanted = event::models(events@).map_values(|e: EventModel| html::key_of(e));
    assert(text::texts(list@) =~= wanted.take(0));
    for i in 0..events.len()
        invariant
            wanted == event::models(events@).map_values(|e: EventModel| html::key_of(e)),
            text::texts(list@) == wanted.take(i as int),
    {
        let ghost before = text::texts(list@);
        list.push(group_key(&events[i]));
        assert(text::texts(list@) =~= before.push(wanted[i as int]));
        assert(wanted.take(i + 1) =~= wanted.take(i as int).push(wanted[i as int]));
    }
    assert(wanted.take(wanted.len() as int) =~= wanted);
    NameSet::from_vec(list)
}

/// The events with a key.
fn events_with_key<'a>(events: &'a [Event], key: &str) -> (out: Vec<&'a Event>)
    ensures
        html::referred(out@) == group_of(event::models(events@), key@),
{
    let ghost all = event::models(events@);
    let ghost keep = |e: EventModel| html::key_of(e) == key@;
    let mut out: Vec<&Event> = Vec::new();
    reveal(Seq::filter);
    assert(html::referred(out@) =~= all.take(0).filter(keep));
    for i in 0..events.len()
        invariant
            all == event::models(events@),
            keep == |e: EventModel| html::key_of(e) == key@,
            html::referred(out@) == all.take(i as int).filter(keep),
    {
        reveal(Seq::filter);
        let ghost before = html::referred(out@);
        assert(all.take(i + 1).drop_last() =~= all.take(i as int));
        assert(all[i as int] == events@[i as int]@);
        if same_text(group_key(&events[i]).as_str(), key) {
            out.push(&events[i]);
            assert(html::referred(out@) =~= before.push(all[i as int]));
        }
    }
    assert(all.take(all.len() as int) =~= all);
    out
}

/// Every key has an event.
proof fn lemma_group_not_empty(events: Seq<EventModel>, key: Seq<char>)
    requires
        keys_of(events).contains(key),
    ensures
        group_of(events, key).len() > 0,
{
    let keys = events.map_values(|e: EventModel| html::key_of(e));
    let keep = |e: EventModel| html::key_of(e) == key;
    names::lemma_sorted_names(keys);
    assert(keys.contains(key));
    let i = choose|i: int| 0 <= i < keys.len() && keys[i] == key;
    assert(keep(events[i]));
    events.lemma_filter_contains(keep, i);
}

/// The groups of events.
fn grouped<'a>(events: &'a [Event]) -> (out: Vec<Vec<&'a Event>>)
    ensures
        group_models(out@) == groups_of(event::models(events@)),
        forall|i: int| 0 <= i < out@.len() ==> (#[trigger] out@[i])@.len() > 0,
{
    let ghost all = event::models(events@);
    let ghost before = |a: Seq<EventModel>, b: Seq<EventModel>| group_before(a, b);
    let ghost groups = keys_of(all).map_values(|key: Seq<char>| group_of(all, key));
    let keys = event_keys(events);
    let count: usize = keys.len();
    let mut out: Vec<Vec<&Event>> = Vec::new();
    assert(group_models(out@) =~= seq![]);
    for i in 0..count
        invariant
            all == event::models(events@),
            before == |a: Seq<EventModel>, b: Seq<EventModel>| group_before(a, b),
            groups == keys_of(all).map_values(|key: Seq<char>| group_of(all, key)),
            keys.listing() == keys_of(all),
            count == groups.len(),
            group_models(out@) == order::sorted(groups.take(i as int), before),
            forall|j: int| 0 <= j < out@.len() ==> (#[trigger] out@[j])@.len() > 0,
    {
        let ghost list = group_models(out@);
        assert(groups.take(i + 1).drop_last() =~= groups.take(i as int));
        let group = events_with_key(events, keys.get(i));
        let ghost model = html::referred(group@);
        assert(model == groups[i as int]);
        proof {
            assert(keys_of(all).contains(keys_of(all)[i as int]));
            lemma_group_not_empty(all, keys_of(all)[i as int]);
            assert(group@.len() > 0);
        }
        assert(model[0] == group@[0]@);
        let mut k: usize = out.len();
        while k > 0 && text_less(
            out[k - 1][0].occurred_at.as_str(),
            group[0].occurred_at.as_str(),
        )
            invariant
                k <= out@.len(),
                list == group_models(out@),
                group@.len() > 0,
                model == html::referred(group@),
                model[0] == group@[0]@,
                before == |a: Seq<EventModel>, b: Seq<EventModel>| group_before(a, b),
                forall|j: int| 0 <= j < out@.len() ==> (#[trigger] out@[j])@.len() > 0,
                forall|j: int| k <= j < list.len() ==> before(model, #[trigger] list[j]),
            decreases k,
        {
            assert(list[k - 1] == html::referred(out@[k - 1]@));
            assert(list[k - 1][0] == out@[k - 1]@[0]@);
            k -= 1;
        }
        proof {
            if k > 0 {
                assert(list[k - 1] == html::referred(out@[k - 1]@));
                assert(list[k - 1][0] == out@[k - 1]@[0]@);
            }
            order::lemma_place_is(list, model, before, k as int);
        }
        out.insert(k, group);
        assert(group_models(out@) =~= list.insert(k as int, model));
    }
    assert(groups.take(groups.len() as int) =~= groups);
    out
}

/// The events of a group, the newest first.
fn newest<'a>(group: &Vec<&'a Event>) -> (out: Vec<&'a Event>)
    ensures
        html::referred(out@) == event::newest_first(html::referred(group@)),
        out@.len() == group@.len(),
{
    let ghost before = |a: EventModel, b: EventModel| event::newer(a, b);
    let ghost all = html::referred(group@);
    let mut out: Vec<&Event> = Vec::new();
    assert(html::referred(out@) =~= seq![]);
    for i in 0..group.len()
        invariant
            all == html::referred(group@),
            before == |a: EventModel, b: EventModel| event::newer(a, b),
            html::referred(out@) == order::sorted(all.take(i as int), before),
            out@.len() == i,
    {
        let ghost list = html::referred(out@);
        assert(all.take(i + 1).drop_last() =~= all.take(i as int));
        let e = group[i];
        assert(all[i as int] == e@);
        let mut k: usize = out.len();
        while k > 0 && is_newer(e, out[k - 1])
            invariant
                k <= out@.len(),
                list == html::referred(out@),
                before == |a: EventModel, b: EventModel| event::newer(a, b),
                forall|j: int| k <= j < list.len() ==> before(e@, #[trigger] list[j]),
            decreases k,
        {
            assert(list[k - 1] == out@[k - 1]@);
            k -= 1;
        }
        assert(k > 0 ==> list[k - 1] == out@[k - 1]@);
        proof {
            order::lemma_place_is(list, e@, before, k as int);
        }
        out.insert(k, e);
        assert(html::referred(out@) =~= list.insert(k as int, e@));
    }
    assert(all.take(all.len() as int) =~= all);
    out
}

// ---------------------------------------------------------------------------
// Timeline
// ---------------------------------------------------------------------------

/// An event in the list of a group.
pub open spec fn item_html(e: EventModel) -> Seq<char> {
    "<li data-type=\""@ + html::attr_html(e.event_type) + "\" data-title=\""@ + html::attr_html(
        e.title,
    ) + "\" data-url=\""@ + html::attr_html(e.url) + "\"><span class=\"btc-detail-icon\">"@
        + html::sign(e.event_type) + "</span><time datetime=\""@ + html::attr_html(e.occurred_at)
        + "\">"@ + html::text_html(calendar::day_part(e.occurred_at))
        + "</time> <span class=\"btc-kind\">"@ + html::text_html(
        text::with_char_replaced(e.event_type, '_', ' '),
    ) + "</span> <a href=\""@ + html::attr_html(e.url) + "\">"@ + html::text_html(e.title)
        + "</a>"@ + html::badge_html(e.status) + "</li>\n"@
}

/// The events in the list of a group.
pub open spec fn items_html(group: Seq<EventModel>) -> Seq<char>
    decreases group.len(),
{
    if group.len() == 0 {
        seq![]
    } else {
        items_html(group.drop_last()) + item_html(group.last())
    }
}

/// The first line of a group, which the filters go by.
pub open spec fn details_html(group: Seq<EventModel>) -> Seq<char> {
    "<details class=\"btc-thread\" data-repo=\""@ + html::attr_html(group[0].repo)
        + "\" data-type=\""@ + html::attr_html(html::kind_of(group)) + "\" data-year=\""@
        + html::attr_html(
        match year_of(group[0]) {
            Some(year) => year,
            None => ""@,
        },
    ) + "\">\n"@
}

/// The row of a group.
pub open spec fn row_html(group: Seq<EventModel>) -> Seq<char> {
    "<summary><span class=\"btc-icon\">"@ + html::sign(html::kind_of(group)) + "</span>"@
        + html::title_cell_html(group, html::title_of(group)) + "<span class=\"btc-row-repo\">"@
        + html::text_html(group[0].repo)
        + "</span><time class=\"btc-row-date\" datetime=\""@ + html::attr_html(
        group[0].occurred_at,
    ) + "\">"@ + html::text_html(calendar::day_part(group[0].occurred_at))
        + "</time><span class=\"btc-row-kind\">"@ + html::text_html(
        text::with_char_replaced(html::kind_of(group), '_', ' '),
    ) + "</span></summary>\n"@
}

/// A group whose newest event stands first.
pub open spec fn group_html(group: Seq<EventModel>) -> Seq<char> {
    details_html(group) + row_html(group) + "<div class=\"btc-thread-detail\">\n<ul>\n"@
        + items_html(group) + "</ul></div></details>\n"@
}

/// Groups, in each of which the newest event stands first.
pub open spec fn groups_html(groups: Seq<Seq<EventModel>>) -> Seq<char>
    decreases groups.len(),
{
    if groups.len() == 0 {
        seq![]
    } else {
        groups_html(groups.drop_last()) + group_html(event::newest_first(groups.last()))
    }
}

/// The timeline.
pub open spec fn timeline_html(events: Seq<EventModel>) -> Seq<char> {
    "<div class=\"btc-timeline\" id=\"btc-timeline\">\n"@ + groups_html(groups_of(events))
}

/// An event in the list of a group.
fn write_item(e: &Event) -> (out: String)
    ensures
        out@ == item_html(e@),
{
    let mut out = owned("<li data-type=\"");
    out.append(html_attr(e.event_type.as_str()).as_str());
    out.append("\" data-title=\"");
    out.append(html_attr(e.title.as_str()).as_str());
    out.append("\" data-url=\"");
    out.append(html_attr(e.url.as_str()).as_str());
    out.append("\"><span class=\"btc-detail-icon\">");
    out.append(icon(e.event_type.as_str()));
    out.append("</span><time datetime=\"");
    out.append(html_attr(e.occurred_at.as_str()).as_str());
    out.append("\">");
    out.append(html(short_date(e.occurred_at.as_str()).as_str()).as_str());
    out.append("</time> <span class=\"btc-kind\">");
    out.append(html(replace_char(e.event_type.as_str(), '_', ' ').as_str()).as_str());
    out.append("</span> <a href=\"");
    out.append(html_attr(e.url.as_str()).as_str());
    out.append("\">");
    out.append(html(e.title.as_str()).as_str());
    out.append("</a>");
    out.append(status_badge(e.status.as_str()).as_str());
    out.append("</li>\n");
    out
}

/// The events in the list of a group.
fn write_items(group: &[&Event]) -> (out: String)
    ensures
        out@ == items_html(html::referred(group@)),
{
    let mut out = String::new();
    let ghost all = html::referred(group@);
    assert(all.take(0) =~= seq![]);
    for i in 0..group.len()
        invariant
            all == html::referred(group@),
            out@ == items_html(all.take(i as int)),
    {
        assert(all.take(i + 1).drop_last() =~= all.take(i as int));
        assert(all[i as int] == group@[i as int]@);
        out.append(write_item(group[i]).as_str());
    }
    assert(all.take(all.len() as int) =~= all);
    out
}

/// The first line of a group.
fn write_details(group: &[&Event], kind: &str) -> (out: String)
    requires
        group@.len() > 0,
        kind@ == html::kind_of(html::referred(group@)),
    ensures
        out@ == details_html(html::referred(group@)),
{
    assert(html::referred(group@)[0] == group@[0]@);
    let year = match prefix_of_bytes(group[0].occurred_at.as_str(), 4) {
        Some(year) => year,
        None => owned(""),
    };
    let mut out = owned("<details class=\"btc-thread\" data-repo=\"");
    out.append(html_attr(group[0].repo.as_str()).as_str());
    out.append("\" data-type=\"");
    out.append(html_attr(kind).as_str());
    out.append("\" data-year=\"");
    out.append(html_attr(year.as_str()).as_str());
    out.append("\">\n");
    out
}

/// The row of a group.
fn write_row(group: &[&Event], kind: &str) -> (out: String)
    requires
        group@.len() > 0,
        kind@ == html::kind_of(html::referred(group@)),
    ensures
        out@ == row_html(html::referred(group@)),
{
    assert(html::referred(group@)[0] == group@[0]@);
    let mut out = owned("<summary><span class=\"btc-icon\">");
    out.append(icon(kind));
    out.append("</span>");
    out.append(row_title_cell(group, group_title(group).as_str()).as_str());
    out.append("<span class=\"btc-row-repo\">");
    out.append(html(group[0].repo.as_str()).as_str());
    out.append("</span><time class=\"btc-row-date\" datetime=\"");
    out.append(html_attr(group[0].occurred_at.as_str()).as_str());
    out.append("\">");
    out.append(html(short_date(group[0].occurred_at.as_str()).as_str()).as_str());
    out.append("</time><span class=\"btc-row-kind\">");
    out.append(html(replace_char(kind, '_', ' ').as_str()).as_str());
    out.append("</span></summary>\n");
    out
}

/// A group whose newest event stands first.
fn write_group(group: &[&Event]) -> (out: String)
    requires
        group@.len() > 0,
    ensures
        out@ == group_html(html::referred(group@)),
{
    let kind = group_kind(group);
    let mut out = write_details(group, kind.as_str());
    out.append(write_row(group, kind.as_str()).as_str());
    out.append("<div class=\"btc-thread-detail\">\n<ul>\n");
    out.append(write_items(group).as_str());
    out.append("</ul></div></details>\n");
    out
}

/// A group, with its newest event first.
fn write_newest(group: &Vec<&Event>) -> (out: String)
    requires
        group@.len() > 0,
    ensures
        out@ == group_html(event::newest_first(html::referred(group@))),
{
    let sorted = newest(group);
    write_group(sorted.as_slice())
}

/// The timeline.
fn write_timeline(events: &[Event]) -> (out: String)
    ensures
        out@ == timeline_html(event::models(events@)),
{
    let mut out = owned("<div class=\"btc-timeline\" id=\"btc-timeline\">\n");
    let groups = grouped(events);
    let ghost head = out@;
    let ghost all = group_models(groups@);
    assert(all.take(0) =~= seq![]);
    assert(head + groups_html(all.take(0)) =~= head);
    for i in 0..groups.len()
        invariant
            all == group_models(groups@),
            forall|j: int| 0 <= j < groups@.len() ==> (#[trigger] groups@[j])@.len() > 0,
            out@ == head + groups_html(all.take(i as int)),
    {
        assert(all.take(i + 1).drop_last() =~= all.take(i as int));
        assert(all[i as int] == html::referred(groups@[i as int]@));
        let ghost sofar = groups_html(all.take(i as int));
        let part = write_newest(&groups[i]);
        out.append(part.as_str());
        assert(out@ =~= head + (sofar + part@));
    }
    assert(all.take(all.len() as int) =~= all);
    out
}

// ---------------------------------------------------------------------------
// Page
// ---------------------------------------------------------------------------

/// The head of the page.
pub open spec fn head_html(c: ConfigModel) -> Seq<char> {
    "<!DOCTYPE html>\n<html lang=\"en\" data-theme=\"bitcoin\"><head><meta charset=\"UTF-8\">\n<meta name=\"viewport\" content=\"width=device-width, initial-scale=1\">\n<link rel=\"icon\" type=\"image/svg+xml\" href=\"https://upload.wikimedia.org/wikipedia/commons/4/46/Bitcoin.svg\">\n<link rel=\"canonical\" href=\""@
        + html::attr_html(text::trim_back(c.site_root, Class::Only('/'))) + html::attr_html(
        c.base_path,
    ) + "\">\n<link rel=\"stylesheet\" href=\""@ + html::attr_html(c.base_path)
        + "theme-bitcoin.css\">\n<link rel=\"stylesheet\" href=\""@ + html::attr_html(c.base_path)
        + "btc_foss.css\">\n<title>"@ + html::text_html(c.title) + "</title></head><body>\n"@
}

/// The header of the page and its title.
pub open spec fn header_html(c: ConfigModel) -> Seq<char> {
    "<header><div class=\"markdown-heading\"><h1 class=\"heading-element\">"@ + html::text_html(
        c.username,
    ) + "</h1></div><p><a href=\"https://github.com/"@ + html::attr_html(c.username)
        + "\">GitHub</a><a href=\""@ + html::attr_html(c.base_path)
        + "feed.json\">Feed JSON</a></p></header>\n<main class=\"btc-page\">\n<h1>"@
        + assets::BITCOIN_LOGO@ + html::text_html(c.title) + "</h1>\n"@
}

/// Whose activity the page shows, and from when.
pub open spec fn intro_html(c: ConfigModel, f: FeedModel) -> Seq<char> {
    "<p class=\"btc-muted\">Public GitHub activity for <a href=\"https://github.com/"@
        + html::attr_html(f.username) + "\">"@ + html::attr_html(f.username)
        + "</a>. Updated <time datetime=\""@ + html::attr_html(f.generated_at) + "\">"@
        + html::attr_html(f.generated_at) + "</time>. <a href=\""@ + html::attr_html(c.base_path)
        + "feed.json\">feed.json</a></p>\n"@
}

/// The foot of the page.
pub open spec fn foot_html(c: ConfigModel) -> Seq<char> {
    "</div></main><footer><p><a href=\"https://github.com/"@ + html::attr_html(c.username)
        + "\">"@ + html::text_html(c.username) + "</a> - <a href=\""@ + html::attr_html(c.base_path)
        + "feed.json\">feed.json</a></p></footer>\n<script defer src=\""@ + html::attr_html(
        c.base_path,
    ) + "btc_foss.js\"></script>\n</body></html>\n"@
}

/// The page.
pub open spec fn page_html(c: ConfigModel, f: FeedModel) -> Seq<char> {
    head_html(c) + header_html(c) + intro_html(c, f) + stats_html(f.events) + filters_html(
        c,
        f.events,
    ) + timeline_html(f.events) + foot_html(c)
}

/// The head of the page.
fn write_head(config: &Config) -> (out: String)
    ensures
        out@ == head_html(config@),
{
    let base = html_attr(config.base_path.as_str());
    let root = trim_end_matches(config.site_root.as_str(), Class::Only('/'));
    let mut out = owned(
        "<!DOCTYPE html>\n<html lang=\"en\" data-theme=\"bitcoin\"><head><meta charset=\"UTF-8\">\n<meta name=\"viewport\" content=\"width=device-width, initial-scale=1\">\n<link rel=\"icon\" type=\"image/svg+xml\" href=\"https://upload.wikimedia.org/wikipedia/commons/4/46/Bitcoin.svg\">\n<link rel=\"canonical\" href=\"",
    );
    out.append(html_attr(root.as_str()).as_str());
    out.append(base.as_str());
    out.append("\">\n<link rel=\"stylesheet\" href=\"");
    out.append(base.as_str());
    out.append("theme-bitcoin.css\">\n<link rel=\"stylesheet\" href=\"");
    out.append(base.as_str());
    out.append("btc_foss.css\">\n<title>");
    out.append(html(config.title.as_str()).as_str());
    out.append("</title></head><body>\n");
    out
}

/// The header of the page and its title.
fn write_header(config: &Config) -> (out: String)
    ensures
        out@ == header_html(config@),
{
    let mut out = owned(
        "<header><div class=\"markdown-heading\"><h1 class=\"heading-element\">",
    );
    out.append(html(config.username.as_str()).as_str());
    out.append("</h1></div><p><a href=\"https://github.com/");
    out.append(html_attr(config.username.as_str()).as_str());
    out.append("\">GitHub</a><a href=\"");
    out.append(html_attr(config.base_path.as_str()).as_str());
    out.append("feed.json\">Feed JSON</a></p></header>\n<main class=\"btc-page\">\n<h1>");
    out.append(bitcoin_logo_svg());
    out.append(html(config.title.as_str()).as_str());
    out.append("</h1>\n");
    out
}

/// Whose activity the page shows, and from when.
fn write_intro(config: &Config, feed: &Feed) -> (out: String)
    ensures
        out@ == intro_html(config@, feed@),
{
    let user = html_attr(feed.username.as_str());
    let time = html_attr(feed.generated_at.as_str());
    let mut out = owned(
        "<p class=\"btc-muted\">Public GitHub activity for <a href=\"https://github.com/",
    );
    out.append(user.as_str());
    out.append("\">");
    out.append(user.as_str());
    out.append("</a>. Updated <time datetime=\"");
    out.append(time.as_str());
    out.append("\">");
    out.append(time.as_str());
    out.append("</time>. <a href=\"");
    out.append(html_attr(config.base_path.as_str()).as_str());
    out.append("feed.json\">feed.json</a></p>\n");
    out
}

/// The foot of the page.
fn write_foot(config: &Config) -> (out: String)
    ensures
        out@ == foot_html(config@),
{
    let base = html_attr(config.base_path.as_str());
    let mut out = owned("</div></main><footer><p><a href=\"https://github.com/");
    out.append(html_attr(config.username.as_str()).as_str());
    out.append("\">");
    out.append(html(config.username.as_str()).as_str());
    out.append("</a> - <a href=\"");
    out.append(base.as_str());
    out.append("feed.json\">feed.json</a></p></footer>\n<script defer src=\"");
    out.append(base.as_str());
    out.append("btc_foss.js\"></script>\n</body></html>\n");
    out
}

/// The page that shows a feed.
pub fn render_html(config: &Config, feed: &Feed) -> (out: String)
    ensures
        out@ == page_html(config@, feed@),
{
    let events = feed.events.as_slice();
    let mut out = write_head(config);
    out.append(write_header(config).as_str());
    out.append(write_intro(config, feed).as_str());
    out.append(write_stats(events).as_str());
    out.append(write_filters(config, events).as_str());
    out.append(write_timeline(events).as_str());
    out.append(write_foot(config).as_str());
    out
}

// ---------------------------------------------------------------------------
// Laws
// ---------------------------------------------------------------------------

/// The events of groups taken together.
pub open spec fn together(groups: Seq<Seq<EventModel>>) -> Multiset<EventModel>
    decreases groups.len(),
{
    if groups.len() == 0 {
        Multiset::empty()
    } else {
        together(groups.drop_last()).add(groups.last().to_multiset())
    }
}

/// A group counts the same wherever it stands.
proof fn lemma_together_insert(groups: Seq<Seq<EventModel>>, group: Seq<EventModel>, k: int)
    requires
        0 <= k <= groups.len(),
    ensures
        together(groups.insert(k, group)) == together(groups).add(group.to_multiset()),
    decreases groups.len(),
{
    let all = groups.insert(k, group);
    if k == groups.len() {
        assert(all.drop_last() =~= groups);
    } else {
        assert(all.drop_last() =~= groups.drop_last().insert(k, group));
        assert(all.last() == groups.last());
        lemma_together_insert(groups.drop_last(), group, k);
        assert(together(all) =~= together(groups).add(group.to_multiset()));
    }
}

/// Sorting groups keeps their events.
proof fn lemma_together_sorted(
    groups: Seq<Seq<EventModel>>,
    before: spec_fn(Seq<EventModel>, Seq<EventModel>) -> bool,
)
    ensures
        together(order::sorted(groups, before)) == together(groups),
    decreases groups.len(),
{
    if groups.len() > 0 {
        let front = order::sorted(groups.drop_last(), before);
        lemma_together_sorted(groups.drop_last(), before);
        order::lemma_place(front, groups.last(), before);
        lemma_together_insert(
            front,
            groups.last(),
            order::place(front, groups.last(), before) as int,
        );
    }
}

/// A filter keeps every occurrence of what it lets through.
proof fn lemma_filter_count(
    events: Seq<EventModel>,
    keep: spec_fn(EventModel) -> bool,
    e: EventModel,
)
    ensures
        events.filter(keep).to_multiset().count(e) == if keep(e) {
            events.to_multiset().count(e)
        } else {
            0
        },
    decreases events.len(),
{
    reveal(Seq::filter);
    events.to_multiset_ensures();
    if events.len() == 0 {
        assert(events.filter(keep) =~= events);
    } else {
        let front = events.drop_last();
        lemma_filter_count(front, keep, e);
        front.to_multiset_ensures();
        front.filter(keep).to_multiset_ensures();
        assert(events =~= front.push(events.last()));
    }
}

/// An event stands in the group of its key and in no other.
proof fn lemma_one_group(events: Seq<EventModel>, keys: Seq<Seq<char>>, e: EventModel)
    requires
        names::ascending(keys),
    ensures
        together(keys.map_values(|key: Seq<char>| group_of(events, key))).count(e)
            == if keys.contains(html::key_of(e)) {
            events.to_multiset().count(e)
        } else {
            0
        },
    decreases keys.len(),
{
    let f = |key: Seq<char>| group_of(events, key);
    let groups = keys.map_values(f);
    if keys.len() > 0 {
        let front = keys.drop_last();
        let last = keys.last();
        let key = html::key_of(e);
        assert(names::ascending(front)) by {
            assert forall|i: int, j: int| 0 <= i < j < front.len() implies text::text_lt(
                #[trigger] front[i],
                #[trigger] front[j],
            ) by {
                assert(text::text_lt(keys[i], keys[j]));
            }
        }
        lemma_one_group(events, front, e);
        assert(groups.drop_last() =~= front.map_values(f));
        assert(groups.last() == group_of(events, last));
        lemma_filter_count(events, |x: EventModel| html::key_of(x) == last, e);
        if front.contains(key) {
            let i = choose|i: int| 0 <= i < front.len() && front[i] == key;
            assert(text::text_lt(keys[i], keys[keys.len() - 1]));
            text::lemma_text_lt_irreflexive(key);
            assert(keys[i] == key);
        }
        if keys.contains(key) && key != last {
            let i = choose|i: int| 0 <= i < keys.len() && keys[i] == key;
            assert(front[i] == key);
        }
        if key == last {
            assert(keys[keys.len() - 1] == key);
        }
    }
}

/// The timeline shows every event of the feed exactly once: the groups together hold the
/// events of the feed, each group is that of one repository and day, and no group whose
/// first event is later stands behind another.
pub proof fn lemma_groups(events: Seq<EventModel>)
    ensures
        together(groups_of(events)) == events.to_multiset(),
        forall|i: int|
            0 <= i < groups_of(events).len() ==> exists|key: Seq<char>|
                keys_of(events).contains(key) && #[trigger] groups_of(events)[i]
                    == #[trigger] group_of(events, key) && group_of(events, key).len() > 0,
        forall|i: int, j: int|
            0 <= i < j < groups_of(events).len() ==> !group_before(
                #[trigger] groups_of(events)[j],
                #[trigger] groups_of(events)[i],
            ),
{
    let before = |a: Seq<EventModel>, b: Seq<EventModel>| group_before(a, b);
    let keys = keys_of(events);
    let named = events.map_values(|e: EventModel| html::key_of(e));
    let groups = keys.map_values(|key: Seq<char>| group_of(events, key));
    let out = groups_of(events);
    names::lemma_sorted_names(named);
    lemma_together_sorted(groups, before);
    assert forall|e: EventModel| together(out).count(e) == events.to_multiset().count(e) by {
        lemma_one_group(events, keys, e);
        events.to_multiset_ensures();
        if events.contains(e) {
            let i = choose|i: int| 0 <= i < events.len() && events[i] == e;
            assert(named[i] == html::key_of(e));
            assert(named.contains(html::key_of(e)));
        }
    }
    assert(together(out) =~= events.to_multiset());
    lemma_group_before_is_order();
    order::lemma_sorted(groups, before);
    out.to_multiset_ensures();
    groups.to_multiset_ensures();
    assert forall|i: int| 0 <= i < out.len() implies exists|key: Seq<char>|
        keys.contains(key) && #[trigger] out[i] == #[trigger] group_of(events, key) && group_of(
            events,
            key,
        ).len() > 0 by {
        assert(out.contains(out[i]));
        assert(out.to_multiset().count(out[i]) == groups.to_multiset().count(out[i]));
        let k = choose|k: int| 0 <= k < groups.len() && groups[k] == out[i];
        assert(keys.contains(keys[k]));
        lemma_group_not_empty(events, keys[k]);
        assert(out[i] == group_of(events, keys[k]));
    }
    assert forall|i: int, j: int| 0 <= i < j < out.len() implies !group_before(
        #[trigger] out[j],
        #[trigger] out[i],
    ) by {
        assert(!before(out[j], out[i]));
    }
}

/// The order of groups is one.
proof fn lemma_group_before_is_order()
    ensures
        order::is_order(|a: Seq<EventModel>, b: Seq<EventModel>| group_before(a, b)),
{
    let before = |a: Seq<EventModel>, b: Seq<EventModel>| group_before(a, b);
    assert forall|a: Seq<EventModel>, b: Seq<EventModel>| #[trigger] before(a, b) implies !before(
        b,
        a,
    ) by {
        text::lemma_text_lt_asymmetric(b[0].occurred_at, a[0].occurred_at);
    }
    assert forall|a: Seq<EventModel>, b: Seq<EventModel>, c: Seq<EventModel>|
        #![trigger before(a, c), before(a, b)]
        before(a, c) implies before(a, b) || before(b, c) by {
        text::lemma_text_lt_total(a[0].occurred_at, b[0].occurred_at);
        text::lemma_text_lt_total(b[0].occurred_at, c[0].occurred_at);
        if text::text_lt(a[0].occurred_at, b[0].occurred_at) {
            text::lemma_text_lt_transitive(
                c[0].occurred_at,
                a[0].occurred_at,
                b[0].occurred_at,
            );
        }
    }
}

// ---------------------------------------------------------------------------
// Laws of the summary
// ---------------------------------------------------------------------------

/// The number of events of a type grows by one with each event of that type and with no
/// other, from zero on.
pub proof fn lemma_type_count(events: Seq<EventModel>, e: EventModel, kind: Seq<char>)
    ensures
        type_count(seq![], kind) == 0,
        type_count(events.push(e), kind) == type_count(events, kind) + (if e.event_type == kind {
            1nat
        } else {
            0nat
        }),
{
    reveal(Seq::filter);
    assert(events.push(e).drop_last() =~= events);
}

/// The events of each type of a list, added up.
pub open spec fn counts_together(events: Seq<EventModel>, kinds: Seq<Seq<char>>) -> nat
    decreases kinds.len(),
{
    if kinds.len() == 0 {
        0
    } else {
        counts_together(events, kinds.drop_last()) + type_count(events, kinds.last())
    }
}

/// A further event counts once, under its type.
proof fn lemma_counts_push(events: Seq<EventModel>, e: EventModel, kinds: Seq<Seq<char>>)
    requires
        names::ascending(kinds),
    ensures
        counts_together(events.push(e), kinds) == counts_together(events, kinds) + (
        if kinds.contains(e.event_type) {
            1nat
        } else {
            0nat
        }),
    decreases kinds.len(),
{
    if kinds.len() > 0 {
        let front = kinds.drop_last();
        let last = kinds.last();
        let kind = e.event_type;
        assert(names::ascending(front)) by {
            assert forall|i: int, j: int| 0 <= i < j < front.len() implies text::text_lt(
                #[trigger] front[i],
                #[trigger] front[j],
            ) by {
                assert(text::text_lt(kinds[i], kinds[j]));
            }
        }
        lemma_counts_push(events, e, front);
        lemma_type_count(events, e, last);
        assert(kinds[kinds.len() - 1] == last);
        if front.contains(kind) {
            let i = choose|i: int| 0 <= i < front.len() && front[i] == kind;
            assert(kinds[i] == kind);
            assert(text::text_lt(kinds[i], kinds[kinds.len() - 1]));
            text::lemma_text_lt_irreflexive(kind);
        }
        if kinds.contains(kind) && kind != last {
            let i = choose|i: int| 0 <= i < kinds.len() && kinds[i] == kind;
            assert(front[i] == kind);
        }
    }
}

/// Where a list of types has the types of all events, the numbers of events of its types add
/// up to the number of events.
proof fn lemma_counts_total(events: Seq<EventModel>, kinds: Seq<Seq<char>>)
    requires
        names::ascending(kinds),
        forall|i: int| 0 <= i < events.len() ==> kinds.contains((#[trigger] events[i]).event_type),
    ensures
        counts_together(events, kinds) == events.len(),
    decreases events.len(),
{
    if events.len() == 0 {
        lemma_no_counts(kinds);
        assert(events =~= seq![]);
    } else {
        let front = events.drop_last();
        assert forall|i: int| 0 <= i < front.len() implies kinds.contains(
            (#[trigger] front[i]).event_type,
        ) by {
            assert(kinds.contains(events[i].event_type));
        }
        lemma_counts_total(front, kinds);
        assert(kinds.contains(events[events.len() - 1].event_type));
        lemma_counts_push(front, events.last(), kinds);
        assert(front.push(events.last()) =~= events);
    }
}

proof fn lemma_no_counts(kinds: Seq<Seq<char>>)
    ensures
        counts_together(seq![], kinds) == 0,
    decreases kinds.len(),
{
    if kinds.len() > 0 {
        lemma_no_counts(kinds.drop_last());
        reveal(Seq::filter);
    }
}

/// The numbers of events of all types that the summary shows add up to the number of events.
pub proof fn lemma_counts_add_up(events: Seq<EventModel>)
    ensures
        counts_together(events, types_of(events)) == events.len(),
{
    lemma_types_of(events);
    lemma_counts_total(events, types_of(events));
}

/// The types that are shown are those of the events, each once and in ascending order.
pub proof fn lemma_types_of(events: Seq<EventModel>)
    ensures
        names::ascending(types_of(events)),
        forall|i: int|
            0 <= i < events.len() ==> types_of(events).contains((#[trigger] events[i]).event_type),
        forall|kind: Seq<char>| #[trigger]
            types_of(events).contains(kind) ==> exists|i: int|
                0 <= i < events.len() && (#[trigger] events[i]).event_type == kind,
{
    let all = events.map_values(|e: EventModel| e.event_type);
    names::lemma_sorted_names(all);
    assert forall|i: int| 0 <= i < events.len() implies types_of(events).contains(
        (#[trigger] events[i]).event_type,
    ) by {
        assert(all[i] == events[i].event_type);
    }
    assert forall|kind: Seq<char>| #[trigger] types_of(events).contains(kind) implies exists|
        i: int,
    | 0 <= i < events.len() && (#[trigger] events[i]).event_type == kind by {
        let i = choose|i: int| 0 <= i < all.len() && all[i] == kind;
        assert(events[i].event_type == kind);
    }
}

/// The repositories that are shown are those of the events, each once and in ascending order.
pub proof fn lemma_repos_of(events: Seq<EventModel>)
    ensures
        names::ascending(repos_of(events)),
        forall|i: int|
            0 <= i < events.len() ==> repos_of(events).contains((#[trigger] events[i]).repo),
        forall|repo: Seq<char>| #[trigger]
            repos_of(events).contains(repo) ==> exists|i: int|
                0 <= i < events.len() && (#[trigger] events[i]).repo == repo,
{
    let all = events.map_values(|e: EventModel| e.repo);
    names::lemma_sorted_names(all);
    assert forall|i: int| 0 <= i < events.len() implies repos_of(events).contains(
        (#[trigger] events[i]).repo,
    ) by {
        assert(all[i] == events[i].repo);
    }
    assert forall|repo: Seq<char>| #[trigger] repos_of(events).contains(repo) implies exists|
        i: int,
    | 0 <= i < events.len() && (#[trigger] events[i]).repo == repo by {
        let i = choose|i: int| 0 <= i < all.len() && all[i] == repo;
        assert(events[i].repo == repo);
    }
}

/// What one of two texts holds, both hold together.
proof fn lemma_either(a: Seq<char>, b: Seq<char>, needle: Seq<char>)
    ensures
        text::has_text(a, needle) || text::has_text(b, needle) ==> text::has_text(a + b, needle),
{
    if text::has_text(a, needle) {
        text::lemma_has_text_in(seq![], a, b, needle);
    }
    if text::has_text(b, needle) {
        text::lemma_has_text_in(a, b, seq![], needle);
    }
}

/// How the page is put together.
proof fn lemma_page_parts(c: ConfigModel, f: FeedModel, needle: Seq<char>)
    ensures
        text::has_text(head_html(c), needle) || text::has_text(header_html(c), needle)
            || text::has_text(intro_html(c, f), needle) || text::has_text(
            stats_html(f.events),
            needle,
        ) || text::has_text(filters_html(c, f.events), needle) || text::has_text(
            timeline_html(f.events),
            needle,
        ) || text::has_text(foot_html(c), needle) ==> text::has_text(page_html(c, f), needle),
{
    let (p1, p2, p3) = (head_html(c), header_html(c), intro_html(c, f));
    let (p4, p5) = (stats_html(f.events), filters_html(c, f.events));
    let (p6, p7) = (timeline_html(f.events), foot_html(c));
    lemma_either(p1, p2, needle);
    lemma_either(p1 + p2, p3, needle);
    lemma_either(p1 + p2 + p3, p4, needle);
    lemma_either(p1 + p2 + p3 + p4, p5, needle);
    lemma_either(p1 + p2 + p3 + p4 + p5, p6, needle);
    lemma_either(p1 + p2 + p3 + p4 + p5 + p6, p7, needle);
}

/// The text that shows a number with its label in the summary.
pub open spec fn shown_number(n: nat, label: Seq<char>) -> Seq<char> {
    "<div><strong>"@ + decimal::decimal(n) + "</strong><span>"@ + label + "</span></div>\n"@
}

/// The numbers of the types behind others stand behind those of the others.
proof fn lemma_type_stats_concat(
    events: Seq<EventModel>,
    a: Seq<Seq<char>>,
    b: Seq<Seq<char>>,
)
    ensures
        type_stats_html(events, a + b) == type_stats_html(events, a) + type_stats_html(events, b),
    decreases b.len(),
{
    if b.len() == 0 {
        assert(a + b =~= a);
        assert(type_stats_html(events, a) + type_stats_html(events, b) =~= type_stats_html(
            events,
            a,
        ));
    } else {
        lemma_type_stats_concat(events, a, b.drop_last());
        assert((a + b).drop_last() =~= a + b.drop_last());
        assert(type_stats_html(events, a + b) =~= type_stats_html(events, a) + type_stats_html(
            events,
            b,
        ));
    }
}

/// The summary shows the number of events of a type under the name of the type.
proof fn lemma_shows_type(events: Seq<EventModel>, kind: Seq<char>)
    requires
        types_of(events).contains(kind),
    ensures
        text::has_text(
            stats_html(events),
            html::stat_html(html::count_label(kind), type_count(events, kind)),
        ),
{
    let kinds = types_of(events);
    let i = choose|i: int| 0 <= i < kinds.len() && kinds[i] == kind;
    let one = html::stat_html(html::count_label(kind), type_count(events, kind));
    let before = kinds.take(i);
    let after = kinds.skip(i + 1);
    reveal_with_fuel(type_stats_html, 2);
    assert(seq![kind].drop_last() =~= seq![]);
    assert(type_stats_html(events, seq![kind]) =~= one);
    lemma_type_stats_concat(events, before, seq![kind]);
    lemma_type_stats_concat(events, before + seq![kind], after);
    assert(before + seq![kind] + after =~= kinds);
    let a = "<section class=\"btc-stats\" aria-label=\"Contribution summary\">\n"@
        + html::stat_html("Events"@, events.len()) + html::stat_html(
        "Repos"@,
        repos_of(events).len(),
    );
    let d = "</section>\n"@;
    assert(stats_html(events) =~= (a + type_stats_html(events, before)) + one + (type_stats_html(
        events,
        after,
    ) + d));
    text::lemma_has_text(stats_html(events), one);
}

/// The page shows the number of all events, the number of repositories, and for each type
/// that occurs the number of events of that type.
pub proof fn lemma_page_shows_numbers(c: ConfigModel, f: FeedModel, e: EventModel)
    ensures
        text::has_text(page_html(c, f), shown_number(f.events.len(), "Events"@)),
        text::has_text(page_html(c, f), shown_number(repos_of(f.events).len(), "Repos"@)),
        f.events.contains(e) ==> {
            let n = f.events.filter(|x: EventModel| x.event_type == e.event_type).len();
            &&& e.event_type == "pull_request"@ ==> text::has_text(
                page_html(c, f),
                shown_number(n, "pull requests"@),
            )
            &&& e.event_type == "issue"@ ==> text::has_text(
                page_html(c, f),
                shown_number(n, "issues"@),
            )
            &&& e.event_type == "commit"@ ==> text::has_text(
                page_html(c, f),
                shown_number(n, "commits"@),
            )
            &&& e.event_type == "review"@ ==> text::has_text(
                page_html(c, f),
                shown_number(n, "reviews"@),
            )
            &&& e.event_type == "comment"@ ==> text::has_text(
                page_html(c, f),
                shown_number(n, "comments"@),
            )
        },
{
    let events = f.events;
    lemma_stats_head(events);
    lemma_plain_label("Events"@);
    lemma_plain_label("Repos"@);
    lemma_page_parts(c, f, shown_number(events.len(), "Events"@));
    lemma_page_parts(c, f, shown_number(repos_of(events).len(), "Repos"@));
    if events.contains(e) {
        lemma_page_shows_type(c, f, e);
        lemma_count_is_filter(events, e.event_type);
        html::lemma_count_labels();
        lemma_plain_label("pull requests"@);
        lemma_plain_label("issues"@);
        lemma_plain_label("commits"@);
        lemma_plain_label("reviews"@);
        lemma_plain_label("comments"@);
    }
}

/// The summary starts with the numbers of events and of repositories.
proof fn lemma_stats_head(events: Seq<EventModel>)
    ensures
        text::has_text(stats_html(events), html::stat_html("Events"@, events.len())),
        text::has_text(stats_html(events), html::stat_html("Repos"@, repos_of(events).len())),
{
    let first = "<section class=\"btc-stats\" aria-label=\"Contribution summary\">\n"@;
    let total = html::stat_html("Events"@, events.len());
    let repos = html::stat_html("Repos"@, repos_of(events).len());
    let kinds = type_stats_html(events, types_of(events));
    let end = "</section>\n"@;
    text::lemma_has_itself(total);
    text::lemma_has_itself(repos);
    lemma_either(first, total, total);
    lemma_either(first + total, repos, total);
    lemma_either(first + total, repos, repos);
    lemma_either(first + total + repos, kinds, total);
    lemma_either(first + total + repos, kinds, repos);
    lemma_either(first + total + repos + kinds, end, total);
    lemma_either(first + total + repos + kinds, end, repos);
}

/// The page shows the number of events of a type that occurs.
proof fn lemma_page_shows_type(c: ConfigModel, f: FeedModel, e: EventModel)
    requires
        f.events.contains(e),
    ensures
        text::has_text(
            page_html(c, f),
            html::stat_html(html::count_label(e.event_type), type_count(f.events, e.event_type)),
        ),
{
    let events = f.events;
    lemma_types_of(events);
    let i = choose|i: int| 0 <= i < events.len() && events[i] == e;
    assert(types_of(events).contains(events[i].event_type));
    lemma_shows_type(events, e.event_type);
    lemma_page_parts(
        c,
        f,
        html::stat_html(html::count_label(e.event_type), type_count(events, e.event_type)),
    );
}

/// The number of events of a type is that of the events that are kept by the type.
proof fn lemma_count_is_filter(events: Seq<EventModel>, kind: Seq<char>)
    ensures
        type_count(events, kind) == events.filter(|x: EventModel| x.event_type == kind).len(),
    decreases events.len(),
{
    reveal(Seq::filter);
    if events.len() > 0 {
        lemma_count_is_filter(events.drop_last(), kind);
        lemma_type_count(events.drop_last(), events.last(), kind);
        assert(events.drop_last().push(events.last()) =~= events);
    } else {
        assert(events =~= seq![]);
        lemma_type_count(seq![], arbitrary(), kind);
    }
}

/// The labels of the summary are shown as they are.
proof fn lemma_plain_label(label: Seq<char>)
    requires
        label == "Events"@ || label == "Repos"@ || label == "pull requests"@ || label
            == "issues"@ || label == "commits"@ || label == "reviews"@ || label == "comments"@,
    ensures
        forall|n: nat| #[trigger] html::stat_html(label, n) == shown_number(n, label),
{
    reveal_strlit("Events");
    reveal_strlit("Repos");
    reveal_strlit("pull requests");
    reveal_strlit("issues");
    reveal_strlit("commits");
    reveal_strlit("reviews");
    reveal_strlit("comments");
    assert forall|i: int| 0 <= i < label.len() implies #[trigger] label[i] != '_' && label[i]
        != '&' && label[i] != '<' && label[i] != '>' by {}
    html::lemma_plain_html(label);
    assert forall|n: nat| #[trigger] html::stat_html(label, n) == shown_number(n, label) by {
        assert(!label.contains('_'));
        html::lemma_stat(label, n);
    }
}

/// The page offers to choose the repository and the type of every event, and its year.
pub proof fn lemma_page_offers(c: ConfigModel, f: FeedModel, e: EventModel)
    requires
        f.events.contains(e),
    ensures
        text::has_text(page_html(c, f), html::option_html(e.repo)),
        text::has_text(page_html(c, f), html::option_html(e.event_type)),
        text::byte_prefix(e.occurred_at, 4) matches Some(year) ==> text::has_text(
            page_html(c, f),
            html::option_html(year),
        ),
        forall|x: Seq<char>| #[trigger]
            html::option_html(x) == "<option value=\""@ + html::attr_html(x) + "\">"@
                + html::text_html(x) + "</option>\n"@,
{
    let events = f.events;
    let i = choose|i: int| 0 <= i < events.len() && events[i] == e;
    lemma_repos_of(events);
    lemma_types_of(events);
    assert(repos_of(events).contains(events[i].repo));
    assert(types_of(events).contains(events[i].event_type));
    html::lemma_select("repo"@, "Repository"@, repos_of(events), e.repo);
    html::lemma_select("type"@, "Type"@, types_of(events), e.event_type);
    lemma_filter_parts(c, events, html::option_html(e.repo));
    lemma_filter_parts(c, events, html::option_html(e.event_type));
    lemma_page_parts(c, f, html::option_html(e.repo));
    lemma_page_parts(c, f, html::option_html(e.event_type));
    if let Some(year) = text::byte_prefix(e.occurred_at, 4) {
        lemma_years_of(events, i);
        html::lemma_select("year"@, "Year"@, years_of(events), year);
        lemma_filter_parts(c, events, html::option_html(year));
        lemma_page_parts(c, f, html::option_html(year));
    }
}

/// What one of the filters holds, they hold together.
proof fn lemma_filter_parts(c: ConfigModel, events: Seq<EventModel>, needle: Seq<char>)
    ensures
        text::has_text(html::select_html("repo"@, "Repository"@, repos_of(events)), needle)
            || text::has_text(html::select_html("type"@, "Type"@, types_of(events)), needle)
            || text::has_text(html::select_html("year"@, "Year"@, years_of(events)), needle)
            ==> text::has_text(filters_html(c, events), needle),
{
    let a = "<form class=\"btc-filters\" id=\"btc-filters\">\n"@;
    let s1 = html::select_html("repo"@, "Repository"@, repos_of(events));
    let s2 = html::select_html("type"@, "Type"@, types_of(events));
    let s3 = html::select_html("year"@, "Year"@, years_of(events));
    let b = "<a class=\"btc-reset\" href=\""@;
    let d = html::attr_html(c.base_path);
    let e = "\">Reset</a></form>\n"@;
    lemma_either(a, s1, needle);
    lemma_either(a + s1, s2, needle);
    lemma_either(a + s1 + s2, s3, needle);
    lemma_either(a + s1 + s2 + s3, b, needle);
    lemma_either(a + s1 + s2 + s3 + b, d, needle);
    lemma_either(a + s1 + s2 + s3 + b + d, e, needle);
}

/// The year of an event is among the years.
proof fn lemma_years_of(events: Seq<EventModel>, i: int)
    requires
        0 <= i < events.len(),
        text::byte_prefix(events[i].occurred_at, 4) is Some,
    ensures
        years_of(events).contains(text::byte_prefix(events[i].occurred_at, 4)->0),
{
    let year = text::byte_prefix(events[i].occurred_at, 4)->0;
    lemma_years_in(events, i);
    names::lemma_sorted_names(years_in(events));
    let list = names::sorted_names(years_in(events));
    assert(list.contains(year));
    let k = choose|k: int| 0 <= k < list.len() && list[k] == year;
    assert(list.reverse()[list.len() - 1 - k] == year);
}

proof fn lemma_years_in(events: Seq<EventModel>, i: int)
    requires
        0 <= i < events.len(),
        text::byte_prefix(events[i].occurred_at, 4) is Some,
    ensures
        years_in(events).contains(text::byte_prefix(events[i].occurred_at, 4)->0),
    decreases events.len(),
{
    let year = text::byte_prefix(events[i].occurred_at, 4)->0;
    let front = years_in(events.drop_last());
    let out = years_in(events);
    if i < events.len() - 1 {
        lemma_years_in(events.drop_last(), i);
        let k = choose|k: int| 0 <= k < front.len() && front[k] == year;
        assert(out[k] == year);
    } else {
        assert(out[front.len() as int] == year);
    }
}

/// The line that shows an event in the list of its group.
pub open spec fn shown_event(e: EventModel) -> Seq<char> {
    "<time datetime=\""@ + html::attr_html(e.occurred_at) + "\">"@ + html::text_html(
        calendar::day_part(e.occurred_at),
    ) + "</time> <span class=\"btc-kind\">"@ + html::text_html(
        text::with_char_replaced(e.event_type, '_', ' '),
    ) + "</span> <a href=\""@ + html::attr_html(e.url) + "\">"@ + html::text_html(e.title)
        + "</a>"@
}

/// The line of an event in the list of its group shows the event.
proof fn lemma_item_shows(e: EventModel)
    ensures
        text::has_text(item_html(e), shown_event(e)),
        e.status.len() > 0 ==> text::has_text(
            item_html(e),
            "</a> <span class=\"btc-status\">"@ + html::text_html(e.status) + "</span></li>\n"@,
        ),
{
    let a = "<li data-type=\""@ + html::attr_html(e.event_type) + "\" data-title=\""@
        + html::attr_html(e.title) + "\" data-url=\""@ + html::attr_html(e.url)
        + "\"><span class=\"btc-detail-icon\">"@ + html::sign(e.event_type);
    let time = html::attr_html(e.occurred_at);
    let day = html::text_html(calendar::day_part(e.occurred_at));
    let kind = html::text_html(text::with_char_replaced(e.event_type, '_', ' '));
    let url = html::attr_html(e.url);
    let title = html::text_html(e.title);
    let badge = html::badge_html(e.status);
    reveal_strlit("</span><time datetime=\"");
    reveal_strlit("</span>");
    reveal_strlit("<time datetime=\"");
    assert("</span><time datetime=\""@ =~= "</span>"@ + "<time datetime=\""@);
    let l1 = "\">"@;
    let l2 = "</time> <span class=\"btc-kind\">"@;
    let l3 = "</span> <a href=\""@;
    let l4 = "</a>"@;
    let l5 = "</li>\n"@;
    let front = a + "</span><time datetime=\""@;
    assert(item_html(e) == front + time + l1 + day + l2 + kind + l3 + url + l1 + title + l4
        + badge + l5);
    let s = "<time datetime=\""@ + time + l1 + day + l2 + kind + l3 + url + l1 + title + l4;
    assert(front =~= (a + "</span>"@) + "<time datetime=\""@);
    lemma_shifted(a + "</span>"@, "<time datetime=\""@, time, l1, day);
    let w = a + "</span>"@;
    let t0 = "<time datetime=\""@;
    let t1 = t0 + time + l1 + day;
    assert(front + time + l1 + day == w + t1);
    lemma_shifted(w, t1, l2, kind, l3);
    let t2 = t1 + l2 + kind + l3;
    lemma_shifted(w, t2, url, l1, title);
    let t3 = t2 + url + l1 + title;
    assert(w + t3 + l4 =~= w + (t3 + l4));
    assert(s == t3 + l4);
    assert(item_html(e) == w + s + badge + l5);
    text::lemma_has_itself(s);
    text::lemma_has_text_in(w, s, badge, s);
    text::lemma_has_text_in(seq![], w + s + badge, l5, s);
    if e.status.len() > 0 {
        let st = html::text_html(e.status);
        reveal_strlit("</a>");
        reveal_strlit(" <span class=\"btc-status\">");
        reveal_strlit("</a> <span class=\"btc-status\">");
        reveal_strlit("</li>\n");
        reveal_strlit("</span></li>\n");
        let open = "</a> <span class=\"btc-status\">"@;
        assert(open =~= l4 + " <span class=\"btc-status\">"@);
        assert("</span></li>\n"@ =~= "</span>"@ + l5);
        let tail = open + st + "</span></li>\n"@;
        assert(w + s + badge + l5 =~= (w + t3) + tail + Seq::<char>::empty());
        text::lemma_has_text(item_html(e), tail);
    }
}

/// Three further texts may be grouped with those before them.
proof fn lemma_shifted(
    w: Seq<char>,
    s: Seq<char>,
    a: Seq<char>,
    b: Seq<char>,
    d: Seq<char>,
)
    ensures
        w + s + a + b + d == w + (s + a + b + d),
{
    assert(w + s + a + b + d =~= w + (s + a + b + d));
}

/// The lists of events behind others stand behind them.
#[verifier::spinoff_prover]
pub proof fn lemma_items_concat(a: Seq<EventModel>, b: Seq<EventModel>)
    ensures
        items_html(a + b) == items_html(a) + items_html(b),
    decreases b.len(),
{
    if b.len() == 0 {
        assert(a + b =~= a);
        assert(items_html(a) + items_html(b) =~= items_html(a));
    } else {
        lemma_items_concat(a, b.drop_last());
        assert((a + b).drop_last() =~= a + b.drop_last());
        assert((a + b).last() == b.last());
        lemma_right(items_html(a), items_html(b.drop_last()), item_html(b.last()));
    }
}

/// The groups behind others stand behind them on the page.
#[verifier::spinoff_prover]
pub proof fn lemma_groups_concat(a: Seq<Seq<EventModel>>, b: Seq<Seq<EventModel>>)
    ensures
        groups_html(a + b) == groups_html(a) + groups_html(b),
    decreases b.len(),
{
    if b.len() == 0 {
        assert(a + b =~= a);
        assert(groups_html(a) + groups_html(b) =~= groups_html(a));
    } else {
        lemma_groups_concat(a, b.drop_last());
        assert((a + b).drop_last() =~= a + b.drop_last());
        assert((a + b).last() == b.last());
        lemma_right(
            groups_html(a),
            groups_html(b.drop_last()),
            group_html(event::newest_first(b.last())),
        );
    }
}

/// The list of a group has the line of each of its events.
proof fn lemma_group_shows(group: Seq<EventModel>, e: EventModel)
    requires
        group.contains(e),
    ensures
        text::has_text(group_html(group), item_html(e)),
{
    let i = choose|i: int| 0 <= i < group.len() && group[i] == e;
    let before = group.take(i);
    let after = group.skip(i + 1);
    let one = item_html(e);
    lemma_one_item(e);
    lemma_items_concat(before, seq![e]);
    lemma_items_concat(before + seq![e], after);
    assert(before + seq![e] + after =~= group);
    text::lemma_has_itself(one);
    text::lemma_has_text_in(items_html(before), one, items_html(after), one);
    let a = details_html(group) + row_html(group) + "<div class=\"btc-thread-detail\">\n<ul>\n"@;
    let d = "</ul></div></details>\n"@;
    lemma_either(a, items_html(group), one);
    lemma_either(a + items_html(group), d, one);
}

/// The page shows every event of the feed: its time, its type, its title as a link, and its
/// status where it has one.
pub proof fn lemma_page_shows_events(c: ConfigModel, f: FeedModel, e: EventModel)
    requires
        f.events.contains(e),
    ensures
        text::has_text(page_html(c, f), shown_event(e)),
        e.status.len() > 0 ==> text::has_text(
            page_html(c, f),
            "</a> <span class=\"btc-status\">"@ + html::text_html(e.status) + "</span></li>\n"@,
        ),
{
    let one = item_html(e);
    lemma_timeline_shows(f.events, e);
    lemma_page_parts(c, f, one);
    lemma_item_shows(e);
    lemma_nested(page_html(c, f), one, shown_event(e));
    if e.status.len() > 0 {
        lemma_nested(
            page_html(c, f),
            one,
            "</a> <span class=\"btc-status\">"@ + html::text_html(e.status) + "</span></li>\n"@,
        );
    }
}

/// An event of the feed is in a group.
proof fn lemma_grouped(events: Seq<EventModel>, e: EventModel) -> (k: int)
    requires
        events.contains(e),
    ensures
        0 <= k < groups_of(events).len(),
        event::newest_first(groups_of(events)[k]).contains(e),
{
    let groups = groups_of(events);
    lemma_groups(events);
    events.to_multiset_ensures();
    assert(together(groups).count(e) > 0) by {
        assert(events.to_multiset().count(e) > 0);
    }
    lemma_in_group(groups, e);
    let k = choose|k: int| 0 <= k < groups.len() && (#[trigger] groups[k]).contains(e);
    let group = groups[k];
    let sorted = event::newest_first(group);
    event::lemma_newest_first(group);
    group.to_multiset_ensures();
    sorted.to_multiset_ensures();
    assert(sorted.contains(e)) by {
        assert(group.to_multiset().count(e) > 0);
        assert(sorted.to_multiset().count(e) > 0);
    }
    k
}

/// The timeline has the line of every event.
proof fn lemma_timeline_shows(events: Seq<EventModel>, e: EventModel)
    requires
        events.contains(e),
    ensures
        text::has_text(timeline_html(events), item_html(e)),
{
    let groups = groups_of(events);
    let one = item_html(e);
    let k = lemma_grouped(events, e);
    let group = groups[k];
    let sorted = event::newest_first(group);
    lemma_group_shows(sorted, e);
    lemma_groups_show(groups, k, one);
    lemma_either(
        "<div class=\"btc-timeline\" id=\"btc-timeline\">\n"@,
        groups_html(groups),
        one,
    );
}

/// What a group shows, the groups show.
proof fn lemma_groups_show(groups: Seq<Seq<EventModel>>, k: int, needle: Seq<char>)
    requires
        0 <= k < groups.len(),
        text::has_text(group_html(event::newest_first(groups[k])), needle),
    ensures
        text::has_text(groups_html(groups), needle),
{
    lemma_around(groups, k);
    lemma_one_group_html(groups[k]);
    text::lemma_has_text_in(
        groups_html(groups.take(k)),
        groups_html(seq![groups[k]]),
        groups_html(groups.skip(k + 1)),
        needle,
    );
}

/// The groups are those before one of them, that one and those behind it.
proof fn lemma_around(groups: Seq<Seq<EventModel>>, k: int)
    requires
        0 <= k < groups.len(),
    ensures
        groups_html(groups) == groups_html(groups.take(k)) + groups_html(seq![groups[k]])
            + groups_html(groups.skip(k + 1)),
{
    let before = groups.take(k);
    let one = seq![groups[k]];
    let after = groups.skip(k + 1);
    assert(before + one + after =~= groups);
    lemma_groups_concat(before, one);
    lemma_groups_concat(before + one, after);
}

proof fn lemma_one_group_html(group: Seq<EventModel>)
    ensures
        groups_html(seq![group]) == group_html(event::newest_first(group)),
{
    reveal_with_fuel(groups_html, 2);
    assert(seq![group].drop_last() =~= seq![]);
    lemma_nothing_before(group_html(event::newest_first(group)));
}

proof fn lemma_one_item(e: EventModel)
    ensures
        items_html(seq![e]) == item_html(e),
{
    reveal_with_fuel(items_html, 2);
    assert(seq![e].drop_last() =~= seq![]);
    lemma_nothing_before(item_html(e));
}

proof fn lemma_nothing_before(s: Seq<char>)
    ensures
        Seq::<char>::empty() + s == s,
{
    assert(Seq::<char>::empty() + s =~= s);
}

/// What a part of a text holds, the text holds.
proof fn lemma_nested(page: Seq<char>, part: Seq<char>, needle: Seq<char>)
    requires
        text::has_text(page, part),
        text::has_text(part, needle),
    ensures
        text::has_text(page, needle),
{
    text::lemma_has_text(page, part);
    let (a, b) = choose|a: Seq<char>, b: Seq<char>| page == #[trigger] (a + part + b);
    text::lemma_has_text_in(a, part, b, needle);
}

/// An event of groups taken together is in one of them.
proof fn lemma_in_group(groups: Seq<Seq<EventModel>>, e: EventModel)
    requires
        together(groups).count(e) > 0,
    ensures
        exists|k: int| 0 <= k < groups.len() && (#[trigger] groups[k]).contains(e),
    decreases groups.len(),
{
    if groups.len() > 0 {
        let front = groups.drop_last();
        let last = groups.last();
        last.to_multiset_ensures();
        if last.to_multiset().count(e) > 0 {
            assert(groups[groups.len() - 1].contains(e));
        } else {
            lemma_in_group(front, e);
            let k = choose|k: int| 0 <= k < front.len() && (#[trigger] front[k]).contains(e);
            assert(groups[k].contains(e));
        }
    }
}

/// The events of one repository and one day stand in one group, no others stand with them,
/// and they stand there in the order of the feed.
pub proof fn lemma_groups_by_day(events: Seq<EventModel>, i: int, a: EventModel, b: EventModel)
    requires
        0 <= i < groups_of(events).len(),
        groups_of(events)[i].contains(a),
    ensures
        events.contains(a),
        groups_of(events)[i].contains(b) <==> events.contains(b) && b.repo + ":"@
            + calendar::day_part(b.occurred_at) == a.repo + ":"@ + calendar::day_part(
            a.occurred_at,
        ),
        groups_of(events)[i] == events.filter(
            |x: EventModel|
                x.repo + ":"@ + calendar::day_part(x.occurred_at) == a.repo + ":"@
                    + calendar::day_part(a.occurred_at),
        ),
{
    lemma_groups(events);
    let group = groups_of(events)[i];
    let key = choose|key: Seq<char>|
        keys_of(events).contains(key) && group == #[trigger] group_of(events, key) && group_of(
            events,
            key,
        ).len() > 0;
    let keep = |x: EventModel| html::key_of(x) == key;
    assert(group == events.filter(keep));
    let k = choose|k: int| 0 <= k < group.len() && group[k] == a;
    events.lemma_filter_pred(keep, k);
    events.lemma_filter_contains_rev(keep, a);
    let same = |x: EventModel|
        x.repo + ":"@ + calendar::day_part(x.occurred_at) == a.repo + ":"@ + calendar::day_part(
            a.occurred_at,
        );
    lemma_same_filter(events, keep, same);
    if group.contains(b) {
        events.lemma_filter_contains_rev(keep, b);
        let j = choose|j: int| 0 <= j < group.len() && group[j] == b;
        events.lemma_filter_pred(keep, j);
    }
    if events.contains(b) && same(b) {
        let j = choose|j: int| 0 <= j < events.len() && events[j] == b;
        events.lemma_filter_contains(keep, j);
    }
}

/// Filters that agree on all events keep the same ones.
proof fn lemma_same_filter(
    events: Seq<EventModel>,
    a: spec_fn(EventModel) -> bool,
    b: spec_fn(EventModel) -> bool,
)
    requires
        forall|x: EventModel| #[trigger] a(x) == b(x),
    ensures
        events.filter(a) == events.filter(b),
    decreases events.len(),
{
    reveal(Seq::filter);
    if events.len() > 0 {
        lemma_same_filter(events.drop_last(), a, b);
        assert(a(events.last()) == b(events.last()));
    }
}

/// A group stands above those whose first events are older than its own.
pub proof fn lemma_groups_in_order(events: Seq<EventModel>, i: int, j: int)
    requires
        0 <= i < j < groups_of(events).len(),
    ensures
        groups_of(events)[i][0].occurred_at == groups_of(events)[j][0].occurred_at
            || text::text_lt(
            groups_of(events)[j][0].occurred_at,
            groups_of(events)[i][0].occurred_at,
        ),
{
    lemma_groups(events);
    let a = groups_of(events)[i];
    let b = groups_of(events)[j];
    assert(!group_before(b, a));
    text::lemma_text_lt_total(a[0].occurred_at, b[0].occurred_at);
}

/// The row of a group shows the sign of its type, its title, its repository, the day of its
/// newest event and its type. The filters go by the repository, the type and the year.
pub proof fn lemma_page_shows_groups(c: ConfigModel, f: FeedModel, k: int)
    requires
        0 <= k < groups_of(f.events).len(),
    ensures
        ({
            let group = event::newest_first(groups_of(f.events)[k]);
            let kind = html::kind_of(group);
            &&& text::has_text(
                page_html(c, f),
                "<details class=\"btc-thread\" data-repo=\""@ + html::attr_html(group[0].repo)
                    + "\" data-type=\""@ + html::attr_html(kind) + "\" data-year=\""@
                    + html::attr_html(
                    match text::byte_prefix(group[0].occurred_at, 4) {
                        Some(year) => year,
                        None => ""@,
                    },
                ) + "\">\n"@,
            )
            &&& text::has_text(
                page_html(c, f),
                "<summary><span class=\"btc-icon\">"@ + html::sign(kind) + "</span>"@
                    + html::title_cell_html(group, html::title_of(group))
                    + "<span class=\"btc-row-repo\">"@ + html::text_html(group[0].repo)
                    + "</span><time class=\"btc-row-date\" datetime=\""@ + html::attr_html(
                    group[0].occurred_at,
                ) + "\">"@ + html::text_html(calendar::day_part(group[0].occurred_at))
                    + "</time><span class=\"btc-row-kind\">"@ + html::text_html(
                    text::with_char_replaced(kind, '_', ' '),
                ) + "</span></summary>\n"@,
            )
        }),
{
    let group = event::newest_first(groups_of(f.events)[k]);
    let kind = html::kind_of(group);
    let n1 = details_html(group);
    let n2 = row_html(group);
    assert(n1 == "<details class=\"btc-thread\" data-repo=\""@ + html::attr_html(group[0].repo)
        + "\" data-type=\""@ + html::attr_html(kind) + "\" data-year=\""@ + html::attr_html(
        match text::byte_prefix(group[0].occurred_at, 4) {
            Some(year) => year,
            None => ""@,
        },
    ) + "\">\n"@);
    text::lemma_has_itself(n1);
    text::lemma_has_itself(n2);
    lemma_group_parts(group, n1);
    lemma_group_parts(group, n2);
    lemma_groups_show(groups_of(f.events), k, n1);
    lemma_groups_show(groups_of(f.events), k, n2);
    let first = "<div class=\"btc-timeline\" id=\"btc-timeline\">\n"@;
    lemma_either(first, groups_html(groups_of(f.events)), n1);
    lemma_either(first, groups_html(groups_of(f.events)), n2);
    lemma_page_parts(c, f, n1);
    lemma_page_parts(c, f, n2);
}

/// What the first line or the row of a group holds, the group holds.
proof fn lemma_group_parts(group: Seq<EventModel>, needle: Seq<char>)
    ensures
        text::has_text(details_html(group), needle) || text::has_text(row_html(group), needle)
            ==> text::has_text(group_html(group), needle),
{
    let (a, b) = (details_html(group), row_html(group));
    let d = "<div class=\"btc-thread-detail\">\n<ul>\n"@;
    let e = items_html(group);
    let g = "</ul></div></details>\n"@;
    lemma_either(a, b, needle);
    lemma_either(a + b, d, needle);
    lemma_either(a + b + d, e, needle);
    lemma_either(a + b + d + e, g, needle);
}

/// The page carries the title of the site, and tells whose activity it shows and from when,
/// with a link to the feed under the base path.
pub proof fn lemma_page_names(c: ConfigModel, f: FeedModel)
    ensures
        text::has_text(
            page_html(c, f),
            "btc_foss.css\">\n<title>"@ + html::text_html(c.title) + "</title></head><body>\n"@,
        ),
        text::has_text(
            page_html(c, f),
            html::attr_html(text::trim_back(c.site_root, Class::Only('/'))) + html::attr_html(
                c.base_path,
            ),
        ),
        text::has_text(
            page_html(c, f),
            html::attr_html(f.username) + "</a>. Updated <time datetime=\""@ + html::attr_html(
                f.generated_at,
            ) + "\">"@ + html::attr_html(f.generated_at) + "</time>. <a href=\""@
                + html::attr_html(c.base_path) + "feed.json\">feed.json</a></p>\n"@,
        ),
        text::has_text(
            page_html(c, f),
            html::attr_html(c.base_path) + "btc_foss.js\"></script>\n</body></html>\n"@,
        ),
{
    lemma_head_names(c);
    lemma_intro_names(c, f);
    lemma_foot_names(c);
    let base = html::attr_html(c.base_path);
    let time = html::attr_html(f.generated_at);
    let n1 = "btc_foss.css\">\n<title>"@ + html::text_html(c.title) + "</title></head><body>\n"@;
    let n2 = html::attr_html(text::trim_back(c.site_root, Class::Only('/'))) + base;
    let n3 = html::attr_html(f.username) + "</a>. Updated <time datetime=\""@ + time + "\">"@
        + time + "</time>. <a href=\""@ + base + "feed.json\">feed.json</a></p>\n"@;
    let n4 = base + "btc_foss.js\"></script>\n</body></html>\n"@;
    lemma_page_parts(c, f, n1);
    lemma_page_parts(c, f, n2);
    lemma_page_parts(c, f, n3);
    lemma_page_parts(c, f, n4);
}

/// What the head of the page names.
proof fn lemma_head_names(c: ConfigModel)
    ensures
        text::has_text(
            head_html(c),
            "btc_foss.css\">\n<title>"@ + html::text_html(c.title) + "</title></head><body>\n"@,
        ),
        text::has_text(
            head_html(c),
            html::attr_html(text::trim_back(c.site_root, Class::Only('/'))) + html::attr_html(
                c.base_path,
            ),
        ),
{
    let base = html::attr_html(c.base_path);
    let title = html::text_html(c.title);
    let root = html::attr_html(text::trim_back(c.site_root, Class::Only('/')));
    let h0 = "<!DOCTYPE html>\n<html lang=\"en\" data-theme=\"bitcoin\"><head><meta charset=\"UTF-8\">\n<meta name=\"viewport\" content=\"width=device-width, initial-scale=1\">\n<link rel=\"icon\" type=\"image/svg+xml\" href=\"https://upload.wikimedia.org/wikipedia/commons/4/46/Bitcoin.svg\">\n<link rel=\"canonical\" href=\""@;
    let h1 = "\">\n<link rel=\"stylesheet\" href=\""@;
    let h2 = "theme-bitcoin.css\">\n<link rel=\"stylesheet\" href=\""@;
    let h3 = "btc_foss.css\">\n<title>"@;
    let h4 = "</title></head><body>\n"@;
    let n1 = h3 + title + h4;
    let n2 = root + base;
    lemma_right(h0, root, base);
    let w0 = h0 + root + base;
    text::lemma_has_itself(n2);
    lemma_either(h0, n2, n2);
    lemma_either(w0, h1, n2);
    lemma_either(w0 + h1, base, n2);
    lemma_either(w0 + h1 + base, h2, n2);
    lemma_either(w0 + h1 + base + h2, base, n2);
    let w = w0 + h1 + base + h2 + base;
    lemma_either(w, h3, n2);
    lemma_either(w + h3, title, n2);
    lemma_either(w + h3 + title, h4, n2);
    lemma_right(w, h3, title);
    lemma_right(w, h3 + title, h4);
    text::lemma_has_itself(n1);
    lemma_either(w, n1, n1);
}

/// What the introduction names.
proof fn lemma_intro_names(c: ConfigModel, f: FeedModel)
    ensures
        text::has_text(
            intro_html(c, f),
            html::attr_html(f.username) + "</a>. Updated <time datetime=\""@ + html::attr_html(
                f.generated_at,
            ) + "\">"@ + html::attr_html(f.generated_at) + "</time>. <a href=\""@
                + html::attr_html(c.base_path) + "feed.json\">feed.json</a></p>\n"@,
        ),
{
    let base = html::attr_html(c.base_path);
    let user = html::attr_html(f.username);
    let time = html::attr_html(f.generated_at);
    let i0 = "<p class=\"btc-muted\">Public GitHub activity for <a href=\"https://github.com/"@;
    let i1 = "\">"@;
    let i2 = "</a>. Updated <time datetime=\""@;
    let i3 = "</time>. <a href=\""@;
    let i4 = "feed.json\">feed.json</a></p>\n"@;
    let w = i0 + user + i1;
    let t1 = user + i2 + time + i1;
    let t2 = t1 + time + i3 + base;
    lemma_shifted(w, user, i2, time, i1);
    lemma_shifted(w, t1, time, i3, base);
    lemma_right(w, t2, i4);
    assert(intro_html(c, f) == w + (t2 + i4));
    text::lemma_has_itself(t2 + i4);
    lemma_either(w, t2 + i4, t2 + i4);
}

/// What the foot of the page names.
proof fn lemma_foot_names(c: ConfigModel)
    ensures
        text::has_text(
            foot_html(c),
            html::attr_html(c.base_path) + "btc_foss.js\"></script>\n</body></html>\n"@,
        ),
{
    let base = html::attr_html(c.base_path);
    let f0 = "</div></main><footer><p><a href=\"https://github.com/"@ + html::attr_html(
        c.username,
    ) + "\">"@ + html::text_html(c.username) + "</a> - <a href=\""@ + base
        + "feed.json\">feed.json</a></p></footer>\n<script defer src=\""@;
    let f1 = "btc_foss.js\"></script>\n</body></html>\n"@;
    lemma_right(f0, base, f1);
    text::lemma_has_itself(base + f1);
    lemma_either(f0, base + f1, base + f1);
}

/// Texts in a row may be grouped from the right.
proof fn lemma_right(a: Seq<char>, b: Seq<char>, d: Seq<char>)
    ensures
        a + b + d == a + (b + d),
{
    assert(a + b + d =~= a + (b + d));
}

/// The years to choose from stand in descending order, none twice.
pub proof fn lemma_years_descend(events: Seq<EventModel>, i: int, j: int)
    requires
        0 <= i < j < years_of(events).len(),
    ensures
        text::text_lt(years_of(events)[j], years_of(events)[i]),
{
    let list = names::sorted_names(years_in(events));
    names::lemma_sorted_names(years_in(events));
    let n = list.len() as int;
    assert(years_of(events)[i] == list[n - 1 - i]);
    assert(years_of(events)[j] == list[n - 1 - j]);
}

} // verus!
