//! Parts of the page.

use crate::calendar;
use crate::calendar::short_date;
use crate::decimal;
use crate::decimal::decimal_text;
use crate::event::{Event, EventModel};
use crate::text;
use crate::text::{chars_of, owned, replace_char, same_text};
use vstd::prelude::*;

verus! {

// ---------------------------------------------------------------------------
// Escaping
// ---------------------------------------------------------------------------

/// A character as it stands in the text of a page.
pub open spec fn text_char(c: char) -> Seq<char> {
    if c == '&' {
        "&amp;"@
    } else if c == '<' {
        "&lt;"@
    } else if c == '>' {
        "&gt;"@
    } else {
        seq![c]
    }
}

/// A character as it stands in an attribute.
pub open spec fn attr_char(c: char) -> Seq<char> {
    if c == '"' {
        "&quot;"@
    } else {
        text_char(c)
    }
}

/// A text as it stands in a page.
pub open spec fn text_html(s: Seq<char>) -> Seq<char> {
    text::substitute(s, |c: char| text_char(c))
}

/// A text as it stands in an attribute.
pub open spec fn attr_html(s: Seq<char>) -> Seq<char> {
    text::substitute(s, |c: char| attr_char(c))
}

/// The text as it stands in a page.
pub fn html(s: &str) -> (out: String)
    ensures
        out@ == text_html(s@),
{
    let chars = chars_of(s);
    let mut out = String::new();
    let ghost f = |c: char| text_char(c);
    for i in 0..chars.len()
        invariant
            chars@ == s@,
            f == |c: char| text_char(c),
            out@ == text::substitute(s@.take(i as int), f),
    {
        let c = chars[i];
        let ghost before = out@;
        if c == '&' {
            out.append("&amp;");
        } else if c == '<' {
            out.append("&lt;");
        } else if c == '>' {
            out.append("&gt;");
        } else {
            out.push(c);
        }
        assert(out@ =~= before + text_char(c));
        assert(s@.take(i + 1).drop_last() =~= s@.take(i as int));
    }
    assert(s@.take(s@.len() as int) =~= s@);
    out
}

/// The text as it stands in an attribute.
pub fn html_attr(s: &str) -> (out: String)
    ensures
        out@ == attr_html(s@),
{
    let chars = chars_of(s);
    let mut out = String::new();
    let ghost f = |c: char| attr_char(c);
    for i in 0..chars.len()
        invariant
            chars@ == s@,
            f == |c: char| attr_char(c),
            out@ == text::substitute(s@.take(i as int), f),
    {
        let c = chars[i];
        let ghost before = out@;
        if c == '"' {
            out.append("&quot;");
        } else if c == '&' {
            out.append("&amp;");
        } else if c == '<' {
            out.append("&lt;");
        } else if c == '>' {
            out.append("&gt;");
        } else {
            out.push(c);
        }
        assert(out@ =~= before + attr_char(c));
        assert(s@.take(i + 1).drop_last() =~= s@.take(i as int));
    }
    assert(s@.take(s@.len() as int) =~= s@);
    out
}

/// No text opens or closes a tag.
pub proof fn lemma_text_html(s: Seq<char>)
    ensures
        !text_html(s).contains('<'),
        !text_html(s).contains('>'),
    decreases s.len(),
{
    if s.len() > 0 {
        let front = text_html(s.drop_last());
        let last = text_char(s.last());
        lemma_text_html(s.drop_last());
        reveal_strlit("&amp;");
        reveal_strlit("&lt;");
        reveal_strlit("&gt;");
        assert forall|i: int| 0 <= i < text_html(s).len() implies text_html(s)[i] != '<'
            && text_html(s)[i] != '>' by {
            if i < front.len() {
                assert(front.contains(front[i]));
                assert(text_html(s)[i] == front[i]);
            } else {
                assert(text_html(s)[i] == last[i - front.len()]);
            }
        }
    }
}

/// No attribute opens or closes a tag or ends before its quote.
pub proof fn lemma_attr_html(s: Seq<char>)
    ensures
        !attr_html(s).contains('<'),
        !attr_html(s).contains('>'),
        !attr_html(s).contains('"'),
    decreases s.len(),
{
    if s.len() > 0 {
        let front = attr_html(s.drop_last());
        let last = attr_char(s.last());
        lemma_attr_html(s.drop_last());
        reveal_strlit("&amp;");
        reveal_strlit("&lt;");
        reveal_strlit("&gt;");
        reveal_strlit("&quot;");
        assert forall|i: int| 0 <= i < attr_html(s).len() implies attr_html(s)[i] != '<'
            && attr_html(s)[i] != '>' && attr_html(s)[i] != '"' by {
            if i < front.len() {
                assert(front.contains(front[i]));
                assert(attr_html(s)[i] == front[i]);
            } else {
                assert(attr_html(s)[i] == last[i - front.len()]);
            }
        }
    }
}

/// The character for which an entity stands that a text begins with, and the length of the
/// entity.
pub open spec fn entity(s: Seq<char>) -> Option<(char, int)> {
    if "&amp;"@.is_prefix_of(s) {
        Some(('&', 5))
    } else if "&lt;"@.is_prefix_of(s) {
        Some(('<', 4))
    } else if "&gt;"@.is_prefix_of(s) {
        Some(('>', 4))
    } else if "&quot;"@.is_prefix_of(s) {
        Some(('"', 6))
    } else {
        None
    }
}

/// An entity is part of the text and begins with an ampersand.
pub proof fn lemma_entity(s: Seq<char>)
    ensures
        entity(s) matches Some((_, n)) ==> 0 < n <= s.len() && s[0] == '&',
{
    reveal_strlit("&amp;");
    reveal_strlit("&lt;");
    reveal_strlit("&gt;");
    reveal_strlit("&quot;");
    if let Some((_, n)) = entity(s) {
        assert(s[0] == s.subrange(0, n)[0]);
    }
}

/// The text that a reader of the page sees: every entity is the character that it stands for.
pub open spec fn shown(s: Seq<char>) -> Seq<char>
    decreases s.len(),
{
    proof {
        lemma_entity(s);
    }
    if s.len() == 0 {
        seq![]
    } else {
        match entity(s) {
            Some((c, n)) => seq![c] + shown(s.skip(n)),
            None => seq![s[0]] + shown(s.skip(1)),
        }
    }
}

/// A character of an attribute is shown as itself, whatever follows it.
proof fn lemma_attr_char_shown(c: char, rest: Seq<char>)
    ensures
        shown(attr_char(c) + rest) == seq![c] + shown(rest),
{
    let front = attr_char(c);
    let s = front + rest;
    reveal_strlit("&amp;");
    reveal_strlit("&lt;");
    reveal_strlit("&gt;");
    reveal_strlit("&quot;");
    assert(s.subrange(0, front.len() as int) =~= front);
    assert(s.skip(front.len() as int) =~= rest);
    if c == '&' || c == '<' || c == '>' || c == '"' {
        if "&amp;"@.is_prefix_of(s) {
            assert(s.subrange(0, 5)[1] == s[1]);
        }
        if "&lt;"@.is_prefix_of(s) {
            assert(s.subrange(0, 4)[1] == s[1]);
        }
        if "&gt;"@.is_prefix_of(s) {
            assert(s.subrange(0, 4)[1] == s[1]);
        }
        assert(front.is_prefix_of(s));
        assert(entity(s) == Some((c, front.len() as int)));
    } else {
        lemma_entity(s);
        assert(s[0] == c);
    }
}

/// A character of a text is shown as itself, whatever follows it.
proof fn lemma_text_char_shown(c: char, rest: Seq<char>)
    ensures
        shown(text_char(c) + rest) == seq![c] + shown(rest),
{
    if c == '"' {
        let s = seq![c] + rest;
        lemma_entity(s);
        assert(s.skip(1) =~= rest);
    } else {
        lemma_attr_char_shown(c, rest);
    }
}

/// A text of the page is shown as it was.
pub proof fn lemma_text_shown(s: Seq<char>)
    ensures
        shown(text_html(s)) == s,
    decreases s.len(),
{
    if s.len() > 0 {
        let rest = s.drop_first();
        lemma_text_shown(rest);
        text::lemma_substitute_first(s, |c: char| text_char(c));
        lemma_text_char_shown(s[0], text_html(rest));
        assert(seq![s[0]] + rest =~= s);
    }
}

/// An attribute of the page is read as it was.
pub proof fn lemma_attr_shown(s: Seq<char>)
    ensures
        shown(attr_html(s)) == s,
    decreases s.len(),
{
    if s.len() > 0 {
        let rest = s.drop_first();
        lemma_attr_shown(rest);
        text::lemma_substitute_first(s, |c: char| attr_char(c));
        lemma_attr_char_shown(s[0], attr_html(rest));
        assert(seq![s[0]] + rest =~= s);
    }
}

// ---------------------------------------------------------------------------
// Statistics
// ---------------------------------------------------------------------------

/// A number with its label.
pub open spec fn stat_html(label: Seq<char>, value: nat) -> Seq<char> {
    "<div><strong>"@ + decimal::decimal(value) + "</strong><span>"@ + text_html(
        text::with_char_replaced(label, '_', ' '),
    ) + "</span></div>\n"@
}

/// Appends a number with its label.
pub fn stat(out: &mut String, label: &str, value: usize)
    ensures
        final(out)@ == old(out)@ + stat_html(label@, value as nat),
{
    let mut part = owned("<div><strong>");
    part.append(decimal_text(value as u64).as_str());
    part.append("</strong><span>");
    part.append(html(replace_char(label, '_', ' ').as_str()).as_str());
    part.append("</span></div>\n");
    out.append(part.as_str());
}

/// How events of a kind are called.
pub open spec fn count_label(kind: Seq<char>) -> Seq<char> {
    if kind == "pull_request"@ {
        "pull requests"@
    } else if kind == "review"@ {
        "reviews"@
    } else if kind == "commit"@ {
        "commits"@
    } else if kind == "comment"@ {
        "comments"@
    } else if kind == "issue"@ {
        "issues"@
    } else if kind == "mixed"@ {
        "mixed"@
    } else {
        "events"@
    }
}

/// How events of a kind are called.
pub fn event_type_count_label(kind: &str) -> (out: &'static str)
    ensures
        out@ == count_label(kind@),
{
    if same_text(kind, "pull_request") {
        "pull requests"
    } else if same_text(kind, "review") {
        "reviews"
    } else if same_text(kind, "commit") {
        "commits"
    } else if same_text(kind, "comment") {
        "comments"
    } else if same_text(kind, "issue") {
        "issues"
    } else if same_text(kind, "mixed") {
        "mixed"
    } else {
        "events"
    }
}

// ---------------------------------------------------------------------------
// Filters
// ---------------------------------------------------------------------------

/// A choice of a filter.
pub open spec fn option_html(option: Seq<char>) -> Seq<char> {
    "<option value=\""@ + attr_html(option) + "\">"@ + text_html(option) + "</option>\n"@
}

/// The choices of a filter.
pub open spec fn options_html(options: Seq<Seq<char>>) -> Seq<char>
    decreases options.len(),
{
    if options.len() == 0 {
        seq![]
    } else {
        options_html(options.drop_last()) + option_html(options.last())
    }
}

/// A filter with its choices.
pub open spec fn select_html(name: Seq<char>, label: Seq<char>, options: Seq<Seq<char>>) -> Seq<
    char,
> {
    "<label>"@ + text_html(label) + "<select name=\""@ + attr_html(name)
        + "\"><option value=\"\">All</option>\n"@ + options_html(options) + "</select></label>\n"@
}

/// Appends a filter with its choices.
pub fn select(out: &mut String, name: &str, label: &str, options: &[String])
    ensures
        final(out)@ == old(out)@ + select_html(name@, label@, text::texts(options@)),
{
    let mut part = owned("<label>");
    part.append(html(label).as_str());
    part.append("<select name=\"");
    part.append(html_attr(name).as_str());
    part.append("\"><option value=\"\">All</option>\n");
    let ghost head = part@;
    let ghost all = text::texts(options@);
    assert(all.take(0) =~= seq![]);
    assert(head + options_html(all.take(0)) =~= head);
    for i in 0..options.len()
        invariant
            all == text::texts(options@),
            part@ == head + options_html(all.take(i as int)),
    {
        assert(all.take(i + 1).drop_last() =~= all.take(i as int));
        assert(all[i as int] == options@[i as int]@);
        let mut choice = owned("<option value=\"");
        choice.append(html_attr(options[i].as_str()).as_str());
        choice.append("\">");
        choice.append(html(options[i].as_str()).as_str());
        choice.append("</option>\n");
        part.append(choice.as_str());
        assert(part@ =~= head + (options_html(all.take(i as int)) + option_html(all[i as int])));
    }
    assert(all.take(all.len() as int) =~= all);
    part.append("</select></label>\n");
    out.append(part.as_str());
}

// ---------------------------------------------------------------------------
// Rows
// ---------------------------------------------------------------------------

/// The status of an event; nothing where it has none.
pub open spec fn badge_html(status: Seq<char>) -> Seq<char> {
    if status.len() == 0 {
        seq![]
    } else {
        " <span class=\"btc-status\">"@ + text_html(status) + "</span>"@
    }
}

/// The status of an event.
pub fn status_badge(status: &str) -> (out: String)
    ensures
        out@ == badge_html(status@),
{
    if status.is_empty() {
        String::new()
    } else {
        let mut out = owned(" <span class=\"btc-status\">");
        out.append(html(status).as_str());
        out.append("</span>");
        out
    }
}

/// The sign of a kind of events.
pub open spec fn sign(kind: Seq<char>) -> Seq<char> {
    if kind == "pull_request"@ {
        "⑂"@
    } else if kind == "review"@ {
        "✓"@
    } else if kind == "commit"@ {
        "●"@
    } else if kind == "comment"@ {
        "↩"@
    } else if kind == "issue"@ {
        "!"@
    } else if kind == "mixed"@ {
        "⋯"@
    } else {
        "•"@
    }
}

/// The sign of a kind of events.
pub fn icon(kind: &str) -> (out: &'static str)
    ensures
        out@ == sign(kind@),
{
    if same_text(kind, "pull_request") {
        "⑂"
    } else if same_text(kind, "review") {
        "✓"
    } else if same_text(kind, "commit") {
        "●"
    } else if same_text(kind, "comment") {
        "↩"
    } else if same_text(kind, "issue") {
        "!"
    } else if same_text(kind, "mixed") {
        "⋯"
    } else {
        "•"
    }
}

/// What events are grouped by: the repository and the day.
pub open spec fn key_of(e: EventModel) -> Seq<char> {
    e.repo + ":"@ + calendar::day_part(e.occurred_at)
}

/// What an event is grouped by: the repository and the day.
pub fn group_key(event: &Event) -> (out: String)
    ensures
        out@ == key_of(event@),
{
    let mut out = owned(event.repo.as_str());
    out.append(":");
    out.append(short_date(event.occurred_at.as_str()).as_str());
    out
}

/// The values of events that are referred to.
pub open spec fn referred(v: Seq<&Event>) -> Seq<EventModel> {
    v.map_values(|e: &Event| e@)
}

/// The kind of a group: that of its events, or `mixed` where they differ.
pub open spec fn kind_of(group: Seq<EventModel>) -> Seq<char> {
    if forall|i: int|
        0 <= i < group.len() ==> (#[trigger] group[i]).event_type == group[0].event_type {
        group[0].event_type
    } else {
        "mixed"@
    }
}

/// The kind of a group.
pub fn group_kind(group: &[&Event]) -> (out: String)
    requires
        group@.len() > 0,
    ensures
        out@ == kind_of(referred(group@)),
{
    let ghost all = referred(group@);
    assert(all[0] == group@[0]@);
    for i in 0..group.len()
        invariant
            group@.len() > 0,
            all == referred(group@),
            all[0] == group@[0]@,
            forall|j: int| 0 <= j < i ==> (#[trigger] all[j]).event_type == all[0].event_type,
    {
        assert(all[i as int] == group@[i as int]@);
        if !same_text(group[i].event_type.as_str(), group[0].event_type.as_str()) {
            return owned("mixed");
        }
    }
    owned(group[0].event_type.as_str())
}

/// The title of a group: that of its thread, or the number of its events.
pub open spec fn title_of(group: Seq<EventModel>) -> Seq<char> {
    if group.len() == 1 {
        group[0].thread_title
    } else {
        decimal::decimal(group.len()) + " activities"@
    }
}

/// The title of a group.
pub fn group_title(group: &[&Event]) -> (out: String)
    ensures
        out@ == title_of(referred(group@)),
{
    if group.len() == 1 {
        assert(referred(group@)[0] == group@[0]@);
        owned(group[0].thread_title.as_str())
    } else {
        let mut out = decimal_text(group.len() as u64);
        out.append(" activities");
        out
    }
}

/// The cell with the title of a group, which is a link where the group has one event.
pub open spec fn title_cell_html(group: Seq<EventModel>, title: Seq<char>) -> Seq<char> {
    if group.len() != 1 {
        "<span class=\"btc-row-title\"><span class=\"btc-row-title-text\">"@ + text_html(title)
            + "</span></span>"@
    } else {
        "<span class=\"btc-row-title\"><a href=\""@ + attr_html(group[0].url) + "\">"@ + text_html(
            title,
        ) + "</a></span>"@
    }
}

/// The cell with the title of a group.
pub fn row_title_cell(group: &[&Event], title: &str) -> (out: String)
    ensures
        out@ == title_cell_html(referred(group@), title@),
{
    if group.len() != 1 {
        let mut out = owned(
            "<span class=\"btc-row-title\"><span class=\"btc-row-title-text\">",
        );
        out.append(html(title).as_str());
        out.append("</span></span>");
        out
    } else {
        assert(referred(group@)[0] == group@[0]@);
        let mut out = owned("<span class=\"btc-row-title\"><a href=\"");
        out.append(html_attr(group[0].url.as_str()).as_str());
        out.append("\">");
        out.append(html(title).as_str());
        out.append("</a></span>");
        out
    }
}

// ---------------------------------------------------------------------------
// Laws
// ---------------------------------------------------------------------------

/// How the events of each type are called in the summary.
pub proof fn lemma_count_labels()
    ensures
        count_label("pull_request"@) == "pull requests"@,
        count_label("review"@) == "reviews"@,
        count_label("commit"@) == "commits"@,
        count_label("comment"@) == "comments"@,
        count_label("issue"@) == "issues"@,
        count_label("mixed"@) == "mixed"@,
        forall|kind: Seq<char>|
            kind != "pull_request"@ && kind != "review"@ && kind != "commit"@ && kind
                != "comment"@ && kind != "issue"@ && kind != "mixed"@ ==> #[trigger] count_label(
                kind,
            ) == "events"@,
{
    lemma_kinds_differ();
}

/// The signs of the types.
pub proof fn lemma_signs()
    ensures
        sign("pull_request"@) == "⑂"@,
        sign("review"@) == "✓"@,
        sign("commit"@) == "●"@,
        sign("comment"@) == "↩"@,
        sign("issue"@) == "!"@,
        sign("mixed"@) == "⋯"@,
        forall|kind: Seq<char>|
            kind != "pull_request"@ && kind != "review"@ && kind != "commit"@ && kind
                != "comment"@ && kind != "issue"@ && kind != "mixed"@ ==> #[trigger] sign(kind)
                == "•"@,
{
    lemma_kinds_differ();
}

/// The types differ from each other.
pub proof fn lemma_kinds_differ()
    ensures
        "pull_request"@ != "review"@ && "pull_request"@ != "commit"@ && "pull_request"@
            != "comment"@ && "pull_request"@ != "issue"@ && "pull_request"@ != "mixed"@,
        "review"@ != "commit"@ && "review"@ != "comment"@ && "review"@ != "issue"@ && "review"@
            != "mixed"@,
        "commit"@ != "comment"@ && "commit"@ != "issue"@ && "commit"@ != "mixed"@,
        "comment"@ != "issue"@ && "comment"@ != "mixed"@,
        "issue"@ != "mixed"@,
{
    reveal_strlit("pull_request");
    reveal_strlit("review");
    reveal_strlit("commit");
    reveal_strlit("comment");
    reveal_strlit("issue");
    reveal_strlit("mixed");
    assert("pull_request"@.len() == 12);
    assert("review"@.len() == 6 && "review"@[0] == 'r');
    assert("commit"@.len() == 6 && "commit"@[0] == 'c');
    assert("comment"@.len() == 7);
    assert("issue"@.len() == 5 && "issue"@[0] == 'i');
    assert("mixed"@.len() == 5 && "mixed"@[0] == 'm');
}

/// A group is of the type of its events where these are all of one type, and is mixed where
/// two of them differ.
pub proof fn lemma_kind_of(group: Seq<EventModel>, i: int, j: int)
    requires
        0 <= i < group.len(),
        0 <= j < group.len(),
    ensures
        (forall|k: int| 0 <= k < group.len() ==> (#[trigger] group[k]).event_type
            == group[i].event_type) ==> kind_of(group) == group[i].event_type,
        group[i].event_type != group[j].event_type ==> kind_of(group) == "mixed"@,
{
    if forall|k: int|
        0 <= k < group.len() ==> (#[trigger] group[k]).event_type == group[i].event_type {
        assert(group[0].event_type == group[i].event_type);
    }
}

/// A group of one event has the title of its thread, and any other tells how many events it
/// has.
pub proof fn lemma_title_of(group: Seq<EventModel>)
    ensures
        group.len() == 1 ==> title_of(group) == group[0].thread_title,
        group.len() != 1 ==> title_of(group) == decimal::decimal(group.len()) + " activities"@,
{
}

/// The choices of a filter are those of its options, one after another.
pub proof fn lemma_options_concat(a: Seq<Seq<char>>, b: Seq<Seq<char>>)
    ensures
        options_html(a + b) == options_html(a) + options_html(b),
    decreases b.len(),
{
    if b.len() == 0 {
        assert(a + b =~= a);
        assert(options_html(a) + options_html(b) =~= options_html(a));
    } else {
        lemma_options_concat(a, b.drop_last());
        assert((a + b).drop_last() =~= a + b.drop_last());
        assert((a + b).last() == b.last());
        assert(options_html(a) + options_html(b.drop_last()) + option_html(b.last())
            =~= options_html(a) + (options_html(b.drop_last()) + option_html(b.last())));
    }
}

/// A filter has a choice for each of its options, and one for all of them.
pub proof fn lemma_select(
    name: Seq<char>,
    label: Seq<char>,
    options: Seq<Seq<char>>,
    option: Seq<char>,
)
    ensures
        text::has_text(
            select_html(name, label, options),
            "<select name=\""@ + attr_html(name) + "\"><option value=\"\">All</option>\n"@,
        ),
        options.contains(option) ==> text::has_text(
            select_html(name, label, options),
            "<option value=\""@ + attr_html(option) + "\">"@ + text_html(option) + "</option>\n"@,
        ),
{
    let choices = options_html(options);
    let a = "<label>"@ + text_html(label);
    let a1 = "<select name=\""@;
    let a2 = attr_html(name);
    let a3 = "\"><option value=\"\">All</option>\n"@;
    let b = a1 + a2 + a3;
    let d = "</select></label>\n"@;
    lemma_in_row(a, a1, a2, a3);
    assert(select_html(name, label, options) == a + b + choices + d);
    text::lemma_has_itself(b);
    text::lemma_has_text_in(a, b, choices, b);
    text::lemma_has_text_in(seq![], a + b + choices, d, b);
    lemma_first_of_two(a + b + choices, d);
    if options.contains(option) {
        lemma_option_offered(options, option);
        text::lemma_has_text_in(a + b, choices, d, option_html(option));
    }
}

/// Texts in a row may be grouped from the second one on.
proof fn lemma_in_row(a: Seq<char>, b: Seq<char>, c: Seq<char>, d: Seq<char>)
    ensures
        a + b + c + d == a + (b + c + d),
{
    assert(a + b + c + d =~= a + (b + c + d));
}

/// Nothing before a text leaves it as it is.
proof fn lemma_first_of_two(a: Seq<char>, b: Seq<char>)
    ensures
        Seq::<char>::empty() + a + b == a + b,
{
    assert(Seq::<char>::empty() + a + b =~= a + b);
}

/// Each of the options is among the choices.
#[verifier::spinoff_prover]
proof fn lemma_option_offered(options: Seq<Seq<char>>, option: Seq<char>)
    requires
        options.contains(option),
    ensures
        text::has_text(options_html(options), option_html(option)),
{
    let i = choose|i: int| 0 <= i < options.len() && options[i] == option;
    let one = option_html(option);
    let before = options.take(i);
    let after = options.skip(i + 1);
    let front = options.take(i + 1);
    lemma_options_concat(front, after);
    assert(front + after =~= options);
    assert(front.drop_last() =~= before);
    assert(front.last() == option);
    assert(options_html(front) == options_html(before) + one);
    text::lemma_has_itself(one);
    text::lemma_has_text_in(options_html(before), one, options_html(after), one);
}

/// The title of a group of one event is a link to that event; that of a larger group is plain
/// text.
pub proof fn lemma_title_cell(group: Seq<EventModel>, title: Seq<char>)
    ensures
        group.len() == 1 ==> text::has_text(
            title_cell_html(group, title),
            "<a href=\""@ + attr_html(group[0].url) + "\">"@ + text_html(title) + "</a>"@,
        ),
        group.len() != 1 ==> text::has_text(
            title_cell_html(group, title),
            "<span class=\"btc-row-title-text\">"@ + text_html(title) + "</span>"@,
        ),
{
    let t = text_html(title);
    if group.len() == 1 {
        let u = attr_html(group[0].url);
        let link = "<a href=\""@ + u + "\">"@ + t + "</a>"@;
        reveal_strlit("<span class=\"btc-row-title\"><a href=\"");
        reveal_strlit("<span class=\"btc-row-title\">");
        reveal_strlit("<a href=\"");
        reveal_strlit("</a></span>");
        reveal_strlit("</a>");
        reveal_strlit("</span>");
        assert("<span class=\"btc-row-title\"><a href=\""@ =~= "<span class=\"btc-row-title\">"@
            + "<a href=\""@);
        assert("</a></span>"@ =~= "</a>"@ + "</span>"@);
        assert(title_cell_html(group, title) =~= "<span class=\"btc-row-title\">"@ + link
            + "</span>"@);
        text::lemma_has_text(title_cell_html(group, title), link);
    } else {
        let plain = "<span class=\"btc-row-title-text\">"@ + t + "</span>"@;
        reveal_strlit("<span class=\"btc-row-title\"><span class=\"btc-row-title-text\">");
        reveal_strlit("<span class=\"btc-row-title\">");
        reveal_strlit("<span class=\"btc-row-title-text\">");
        reveal_strlit("</span></span>");
        reveal_strlit("</span>");
        assert("<span class=\"btc-row-title\"><span class=\"btc-row-title-text\">"@
            =~= "<span class=\"btc-row-title\">"@ + "<span class=\"btc-row-title-text\">"@);
        assert("</span></span>"@ =~= "</span>"@ + "</span>"@);
        assert(title_cell_html(group, title) =~= "<span class=\"btc-row-title\">"@ + plain
            + "</span>"@);
        text::lemma_has_text(title_cell_html(group, title), plain);
    }
}

/// The number of a summary stands before its label.
pub proof fn lemma_stat(label: Seq<char>, value: nat)
    requires
        !label.contains('_'),
    ensures
        stat_html(label, value) == "<div><strong>"@ + decimal::decimal(value)
            + "</strong><span>"@ + text_html(label) + "</span></div>\n"@,
{
    assert(text::with_char_replaced(label, '_', ' ') =~= label) by {
        assert forall|i: int| 0 <= i < label.len() implies #[trigger] label[i] != '_' by {
            assert(label.contains(label[i]));
        }
    }
}

/// A text without ampersands and angle brackets stands in a page as it is.
pub proof fn lemma_plain_html(s: Seq<char>)
    requires
        forall|i: int|
            0 <= i < s.len() ==> #[trigger] s[i] != '&' && s[i] != '<' && s[i] != '>',
    ensures
        text_html(s) == s,
    decreases s.len(),
{
    if s.len() > 0 {
        let front = s.drop_last();
        assert forall|i: int| 0 <= i < front.len() implies #[trigger] front[i] != '&' && front[i]
            != '<' && front[i] != '>' by {
            assert(s[i] != '&');
        }
        lemma_plain_html(front);
        assert(s[s.len() - 1] != '&');
        assert(front + seq![s.last()] =~= s);
    }
}

} // verus!
