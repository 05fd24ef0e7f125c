//! The search for threads with comments, and the comments in a thread.

use crate::calendar;
use crate::calendar::date_from_days;
use crate::config::{Config, ConfigModel};
use crate::contributions;
use crate::contributions::thread_name_of;
use crate::decimal;
use crate::decimal::signed_text;
use crate::event;
use crate::event::{Event, EventModel};
use crate::fields;
use crate::fields::{integer_of_field, list_of, text_of};
use crate::grammar::JsonModel;
use crate::json;
use crate::json::Json;
use crate::number;
use crate::number::as_rounded_text;
use crate::request;
use crate::request::{url_encode, Channel, Request, RequestModel};
use crate::text;
use crate::text::{owned, same_text, strip_prefix, text_less};
use vstd::prelude::*;

verus! {

// ---------------------------------------------------------------------------
// Queries
// ---------------------------------------------------------------------------

/// The query for threads of a scope that a user commented on and that changed between two
/// days, both of them counted in.
pub open spec fn query_text(
    scope: Seq<char>,
    username: Seq<char>,
    start_day: int,
    end_day: int,
) -> Seq<char> {
    scope + " commenter:"@ + username + " updated:"@ + calendar::date_text(
        calendar::civil(start_day),
    ) + ".."@ + calendar::date_text(calendar::civil(end_day))
}

/// Whether a day can be written as a date.
pub open spec fn datable(day: int) -> bool {
    day <= i64::MAX - 719_468
}

/// The query for threads of a scope that a user commented on between two days.
pub fn comment_search_query_text(
    scope: &str,
    username: &str,
    start_day: i64,
    end_day: i64,
) -> (out: String)
    requires
        datable(start_day as int),
        datable(end_day as int),
    ensures
        out@ == query_text(scope@, username@, start_day as int, end_day as int),
{
    let mut out = owned(scope);
    out.append(" commenter:");
    out.append(username);
    out.append(" updated:");
    out.append(date_from_days(start_day).as_str());
    out.append("..");
    out.append(date_from_days(end_day).as_str());
    out
}

/// The request for a page of what a query finds.
pub open spec fn search_request(query: Seq<char>, page: int) -> RequestModel {
    request::get_request(
        Channel::Rest,
        "https://api.github.com/search/issues?q="@ + request::percent_encoded(
            vstd::utf8::encode_utf8(query),
        ) + "&per_page=100&page="@ + decimal::signed_decimal(page),
    )
}

/// The request for a page of what a query finds.
pub fn fetch_comment_search_page(query_text: &str, page: i64) -> (out: Request)
    ensures
        out@ == search_request(query_text@, page as int),
{
    let mut url = owned("https://api.github.com/search/issues?q=");
    url.append(url_encode(query_text).as_str());
    url.append("&per_page=100&page=");
    url.append(signed_text(page).as_str());
    Request::get(Channel::Rest, url)
}

// ---------------------------------------------------------------------------
// Result pages
// ---------------------------------------------------------------------------

/// A thread that a search found.
#[derive(Debug)]
pub struct CommentThread {
    pub repo: String,
    pub number: i64,
    pub title: String,
    pub url: String,
}

/// The mathematical value of a thread.
#[verifier::ext_equal]
pub struct ThreadModel {
    pub repo: Seq<char>,
    pub number: int,
    pub title: Seq<char>,
    pub url: Seq<char>,
}

impl View for CommentThread {
    type V = ThreadModel;

    open spec fn view(&self) -> ThreadModel {
        ThreadModel {
            repo: self.repo@,
            number: self.number as int,
            title: self.title@,
            url: self.url@,
        }
    }
}

impl Clone for CommentThread {
    fn clone(&self) -> (copy: CommentThread)
        ensures
            copy@ == self@,
    {
        CommentThread {
            repo: owned(self.repo.as_str()),
            number: self.number,
            title: owned(self.title.as_str()),
            url: owned(self.url.as_str()),
        }
    }
}

/// The values of threads.
pub open spec fn thread_models(v: Seq<CommentThread>) -> Seq<ThreadModel> {
    v.map_values(|t: CommentThread| t@)
}

/// A page of what a search found.
#[derive(Debug)]
pub struct CommentSearchPage {
    pub issue_count: i64,
    pub threads: Vec<CommentThread>,
    pub has_next: bool,
}

/// The mathematical value of a page.
#[verifier::ext_equal]
pub struct PageModel {
    pub issue_count: int,
    pub threads: Seq<ThreadModel>,
    pub has_next: bool,
}

impl View for CommentSearchPage {
    type V = PageModel;

    open spec fn view(&self) -> PageModel {
        PageModel {
            issue_count: self.issue_count as int,
            threads: thread_models(self.threads@),
            has_next: self.has_next,
        }
    }
}

/// The repository that a link of the REST interface leads to.
pub open spec fn api_repo(url: Seq<char>) -> Option<Seq<char>> {
    let front = "https://api.github.com/repos/"@;
    if front.is_prefix_of(url) {
        Some(url.skip(front.len() as int))
    } else {
        None
    }
}

/// The repository that a link of the REST interface leads to.
pub fn repo_from_api_url(url: &str) -> (out: Option<String>)
    ensures
        match out {
            Some(repo) => api_repo(url@) == Some(repo@),
            None => api_repo(url@) is None,
        },
{
    strip_prefix(url, "https://api.github.com/repos/")
}

/// The thread that an item of a page stands for, if it is complete.
pub open spec fn item_thread(item: JsonModel) -> Option<ThreadModel> {
    let repo = match fields::string_in(item, "repository_url"@) {
        Some(url) => match api_repo(url) {
            Some(repo) => repo,
            None => seq![],
        },
        None => seq![],
    };
    let number = fields::integer_in(item, "number"@, 0);
    let title = fields::text_field(item, "title"@);
    let url = fields::text_field(item, "html_url"@);
    if repo.len() > 0 && number > 0 && title.len() > 0 && url.len() > 0 {
        Some(ThreadModel { repo, number, title, url })
    } else {
        None
    }
}

/// The threads of items, in their order.
pub open spec fn item_threads(items: Seq<JsonModel>) -> Seq<ThreadModel>
    decreases items.len(),
{
    if items.len() == 0 {
        seq![]
    } else {
        let front = item_threads(items.drop_last());
        match item_thread(items.last()) {
            Some(t) => front.push(t),
            None => front,
        }
    }
}

/// Whether a search that finds so many threads has a page behind the given one. GitHub
/// hands out ten pages of a hundred threads.
pub open spec fn more_pages(page: int, issue_count: int) -> bool {
    page * 100 < issue_count && page < 10
}

/// What a page of a search says.
pub open spec fn search_page(value: JsonModel, page: int) -> PageModel {
    let issue_count = fields::integer_in(value, "total_count"@, 0);
    PageModel {
        issue_count,
        threads: item_threads(fields::list_field(value, "items"@)),
        has_next: more_pages(page, issue_count),
    }
}

/// Reads the thread that an item of a page stands for, if it is complete.
fn read_thread(item: &Json) -> (out: Option<CommentThread>)
    ensures
        match out {
            Some(t) => item_thread(item@) == Some(t@),
            None => item_thread(item@) is None,
        },
{
    let link = text_of(item, "repository_url");
    let repo = match repo_from_api_url(link.as_str()) {
        Some(repo) => repo,
        None => String::new(),
    };
    proof {
        reveal_strlit("https://api.github.com/repos/");
    }
    let number = integer_of_field(item, "number", 0);
    let title = text_of(item, "title");
    let url = text_of(item, "html_url");
    if !repo.as_str().is_empty() && number > 0 && !title.as_str().is_empty()
        && !url.as_str().is_empty() {
        Some(CommentThread { repo, number, title, url })
    } else {
        None
    }
}

/// Reads a page of a search.
pub fn parse_comment_search_page(value: &Json, page: i64) -> (out: Result<
    CommentSearchPage,
    String,
>)
    requires
        i64::MIN <= page * 100 <= i64::MAX,
    ensures
        out matches Ok(p) && p@ == search_page(value@, page as int),
{
    let issue_count = integer_of_field(value, "total_count", 0);
    let items = list_of(value, "items");
    let ghost all = json::item_models(items@);
    let mut threads: Vec<CommentThread> = Vec::new();
    proof {
        json::lemma_item_models(items@);
        assert(all.take(0) =~= seq![]);
        assert(thread_models(threads@) =~= seq![]);
    }
    for i in 0..items.len()
        invariant
            all == json::item_models(items@),
            all.len() == items@.len(),
            forall|j: int|
                0 <= j < items@.len() ==> all[j] == json::json_model(#[trigger] items@[j]),
            thread_models(threads@) == item_threads(all.take(i as int)),
    {
        assert(all.take(i + 1).drop_last() =~= all.take(i as int));
        assert(all[i as int] == json::json_model(items@[i as int]));
        let ghost before = thread_models(threads@);
        if let Some(t) = read_thread(&items[i]) {
            let ghost model = t@;
            threads.push(t);
            assert(thread_models(threads@) =~= before.push(model));
        }
    }
    assert(all.take(all.len() as int) =~= all);
    let out = CommentSearchPage {
        issue_count,
        threads,
        has_next: page * 100 < issue_count && page < 10,
    };
    Ok(out)
}

// ---------------------------------------------------------------------------
// Comments
// ---------------------------------------------------------------------------

/// The link to a page of the comments in a thread.
pub open spec fn comments_url(repo: Seq<char>, number: int, page: int) -> Seq<char> {
    "https://api.github.com/repos/"@ + repo + "/issues/"@ + decimal::signed_decimal(number)
        + "/comments?per_page=100&page="@ + decimal::signed_decimal(page)
}

/// The request for a page of the comments in a thread.
pub fn fetch_thread_comments_page(channel: Channel, repo: &str, number: i64, page: i64) -> (out:
    Request)
    ensures
        out@ == request::get_request(channel, comments_url(repo@, number as int, page as int)),
{
    let mut url = owned("https://api.github.com/repos/");
    url.append(repo);
    url.append("/issues/");
    url.append(signed_text(number).as_str());
    url.append("/comments?per_page=100&page=");
    url.append(signed_text(page).as_str());
    Request::get(channel, url)
}

/// An id as a text: a string as it is, a number without a fraction.
pub open spec fn id_text(value: Option<JsonModel>) -> Seq<char> {
    match value {
        Some(JsonModel::String(s)) => s,
        Some(JsonModel::Number(n)) => number::rounded_text(n),
        _ => seq![],
    }
}

/// An id as a text.
pub fn json_id_string(value: Option<&Json>) -> (out: String)
    ensures
        out@ == id_text(json::opt_model(value)),
{
    if let Some(inner) = value {
        if let Some(s) = inner.string() {
            return owned(s);
        }
        if let Some(n) = inner.number() {
            return as_rounded_text(n);
        }
    }
    String::new()
}

/// The event of a comment, if the user made it and it is not older than the given time.
pub open spec fn comment_event(
    c: ConfigModel,
    thread: ThreadModel,
    comment: JsonModel,
    from: Seq<char>,
) -> Option<EventModel> {
    let occurred_at = fields::text_field(comment, "created_at"@);
    if json::at_path(comment, seq!["user"@, "login"@]) == Some(JsonModel::String(c.username))
        && occurred_at.len() > 0 && !text::text_lt(occurred_at, from) {
        Some(
            EventModel {
                id: id_text(json::field(comment, "id"@)),
                event_type: "comment"@,
                repo: thread.repo,
                title: "Commented on "@ + thread.title,
                url: fields::text_field(comment, "html_url"@),
                occurred_at,
                thread_id: contributions::thread_name(thread.repo, thread.number),
                thread_title: thread.title,
                thread_url: thread.url,
                status: ""@,
            },
        )
    } else {
        None
    }
}

/// The events of comments, in their order.
pub open spec fn comment_events(
    c: ConfigModel,
    thread: ThreadModel,
    comments: Seq<JsonModel>,
    from: Seq<char>,
) -> Seq<EventModel>
    decreases comments.len(),
{
    if comments.len() == 0 {
        seq![]
    } else {
        let front = comment_events(c, thread, comments.drop_last(), from);
        match comment_event(c, thread, comments.last(), from) {
            Some(e) => front.push(e),
            None => front,
        }
    }
}

/// Whether a comment was made by the user.
fn made_by(comment: &Json, username: &str) -> (out: bool)
    ensures
        out == (json::at_path(comment@, seq!["user"@, "login"@]) == Some(
            JsonModel::String(username@),
        )),
{
    let path = ["user", "login"];
    assert(json::path_texts(path@) =~= seq!["user"@, "login"@]);
    if let Some(inner) = comment.get_path(&path) {
        if let Some(login) = inner.string() {
            return same_text(login, username);
        }
    }
    false
}

/// Reads the event of a comment, if the user made it and it is not older than the given
/// time.
fn read_comment(config: &Config, thread: &CommentThread, comment: &Json, from: &str) -> (out:
    Option<Event>)
    ensures
        contributions::event_outcome(out) == comment_event(config@, thread@, comment@, from@),
{
    if !made_by(comment, config.username.as_str()) {
        return None;
    }
    let occurred_at = text_of(comment, "created_at");
    if occurred_at.as_str().is_empty() || text_less(occurred_at.as_str(), from) {
        return None;
    }
    let mut title = owned("Commented on ");
    title.append(thread.title.as_str());
    let e = Event {
        id: json_id_string(comment.get("id")),
        event_type: owned("comment"),
        repo: owned(thread.repo.as_str()),
        title,
        url: text_of(comment, "html_url"),
        occurred_at,
        thread_id: thread_name_of(thread.repo.as_str(), thread.number),
        thread_title: owned(thread.title.as_str()),
        thread_url: owned(thread.url.as_str()),
        status: owned(""),
    };
    Some(e)
}

/// Reads the events of a page of comments: those that the user made and that are not older
/// than the given time.
pub fn fetch_thread_comment_events(
    config: &Config,
    thread: &CommentThread,
    comments: &[Json],
    from: &str,
) -> (out: Vec<Event>)
    ensures
        event::models(out@) == comment_events(
            config@,
            thread@,
            json::item_models(comments@),
            from@,
        ),
{
    let ghost all = json::item_models(comments@);
    let ghost c = config@;
    let ghost t = thread@;
    let mut out: Vec<Event> = Vec::new();
    proof {
        json::lemma_item_models(comments@);
        assert(all.take(0) =~= seq![]);
        assert(event::models(out@) =~= seq![]);
    }
    for i in 0..comments.len()
        invariant
            c == config@,
            t == thread@,
            all == json::item_models(comments@),
            all.len() == comments@.len(),
            forall|j: int|
                0 <= j < comments@.len() ==> all[j] == json::json_model(#[trigger] comments@[j]),
            event::models(out@) == comment_events(c, t, all.take(i as int), from@),
    {
        assert(all.take(i + 1).drop_last() =~= all.take(i as int));
        assert(all[i as int] == json::json_model(comments@[i as int]));
        let ghost before = event::models(out@);
        if let Some(e) = read_comment(config, thread, &comments[i], from) {
            let ghost model = e@;
            out.push(e);
            assert(event::models(out@) =~= before.push(model));
        }
    }
    assert(all.take(all.len() as int) =~= all);
    out
}

// ---------------------------------------------------------------------------
// Laws
// ---------------------------------------------------------------------------

/// Whether an item of a page holds the link of a repository, the number, the title and the
/// link of a thread, none of them empty.
pub open spec fn tells_of(item: JsonModel, t: ThreadModel) -> bool {
    &&& t.repo.len() > 0 && t.number > 0 && t.title.len() > 0 && t.url.len() > 0
    &&& json::holds(
        item,
        "repository_url"@,
        JsonModel::String("https://api.github.com/repos/"@ + t.repo),
    )
    &&& exists|n: Seq<char>|
        json::holds(item, "number"@, JsonModel::Number(n)) && #[trigger] number::integer_of(n)
            == t.number
    &&& json::holds(item, "title"@, JsonModel::String(t.title))
    &&& json::holds(item, "html_url"@, JsonModel::String(t.url))
}

/// Whether an item of a page tells of a thread.
pub open spec fn complete(item: JsonModel) -> bool {
    exists|t: ThreadModel| tells_of(item, t)
}

/// A link to a repository is the front of all such links and the name of the repository.
pub proof fn lemma_api_repo(url: Seq<char>, repo: Seq<char>)
    ensures
        api_repo(url) == Some(repo) <==> url == "https://api.github.com/repos/"@ + repo,
{
    let front = "https://api.github.com/repos/"@;
    if api_repo(url) == Some(repo) {
        assert(url =~= front + repo);
    }
    if url == front + repo {
        assert(url.subrange(0, front.len() as int) =~= front);
        assert(url.skip(front.len() as int) =~= repo);
    }
}

/// An item stands for the thread that it tells of, and for none where it tells of none.
pub proof fn lemma_item_thread(item: JsonModel, t: ThreadModel)
    ensures
        item_thread(item) == Some(t) <==> tells_of(item, t),
{
    let front = "https://api.github.com/repos/"@;
    if item_thread(item) == Some(t) {
        let url = fields::string_in(item, "repository_url"@)->0;
        lemma_api_repo(url, t.repo);
        let n = json::as_number(json::field(item, "number"@)->0)->0;
        assert(json::holds(item, "number"@, JsonModel::Number(n)));
        assert(number::integer_of(n) == t.number);
    }
    if tells_of(item, t) {
        lemma_api_repo(front + t.repo, t.repo);
        let n = choose|n: Seq<char>|
            json::holds(item, "number"@, JsonModel::Number(n)) && #[trigger] number::integer_of(n)
                == t.number;
        fields::lemma_integer_in(item, "number"@, 0, n);
        assert(item_thread(item)->0 =~= t);
    }
}

/// The threads of items behind others stand behind those of the others.
pub proof fn lemma_item_threads_concat(a: Seq<JsonModel>, b: Seq<JsonModel>)
    ensures
        item_threads(a + b) == item_threads(a) + item_threads(b),
    decreases b.len(),
{
    if b.len() == 0 {
        assert(a + b =~= a);
        assert(item_threads(a) + item_threads(b) =~= item_threads(a));
    } else {
        lemma_item_threads_concat(a, b.drop_last());
        assert((a + b).drop_last() =~= a + b.drop_last());
        assert(item_threads(a + b) =~= item_threads(a) + item_threads(b));
    }
}

/// A page gives the thread of every item that tells of one, one thread for each, and no
/// other.
proof fn lemma_item_threads(items: Seq<JsonModel>)
    ensures
        item_threads(items).len() == items.filter(|item: JsonModel| complete(item)).len(),
        forall|i: int, t: ThreadModel|
            0 <= i < items.len() && #[trigger] tells_of(items[i], t) ==> item_threads(
                items,
            ).contains(t),
        forall|k: int|
            0 <= k < item_threads(items).len() ==> exists|i: int|
                0 <= i < items.len() && tells_of(
                    #[trigger] items[i],
                    #[trigger] item_threads(items)[k],
                ),
    decreases items.len(),
{
    reveal(Seq::filter);
    let out = item_threads(items);
    if items.len() > 0 {
        let front = items.drop_last();
        let before = item_threads(front);
        let last = items.last();
        lemma_item_threads(front);
        if let Some(t) = item_thread(last) {
            lemma_item_thread(last, t);
            assert(complete(last));
        } else {
            assert forall|t: ThreadModel| !tells_of(last, t) by {
                lemma_item_thread(last, t);
            }
        }
        assert forall|i: int, t: ThreadModel|
            0 <= i < items.len() && #[trigger] tells_of(items[i], t) implies out.contains(t) by {
            if i < front.len() {
                assert(tells_of(front[i], t));
                let k = choose|k: int| 0 <= k < before.len() && before[k] == t;
                assert(out[k] == t);
            } else {
                lemma_item_thread(last, t);
                assert(out[before.len() as int] == t);
            }
        }
        assert forall|k: int| 0 <= k < out.len() implies exists|i: int|
            0 <= i < items.len() && tells_of(#[trigger] items[i], #[trigger] out[k]) by {
            if k < before.len() {
                assert(out[k] == before[k]);
                let i = choose|i: int|
                    0 <= i < front.len() && tells_of(#[trigger] front[i], before[k]);
                assert(tells_of(items[i], out[k]));
            } else {
                lemma_item_thread(last, out[k]);
                assert(tells_of(items[items.len() - 1], out[k]));
            }
        }
    }
}

/// A page of a search gives the thread of every item that tells of one, as many threads as
/// there are such items, and no other, in the order of the items.
pub proof fn lemma_search_page(value: JsonModel, page: int, items: Seq<JsonModel>)
    requires
        json::holds(value, "items"@, JsonModel::Array(items)),
    ensures
        search_page(value, page).threads == item_threads(items),
        search_page(value, page).threads.len() == items.filter(
            |item: JsonModel| complete(item),
        ).len(),
        forall|i: int, t: ThreadModel|
            0 <= i < items.len() && #[trigger] tells_of(items[i], t) ==> search_page(
                value,
                page,
            ).threads.contains(t),
        forall|k: int|
            0 <= k < search_page(value, page).threads.len() ==> exists|i: int|
                0 <= i < items.len() && tells_of(
                    #[trigger] items[i],
                    #[trigger] search_page(value, page).threads[k],
                ),
{
    fields::lemma_list_field(value, "items"@, items);
    lemma_item_threads(items);
}

/// A page tells how many threads the search finds. Another page follows where these are more
/// than a hundred for each page so far, up to the tenth page.
pub proof fn lemma_search_count(value: JsonModel, page: int, n: Seq<char>)
    requires
        json::holds(value, "total_count"@, JsonModel::Number(n)),
    ensures
        search_page(value, page).issue_count == number::integer_of(n),
        search_page(value, page).has_next <==> page < 10 && number::integer_of(n) > 100 * page,
{
    fields::lemma_integer_in(value, "total_count"@, 0, n);
}

/// Whether a comment was made by the user at the given time, which is not before the other.
pub open spec fn counts(comment: JsonModel, username: Seq<char>, at: Seq<char>, from: Seq<char>) -> bool {
    &&& exists|user: JsonModel|
        json::holds(comment, "user"@, user) && #[trigger] json::holds(
            user,
            "login"@,
            JsonModel::String(username),
        )
    &&& json::holds(comment, "created_at"@, JsonModel::String(at))
    &&& at.len() > 0
    &&& at == from || text::text_lt(from, at)
}

/// A comment gives an event if and only if the user made it and it is not before the given
/// time. The event tells of the thread, and of the time, the id and the link of the comment.
pub proof fn lemma_comment_event(
    c: ConfigModel,
    thread: ThreadModel,
    comment: JsonModel,
    from: Seq<char>,
    at: Seq<char>,
)
    ensures
        comment_event(c, thread, comment, from) is Some <==> exists|t: Seq<char>| #[trigger]
            counts(comment, c.username, t, from),
        counts(comment, c.username, at, from) ==> {
            let e = comment_event(c, thread, comment, from)->0;
            &&& e.event_type == "comment"@
            &&& e.repo == thread.repo
            &&& e.title == "Commented on "@ + thread.title
            &&& e.occurred_at == at
            &&& e.thread_id == thread.repo + "#"@ + decimal::signed_decimal(thread.number)
            &&& e.thread_title == thread.title
            &&& e.thread_url == thread.url
            &&& e.status.len() == 0
            &&& forall|s: Seq<char>|
                json::holds(comment, "id"@, JsonModel::String(s)) ==> e.id == s
            &&& forall|n: Seq<char>|
                json::holds(comment, "id"@, JsonModel::Number(n)) ==> e.id
                    == number::rounded_text(n)
            &&& forall|url: Seq<char>|
                json::holds(comment, "html_url"@, JsonModel::String(url)) ==> e.url == url
        },
{
    let found = fields::text_field(comment, "created_at"@);
    reveal_strlit("");
    json::lemma_two_keys(comment, "user"@, "login"@, JsonModel::String(c.username));
    fields::lemma_text_field(comment, "created_at"@, found);
    text::lemma_text_lt_total(found, from);
    if comment_event(c, thread, comment, from) is Some {
        assert(counts(comment, c.username, found, from));
    }
    if exists|t: Seq<char>| #[trigger] counts(comment, c.username, t, from) {
        let t = choose|t: Seq<char>| #[trigger] counts(comment, c.username, t, from);
        fields::lemma_text_field(comment, "created_at"@, t);
        text::lemma_text_lt_irreflexive(t);
        if text::text_lt(from, t) {
            text::lemma_text_lt_asymmetric(from, t);
        }
    }
    if counts(comment, c.username, at, from) {
        fields::lemma_text_field(comment, "created_at"@, at);
        assert forall|url: Seq<char>|
            json::holds(comment, "html_url"@, JsonModel::String(url)) implies comment_event(
            c,
            thread,
            comment,
            from,
        )->0.url == url by {
            fields::lemma_text_field(comment, "html_url"@, url);
        }
    }
}

/// The events of comments behind others stand behind those of the others.
pub proof fn lemma_comment_events_concat(
    c: ConfigModel,
    thread: ThreadModel,
    a: Seq<JsonModel>,
    b: Seq<JsonModel>,
    from: Seq<char>,
)
    ensures
        comment_events(c, thread, a + b, from) == comment_events(c, thread, a, from)
            + comment_events(c, thread, b, from),
    decreases b.len(),
{
    if b.len() == 0 {
        assert(a + b =~= a);
        assert(comment_events(c, thread, a, from) + comment_events(c, thread, b, from)
            =~= comment_events(c, thread, a, from));
    } else {
        lemma_comment_events_concat(c, thread, a, b.drop_last(), from);
        assert((a + b).drop_last() =~= a + b.drop_last());
        assert(comment_events(c, thread, a + b, from) =~= comment_events(c, thread, a, from)
            + comment_events(c, thread, b, from));
    }
}

/// Comments give as many events as there are among them that the user made and that are not
/// before the given time, and every one of these gives its event.
pub proof fn lemma_comment_events(
    c: ConfigModel,
    thread: ThreadModel,
    comments: Seq<JsonModel>,
    from: Seq<char>,
)
    ensures
        comment_events(c, thread, comments, from).len() == comments.filter(
            |x: JsonModel| exists|t: Seq<char>| #[trigger] counts(x, c.username, t, from),
        ).len(),
        forall|i: int, t: Seq<char>|
            0 <= i < comments.len() && #[trigger] counts(comments[i], c.username, t, from)
                ==> comment_events(c, thread, comments, from).contains(
                comment_event(c, thread, comments[i], from)->0,
            ),
    decreases comments.len(),
{
    reveal(Seq::filter);
    let out = comment_events(c, thread, comments, from);
    if comments.len() > 0 {
        let front = comments.drop_last();
        let before = comment_events(c, thread, front, from);
        lemma_comment_events(c, thread, front, from);
        lemma_comment_event(c, thread, comments.last(), from, seq![]);
        assert forall|i: int, t: Seq<char>|
            0 <= i < comments.len() && #[trigger] counts(
                comments[i],
                c.username,
                t,
                from,
            ) implies out.contains(comment_event(c, thread, comments[i], from)->0) by {
            lemma_comment_event(c, thread, comments[i], from, t);
            let e = comment_event(c, thread, comments[i], from)->0;
            if i < front.len() {
                assert(counts(front[i], c.username, t, from));
                let k = choose|k: int| 0 <= k < before.len() && before[k] == e;
                assert(out[k] == e);
            } else {
                assert(out[before.len() as int] == e);
            }
        }
    }
}

/// The query names the scope, the user and the days, the first and the last of which are
/// written as dates.
pub proof fn lemma_query_text(
    scope: Seq<char>,
    username: Seq<char>,
    first: (int, int, int),
    last: (int, int, int),
)
    requires
        calendar::valid_date(first.0, first.1, first.2),
        calendar::valid_date(last.0, last.1, last.2),
    ensures
        query_text(
            scope,
            username,
            calendar::day_number(first.0, first.1, first.2),
            calendar::day_number(last.0, last.1, last.2),
        ) == scope + " commenter:"@ + username + " updated:"@ + calendar::date_text(first)
            + ".."@ + calendar::date_text(last),
{
    calendar::lemma_civil(first, calendar::day_number(first.0, first.1, first.2));
    calendar::lemma_civil(last, calendar::day_number(last.0, last.1, last.2));
}

/// A search asks for a page of a hundred threads, and its link carries the query.
pub proof fn lemma_search_request(query: Seq<char>, page: int)
    ensures
        search_request(query, page).channel == Channel::Rest,
        search_request(query, page).method == "GET"@,
        search_request(query, page).body is None,
        exists|q: Seq<char>|
            #![trigger request::percent_decoded(q)]
            search_request(query, page).url == "https://api.github.com/search/issues?q="@ + q
                + "&per_page=100&page="@ + decimal::signed_decimal(page)
                && vstd::utf8::decode_utf8(request::percent_decoded(q)) == query,
{
    let q = request::percent_encoded(vstd::utf8::encode_utf8(query));
    request::lemma_url_decoded(query);
    assert(vstd::utf8::decode_utf8(request::percent_decoded(q)) == query);
}

/// The comments of a thread are asked for by pages of a hundred.
pub proof fn lemma_comments_url(repo: Seq<char>, number: int, page: int)
    ensures
        comments_url(repo, number, page) == "https://api.github.com/repos/"@ + repo
            + "/issues/"@ + decimal::signed_decimal(number) + "/comments?per_page=100&page="@
            + decimal::signed_decimal(page),
{
}

} // verus!
