//! The collection of comments: which requests are made and what their replies lead to.

use crate::calendar;
use crate::calendar::date_days;
use crate::clock::now_rfc3339;
use crate::config::{Config, ConfigModel};
use crate::decimal;
use crate::decimal::signed_text;
use crate::event;
use crate::event::{Event, EventModel};
use crate::grammar::JsonModel;
use crate::json;
use crate::json::Json;
use crate::request;
use crate::request::{Channel, Request, RequestModel};
use crate::rules;
use crate::rules::{comment_search_scopes, repo_allowed};
use crate::search;
use crate::search::{
    comment_search_query_text, fetch_comment_search_page, fetch_thread_comment_events,
    fetch_thread_comments_page, parse_comment_search_page, CommentSearchPage, CommentThread,
    PageModel, ThreadModel,
};
use crate::text;
use crate::text::owned;
use vstd::prelude::*;

verus! {

/// A search that finds as many threads as this is split, since GitHub does not hand out all
/// of them.
pub const SEARCH_CAP: i64 = 1000;

/// As many comments as this are on a page that another one may follow.
pub const FULL_PAGE: usize = 100;

// ---------------------------------------------------------------------------
// Tasks
// ---------------------------------------------------------------------------

/// What is left to ask for.
#[derive(Debug)]
pub enum Task {
    /// The threads of a scope that changed between two days.
    Range { scope: String, start_day: i64, end_day: i64 },
    /// A further page of what a query finds.
    Page { query: String, page: i64 },
    /// A page of the comments in a thread.
    Thread { thread: CommentThread, page: i64, public: bool },
}

/// The mathematical value of a task.
#[verifier::ext_equal]
pub enum TaskModel {
    Range { scope: Seq<char>, start_day: int, end_day: int },
    Page { query: Seq<char>, page: int },
    Thread { thread: ThreadModel, page: int, public: bool },
}

impl View for Task {
    type V = TaskModel;

    open spec fn view(&self) -> TaskModel {
        match self {
            Task::Range { scope, start_day, end_day } => TaskModel::Range {
                scope: scope@,
                start_day: *start_day as int,
                end_day: *end_day as int,
            },
            Task::Page { query, page } => TaskModel::Page { query: query@, page: *page as int },
            Task::Thread { thread, page, public } => TaskModel::Thread {
                thread: thread@,
                page: *page as int,
                public: *public,
            },
        }
    }
}

/// The values of tasks.
pub open spec fn task_models(v: Seq<Task>) -> Seq<TaskModel> {
    v.map_values(|t: Task| t@)
}

/// Whether a task can be carried out: the days of a range are in order and can be written,
/// and pages are counted from their start.
pub open spec fn sound_task(task: TaskModel) -> bool {
    match task {
        TaskModel::Range { start_day, end_day, .. } => i64::MIN <= start_day <= end_day
            && search::datable(end_day) && end_day - start_day <= i64::MAX,
        TaskModel::Page { page, .. } => 2 <= page <= 10,
        TaskModel::Thread { page, .. } => 1 <= page,
    }
}

/// The request of a task.
pub open spec fn task_request(c: ConfigModel, task: TaskModel) -> RequestModel {
    match task {
        TaskModel::Range { scope, start_day, end_day } => search::search_request(
            search::query_text(scope, c.username, start_day, end_day),
            1,
        ),
        TaskModel::Page { query, page } => search::search_request(query, page),
        TaskModel::Thread { thread, page, public } => request::get_request(
            if public {
                Channel::Public
            } else {
                Channel::Rest
            },
            search::comments_url(thread.repo, thread.number, page),
        ),
    }
}

// ---------------------------------------------------------------------------
// Decisions
// ---------------------------------------------------------------------------

/// What is done with a range of days once its first page is known.
#[derive(Debug)]
pub enum RangePlan {
    /// There are no days in the range.
    Nothing,
    /// The range is searched in two parts, the first of which ends at the given day.
    Split(i64),
    /// The threads that were found are read.
    Harvest,
}

/// The error of a day with too many threads.
pub open spec fn crowded_error(query: Seq<char>, issue_count: int) -> Seq<char> {
    "comment search for `"@ + query + "` returned "@ + decimal::signed_decimal(issue_count)
        + " threads in one day; narrow the scope to avoid GitHub search caps"@
}

/// The day in the middle of a range.
pub open spec fn middle(start_day: int, end_day: int) -> int {
    start_day + (end_day - start_day) / 2
}

/// What is done with a range of days.
pub open spec fn range_plan(
    scope: Seq<char>,
    username: Seq<char>,
    start_day: int,
    end_day: int,
    issue_count: int,
) -> Result<RangePlan, Seq<char>> {
    if start_day > end_day {
        Ok(RangePlan::Nothing)
    } else if issue_count < SEARCH_CAP {
        Ok(RangePlan::Harvest)
    } else if start_day == end_day {
        Err(
            crowded_error(
                search::query_text(scope, username, start_day, end_day),
                issue_count,
            ),
        )
    } else {
        Ok(RangePlan::Split(middle(start_day, end_day) as i64))
    }
}

/// A plan, seen as a value.
pub open spec fn plan_outcome(out: Result<RangePlan, String>) -> Result<RangePlan, Seq<char>> {
    match out {
        Ok(plan) => Ok(plan),
        Err(e) => Err(e@),
    }
}

/// Decides what is done with a range of days once its first page is known. A search that
/// finds too many threads is split, and one that does so for a single day is an error.
pub fn fetch_comment_events_for_range(
    scope: &str,
    username: &str,
    start_day: i64,
    end_day: i64,
    first_page: &CommentSearchPage,
) -> (out: Result<RangePlan, String>)
    requires
        search::datable(end_day as int),
        end_day - start_day <= i64::MAX,
    ensures
        plan_outcome(out) == range_plan(
            scope@,
            username@,
            start_day as int,
            end_day as int,
            first_page@.issue_count,
        ),
{
    if start_day > end_day {
        return Ok(RangePlan::Nothing);
    }
    if first_page.issue_count < SEARCH_CAP {
        return Ok(RangePlan::Harvest);
    }
    if start_day == end_day {
        let query = comment_search_query_text(scope, username, start_day, end_day);
        let mut message = owned("comment search for `");
        message.append(query.as_str());
        message.append("` returned ");
        message.append(signed_text(first_page.issue_count).as_str());
        message.append(" threads in one day; narrow the scope to avoid GitHub search caps");
        return Err(message);
    }
    Ok(RangePlan::Split(start_day + (end_day - start_day) / 2))
}

/// The tasks that read the threads of a page which the site takes. The first thread comes
/// last, since the last task is carried out first.
pub open spec fn thread_tasks(c: ConfigModel, threads: Seq<ThreadModel>) -> Seq<TaskModel>
    decreases threads.len(),
{
    if threads.len() == 0 {
        seq![]
    } else {
        let later = thread_tasks(c, threads.skip(1));
        if rules::allowed(c, threads[0].repo) {
            later.push(TaskModel::Thread { thread: threads[0], page: 1, public: false })
        } else {
            later
        }
    }
}

/// Adds the tasks that read the threads of a page which the site takes.
pub fn collect_comment_search_page(
    config: &Config,
    threads: &[CommentThread],
    work: &mut Vec<Task>,
)
    ensures
        task_models(final(work)@) == task_models(old(work)@) + thread_tasks(
            config@,
            search::thread_models(threads@),
        ),
{
    let ghost all = search::thread_models(threads@);
    let ghost before = task_models(work@);
    let ghost c = config@;
    let mut i: usize = threads.len();
    assert(all.skip(i as int) =~= seq![]);
    assert(before + thread_tasks(c, all.skip(i as int)) =~= before);
    while i > 0
        invariant
            i <= threads@.len(),
            c == config@,
            all == search::thread_models(threads@),
            task_models(work@) == before + thread_tasks(c, all.skip(i as int)),
        decreases i,
    {
        i -= 1;
        let ghost later = all.skip(i + 1);
        assert(all.skip(i as int).skip(1) =~= later);
        assert(all.skip(i as int)[0] == threads@[i as int]@);
        let ghost sofar = task_models(work@);
        if repo_allowed(config, threads[i].repo.as_str()) {
            let task = Task::Thread { thread: threads[i].clone(), page: 1, public: false };
            let ghost model = task@;
            work.push(task);
            assert(task_models(work@) =~= sofar.push(model));
            assert(sofar.push(model) =~= before + thread_tasks(c, later).push(model));
        }
    }
    assert(all.skip(0) =~= all);
}

// ---------------------------------------------------------------------------
// States
// ---------------------------------------------------------------------------

/// A collection of comments under way.
#[derive(Debug)]
pub struct Collector {
    from: String,
    work: Vec<Task>,
    events: Vec<Event>,
}

/// The mathematical value of a collection: the time from which comments are taken, the
/// tasks, of which the last is carried out next, and the events so far.
#[verifier::ext_equal]
pub struct CollectorModel {
    pub from: Seq<char>,
    pub work: Seq<TaskModel>,
    pub events: Seq<EventModel>,
}

impl View for Collector {
    type V = CollectorModel;

    closed spec fn view(&self) -> CollectorModel {
        CollectorModel {
            from: self.from@,
            work: task_models(self.work@),
            events: event::models(self.events@),
        }
    }
}

/// Whether all tasks can be carried out.
pub open spec fn sound_tasks(work: Seq<TaskModel>) -> bool {
    forall|i: int| 0 <= i < work.len() ==> sound_task(#[trigger] work[i])
}

/// Whether all tasks of a collection can be carried out.
pub open spec fn sound(s: CollectorModel) -> bool {
    sound_tasks(s.work)
}

/// Whether the page behind the next one can be counted.
pub open spec fn has_room(s: CollectorModel) -> bool {
    s.work.len() > 0 ==> match s.work.last() {
        TaskModel::Thread { page, .. } => page < i64::MAX,
        _ => true,
    }
}

/// The tasks that follow a page of a search.
pub open spec fn page_tasks(c: ConfigModel, query: Seq<char>, page: int, found: PageModel) -> Seq<
    TaskModel,
> {
    (if found.has_next {
        seq![TaskModel::Page { query, page: page + 1 }]
    } else {
        seq![]
    }) + thread_tasks(c, found.threads)
}

/// The error of a reply that holds no comments.
pub open spec fn no_comments_error(url: Seq<char>) -> Seq<char> {
    "GitHub issue comments returned non-array response for "@ + url
}

/// What the reply to the next request leads to.
pub open spec fn advance(c: ConfigModel, s: CollectorModel, reply: JsonModel) -> Result<
    CollectorModel,
    Seq<char>,
> {
    let rest = s.work.drop_last();
    match s.work.last() {
        TaskModel::Range { scope, start_day, end_day } => {
            let query = search::query_text(scope, c.username, start_day, end_day);
            let found = search::search_page(reply, 1);
            match range_plan(scope, c.username, start_day, end_day, found.issue_count) {
                Err(e) => Err(e),
                Ok(RangePlan::Nothing) => Ok(CollectorModel { work: rest, ..s }),
                Ok(RangePlan::Split(mid)) => Ok(
                    CollectorModel {
                        work: rest.push(
                            TaskModel::Range { scope, start_day: mid + 1, end_day },
                        ).push(TaskModel::Range { scope, start_day, end_day: mid as int }),
                        ..s
                    },
                ),
                Ok(RangePlan::Harvest) => Ok(
                    CollectorModel { work: rest + page_tasks(c, query, 1, found), ..s },
                ),
            }
        },
        TaskModel::Page { query, page } => Ok(
            CollectorModel {
                work: rest + page_tasks(c, query, page, search::search_page(reply, page)),
                ..s
            },
        ),
        TaskModel::Thread { thread, page, public } => match json::as_array(reply) {
            Some(comments) => Ok(
                CollectorModel {
                    work: if comments.len() < FULL_PAGE {
                        rest
                    } else {
                        rest.push(TaskModel::Thread { thread, page: page + 1, public: false })
                    },
                    events: s.events + search::comment_events(c, thread, comments, s.from),
                    ..s
                },
            ),
            None => if public {
                Err(no_comments_error(search::comments_url(thread.repo, thread.number, page)))
            } else {
                Ok(
                    CollectorModel {
                        work: rest.push(TaskModel::Thread { thread, page, public: true }),
                        ..s
                    },
                )
            },
        },
    }
}

/// A collection, seen as a value.
pub open spec fn collector_outcome(out: Result<Collector, String>) -> Result<
    CollectorModel,
    Seq<char>,
> {
    match out {
        Ok(s) => Ok(s@),
        Err(e) => Err(e@),
    }
}

/// The collection that searches every scope from one day to another, the first scope first.
pub open spec fn first_state(c: ConfigModel, from: Seq<char>, start_day: int, end_day: int) -> CollectorModel {
    CollectorModel {
        from,
        work: if start_day > end_day {
            seq![]
        } else {
            rules::scopes(c).reverse().map_values(
                |scope: Seq<char>| TaskModel::Range { scope, start_day, end_day },
            )
        },
        events: seq![],
    }
}

/// How a collection of the comments from one time to another starts.
pub open spec fn started(c: ConfigModel, from: Seq<char>, today: Seq<char>) -> Result<
    CollectorModel,
    Seq<char>,
> {
    match (calendar::leading_day(from), calendar::leading_day(today)) {
        (None, _) => Err("invalid comment search start date: "@ + from),
        (_, None) => Err("invalid current date"@),
        (Some(start_day), Some(end_day)) => Ok(first_state(c, from, start_day, end_day)),
    }
}

/// A collection that starts can be carried out.
pub proof fn lemma_started_sound(c: ConfigModel, from: Seq<char>, today: Seq<char>)
    ensures
        started(c, from, today) matches Ok(s) ==> sound(s),
{
    if started(c, from, today) is Ok {
        calendar::lemma_leading_day_range(from);
        calendar::lemma_leading_day_range(today);
    }
}

/// The tasks of a page can be carried out.
proof fn lemma_sound_thread_tasks(c: ConfigModel, threads: Seq<ThreadModel>)
    ensures
        forall|i: int|
            0 <= i < thread_tasks(c, threads).len() ==> sound_task(
                #[trigger] thread_tasks(c, threads)[i],
            ),
    decreases threads.len(),
{
    if threads.len() > 0 {
        lemma_sound_thread_tasks(c, threads.skip(1));
        let later = thread_tasks(c, threads.skip(1));
        let out = thread_tasks(c, threads);
        assert forall|i: int| 0 <= i < out.len() implies sound_task(#[trigger] out[i]) by {
            if i < later.len() {
                assert(out[i] == later[i]);
            }
        }
    }
}

/// What a reply leads to can be carried out as well.
pub proof fn lemma_advance_sound(c: ConfigModel, s: CollectorModel, reply: JsonModel)
    requires
        sound(s),
        s.work.len() > 0,
    ensures
        advance(c, s, reply) matches Ok(t) ==> sound(t),
{
    let rest = s.work.drop_last();
    assert(sound_task(s.work[s.work.len() - 1]));
    assert forall|i: int| 0 <= i < rest.len() implies sound_task(#[trigger] rest[i]) by {
        assert(sound_task(s.work[i]));
    }
    if let Ok(t) = advance(c, s, reply) {
        let found = match s.work.last() {
            TaskModel::Page { page, .. } => search::search_page(reply, page),
            _ => search::search_page(reply, 1),
        };
        lemma_sound_thread_tasks(c, found.threads);
        assert forall|i: int| 0 <= i < t.work.len() implies sound_task(#[trigger] t.work[i]) by {
            if i < rest.len() {
                assert(t.work[i] == rest[i]);
            } else {
                match s.work.last() {
                    TaskModel::Range { scope, start_day, end_day } => {
                        let query = search::query_text(scope, c.username, start_day, end_day);
                        assert(start_day < end_day ==> start_day <= middle(start_day, end_day)
                            < end_day);
                        let more = page_tasks(c, query, 1, found);
                        let tasks = thread_tasks(c, found.threads);
                        if found.issue_count < SEARCH_CAP {
                            assert(t.work[i] == more[i - rest.len()]);
                            if found.has_next && i == rest.len() {
                            } else {
                                assert(more[i - rest.len()] == tasks[i - rest.len() - (more.len()
                                    - tasks.len())]);
                            }
                        }
                    },
                    TaskModel::Page { query, page } => {
                        let more = page_tasks(c, query, page, found);
                        let tasks = thread_tasks(c, found.threads);
                        assert(t.work[i] == more[i - rest.len()]);
                        if found.has_next && i == rest.len() {
                        } else {
                            assert(more[i - rest.len()] == tasks[i - rest.len() - (more.len()
                                - tasks.len())]);
                        }
                    },
                    TaskModel::Thread { .. } => {},
                }
            }
        }
    }
}

/// Takes the values of tasks apart.
proof fn lemma_task_models(v: Seq<Task>)
    ensures
        task_models(v).len() == v.len(),
        forall|i: int| 0 <= i < v.len() ==> #[trigger] task_models(v)[i] == v[i]@,
        v.len() > 0 ==> task_models(v).drop_last() == task_models(v.drop_last()),
        v.len() > 0 ==> task_models(v).last() == v.last()@,
{
    if v.len() > 0 {
        assert(task_models(v).drop_last() =~= task_models(v.drop_last()));
    }
}

/// Adds a task.
fn push_task(work: &mut Vec<Task>, task: Task)
    ensures
        task_models(final(work)@) == task_models(old(work)@).push(task@),
{
    let ghost model = task@;
    work.push(task);
    assert(task_models(work@) =~= task_models(old(work)@).push(model));
}

/// Adds the tasks that follow a page of a search.
fn push_page_tasks(
    config: &Config,
    query: String,
    page: i64,
    found: &CommentSearchPage,
    work: &mut Vec<Task>,
)
    requires
        found.has_next ==> page < i64::MAX,
    ensures
        task_models(final(work)@) == task_models(old(work)@) + page_tasks(
            config@,
            query@,
            page as int,
            found@,
        ),
{
    let ghost before = task_models(work@);
    let ghost text = query@;
    let ghost tasks = thread_tasks(config@, found@.threads);
    if found.has_next {
        push_task(work, Task::Page { query, page: page + 1 });
        collect_comment_search_page(config, found.threads.as_slice(), work);
        let ghost next = seq![TaskModel::Page { query: text, page: page + 1 }];
        assert(task_models(work@) =~= before + (next + tasks));
    } else {
        collect_comment_search_page(config, found.threads.as_slice(), work);
        assert(task_models(work@) =~= before + (Seq::<TaskModel>::empty() + tasks));
    }
}

/// Carries out a task on a range of days once its first page is known.
fn step_range(
    config: &Config,
    scope: String,
    start_day: i64,
    end_day: i64,
    found: &CommentSearchPage,
    work: &mut Vec<Task>,
) -> (out: Result<(), String>)
    requires
        start_day <= end_day,
        search::datable(end_day as int),
        end_day - start_day <= i64::MAX,
        found@.has_next ==> found@.issue_count > 100,
    ensures
        match range_plan(
            scope@,
            config@.username,
            start_day as int,
            end_day as int,
            found@.issue_count,
        ) {
            Err(e) => out matches Err(message) && message@ == e,
            Ok(RangePlan::Nothing) => false,
            Ok(RangePlan::Split(mid)) => out is Ok && task_models(final(work)@) == task_models(
                old(work)@,
            ).push(
                TaskModel::Range { scope: scope@, start_day: mid + 1, end_day: end_day as int },
            ).push(
                TaskModel::Range { scope: scope@, start_day: start_day as int, end_day: mid as int },
            ),
            Ok(RangePlan::Harvest) => out is Ok && task_models(final(work)@) == task_models(
                old(work)@,
            ) + page_tasks(
                config@,
                search::query_text(
                    scope@,
                    config@.username,
                    start_day as int,
                    end_day as int,
                ),
                1,
                found@,
            ),
        },
{
    let plan = fetch_comment_events_for_range(
        scope.as_str(),
        config.username.as_str(),
        start_day,
        end_day,
        found,
    )?;
    match plan {
        RangePlan::Nothing => {},
        RangePlan::Split(mid) => {
            push_task(
                work,
                Task::Range { scope: owned(scope.as_str()), start_day: mid + 1, end_day },
            );
            push_task(work, Task::Range { scope, start_day, end_day: mid });
        },
        RangePlan::Harvest => {
            let query = comment_search_query_text(
                scope.as_str(),
                config.username.as_str(),
                start_day,
                end_day,
            );
            push_page_tasks(config, query, 1, found, work);
        },
    }
    Ok(())
}

impl Collector {
    #[verifier::type_invariant]
    spec fn tasks_are_sound(self) -> bool {
        sound_tasks(task_models(self.work@))
    }

    /// Starts the collection of the comments from one time to another.
    pub fn start(config: &Config, from: &str, today: &str) -> (out: Result<Collector, String>)
        ensures
            collector_outcome(out) == started(config@, from@, today@),
            out matches Ok(s) ==> sound(s@),
    {
        let start_day = match date_days(from) {
            Some(day) => day,
            None => {
                let mut message = owned("invalid comment search start date: ");
                message.append(from);
                return Err(message);
            },
        };
        let end_day = match date_days(today) {
            Some(day) => day,
            None => {
                return Err(owned("invalid current date"));
            },
        };
        proof {
            calendar::lemma_leading_day_range(from@);
            calendar::lemma_leading_day_range(today@);
            lemma_started_sound(config@, from@, today@);
        }
        let mut work: Vec<Task> = Vec::new();
        let ghost wanted = first_state(config@, from@, start_day as int, end_day as int).work;
        if start_day <= end_day {
            let scopes = comment_search_scopes(config);
            let ghost list = rules::scopes(config@);
            let mut i: usize = scopes.len();
            assert(task_models(work@) =~= wanted.take(0));
            while i > 0
                invariant
                    i <= list.len(),
                    list == scopes.listing(),
                    start_day <= end_day,
                    wanted == list.reverse().map_values(
                        |scope: Seq<char>|
                            TaskModel::Range {
                                scope,
                                start_day: start_day as int,
                                end_day: end_day as int,
                            },
                    ),
                    task_models(work@) == wanted.take(list.len() - i),
                decreases i,
            {
                i -= 1;
                let ghost k = list.len() - i - 1;
                push_task(
                    &mut work,
                    Task::Range { scope: owned(scopes.get(i)), start_day, end_day },
                );
                assert(wanted[k as int] == (TaskModel::Range {
                    scope: list[i as int],
                    start_day: start_day as int,
                    end_day: end_day as int,
                }));
                assert(wanted.take(k + 1) =~= wanted.take(k as int).push(wanted[k as int]));
            }
            assert(wanted.take(wanted.len() as int) =~= wanted);
        } else {
            assert(task_models(work@) =~= wanted);
        }
        let events: Vec<Event> = Vec::new();
        assert(event::models(events@) =~= seq![]);
        Ok(Collector { from: owned(from), work, events })
    }

    /// The request that is made next, or none where the collection is complete.
    pub fn request(&self, config: &Config) -> (out: Option<Request>)
        ensures
            match out {
                Some(r) => self@.work.len() > 0 && r@ == task_request(config@, self@.work.last()),
                None => self@.work.len() == 0,
            },
    {
        if self.work.len() == 0 {
            return None;
        }
        proof {
            use_type_invariant(self);
            lemma_task_models(self.work@);
            assert(sound_task(task_models(self.work@)[self.work@.len() - 1]));
        }
        match &self.work[self.work.len() - 1] {
            Task::Range { scope, start_day, end_day } => {
                let query = comment_search_query_text(
                    scope.as_str(),
                    config.username.as_str(),
                    *start_day,
                    *end_day,
                );
                Some(fetch_comment_search_page(query.as_str(), 1))
            },
            Task::Page { query, page } => Some(fetch_comment_search_page(query.as_str(), *page)),
            Task::Thread { thread, page, public } => {
                let channel = if *public {
                    Channel::Public
                } else {
                    Channel::Rest
                };
                Some(
                    fetch_thread_comments_page(
                        channel,
                        thread.repo.as_str(),
                        thread.number,
                        *page,
                    ),
                )
            },
        }
    }

    /// Whether the page behind the next one can be counted.
    pub fn can_step(&self) -> (out: bool)
        ensures
            out == (self@.work.len() > 0 && has_room(self@)),
    {
        if self.work.len() == 0 {
            return false;
        }
        proof {
            lemma_task_models(self.work@);
        }
        match &self.work[self.work.len() - 1] {
            Task::Thread { page, .. } => *page < i64::MAX,
            _ => true,
        }
    }

    /// Goes on with the reply to the request that was made.
    pub fn step(self, config: &Config, reply: &Json) -> (out: Result<Collector, String>)
        requires
            self@.work.len() > 0,
            has_room(self@),
        ensures
            collector_outcome(out) == advance(config@, self@, reply@),
            out matches Ok(s) ==> sound(s@),
    {
        let ghost s = self@;
        let ghost c = config@;
        proof {
            use_type_invariant(&self);
            lemma_task_models(self.work@);
            assert(sound(s));
            assert(sound_task(s.work[s.work.len() - 1]));
            lemma_advance_sound(c, s, reply@);
        }
        let Collector { from, work, events } = self;
        let mut work = work;
        let mut events = events;
        let ghost rest = s.work.drop_last();
        let task = work.pop().unwrap();
        assert(task@ == s.work.last());
        assert(task_models(work@) == rest);
        match task {
            Task::Range { scope, start_day, end_day } => {
                let found = parse_comment_search_page(reply, 1)?;
                step_range(config, scope, start_day, end_day, &found, &mut work)?;
            },
            Task::Page { query, page } => {
                let found = parse_comment_search_page(reply, page)?;
                push_page_tasks(config, query, page, &found, &mut work);
            },
            Task::Thread { thread, page, public } => match reply.array() {
                Some(comments) => {
                    let mut found = fetch_thread_comment_events(
                        config,
                        &thread,
                        comments,
                        from.as_str(),
                    );
                    let ghost before = event::models(events@);
                    let ghost more = event::models(found@);
                    proof {
                        json::lemma_item_models(comments@);
                    }
                    events.append(&mut found);
                    assert(event::models(events@) =~= before + more);
                    if comments.len() >= FULL_PAGE {
                        push_task(
                            &mut work,
                            Task::Thread { thread, page: page + 1, public: false },
                        );
                    }
                },
                None => {
                    if public {
                        let request = fetch_thread_comments_page(
                            Channel::Public,
                            thread.repo.as_str(),
                            thread.number,
                            page,
                        );
                        let mut message = owned(
                            "GitHub issue comments returned non-array response for ",
                        );
                        message.append(request.url.as_str());
                        return Err(message);
                    }
                    push_task(&mut work, Task::Thread { thread, page, public: true });
                },
            },
        }
        let ghost next = CollectorModel {
            from: from@,
            work: task_models(work@),
            events: event::models(events@),
        };
        assert(advance(c, s, reply@) == Ok::<CollectorModel, Seq<char>>(next));
        assert(sound(next));
        Ok(Collector { from, work, events })
    }

    /// The events that were collected.
    pub fn into_events(self) -> (out: Vec<Event>)
        ensures
            event::models(out@) == self@.events,
    {
        self.events
    }
}

/// Starts the collection of the comments from the given time to the current day.
pub fn fetch_comment_events(config: &Config, from: &str) -> (out: Result<Collector, String>)
    ensures
        exists|now: i64|
            collector_outcome(out) == started(
                config@,
                from@,
                #[trigger] calendar::timestamp(now as int),
            ),
        out matches Ok(s) ==> sound(s@),
{
    Collector::start(config, from, now_rfc3339().as_str())
}

// ---------------------------------------------------------------------------
// Laws
// ---------------------------------------------------------------------------

/// A page of comments is taken in as a whole. A page of a hundred comments or more is
/// followed by the next one, which is asked for with the token again.
pub proof fn lemma_thread_page(
    c: ConfigModel,
    s: CollectorModel,
    thread: ThreadModel,
    page: int,
    public: bool,
    comments: Seq<JsonModel>,
)
    requires
        s.work.len() > 0,
        s.work.last() == (TaskModel::Thread { thread, page, public }),
    ensures
        advance(c, s, JsonModel::Array(comments)) == Ok::<CollectorModel, Seq<char>>(
            CollectorModel {
                from: s.from,
                work: if comments.len() >= 100 {
                    s.work.drop_last().push(
                        TaskModel::Thread { thread, page: page + 1, public: false },
                    )
                } else {
                    s.work.drop_last()
                },
                events: s.events + search::comment_events(c, thread, comments, s.from),
            },
        ),
{
}

/// A page that is no list is asked for once more without the token. Where it is no list then
/// either, the collection fails and tells which page it was.
pub proof fn lemma_no_page(
    c: ConfigModel,
    s: CollectorModel,
    thread: ThreadModel,
    page: int,
    reply: JsonModel,
)
    requires
        s.work.len() > 0,
        forall|comments: Seq<JsonModel>| reply != JsonModel::Array(comments),
    ensures
        s.work.last() == (TaskModel::Thread { thread, page, public: false }) ==> advance(
            c,
            s,
            reply,
        ) == Ok::<CollectorModel, Seq<char>>(
            CollectorModel {
                from: s.from,
                work: s.work.drop_last().push(TaskModel::Thread { thread, page, public: true }),
                events: s.events,
            },
        ),
        s.work.last() == (TaskModel::Thread { thread, page, public: true }) ==> advance(
            c,
            s,
            reply,
        ) == Err::<CollectorModel, Seq<char>>(
            "GitHub issue comments returned non-array response for "@
                + "https://api.github.com/repos/"@ + thread.repo + "/issues/"@
                + decimal::signed_decimal(thread.number) + "/comments?per_page=100&page="@
                + decimal::signed_decimal(page),
        ),
{
    if let JsonModel::Array(comments) = reply {
        assert(reply == JsonModel::Array(comments));
    }
    let a = "GitHub issue comments returned non-array response for "@;
    let b = "https://api.github.com/repos/"@;
    let d = "/issues/"@;
    let n = decimal::signed_decimal(thread.number);
    let e = "/comments?per_page=100&page="@;
    let p = decimal::signed_decimal(page);
    assert(a + (b + thread.repo + d + n + e + p) =~= a + b + thread.repo + d + n + e + p);
}

/// The threads of a page that the site takes are read one after another, the first one
/// first, each from its first page on and with the token.
pub proof fn lemma_thread_tasks(c: ConfigModel, threads: Seq<ThreadModel>)
    ensures
        thread_tasks(c, threads) == threads.filter(
            |t: ThreadModel| rules::allowed(c, t.repo),
        ).map_values(|t: ThreadModel| TaskModel::Thread { thread: t, page: 1, public: false }).reverse(),
    decreases threads.len(),
{
    let keep = |t: ThreadModel| rules::allowed(c, t.repo);
    let task = |t: ThreadModel| TaskModel::Thread { thread: t, page: 1, public: false };
    reveal(Seq::filter);
    if threads.len() > 0 {
        let first = seq![threads[0]];
        let later = threads.skip(1);
        lemma_thread_tasks(c, later);
        assert(threads =~= first + later);
        Seq::filter_distributes_over_add(first, later, keep);
        assert(first.drop_last() =~= seq![]);
        assert(first.drop_last().filter(keep) =~= seq![]);
        let kept = later.filter(keep);
        if keep(threads[0]) {
            assert(first.filter(keep) =~= first);
            assert((first + kept).map_values(task).reverse() =~= kept.map_values(task).reverse().push(
                task(threads[0]),
            ));
        } else {
            assert(first.filter(keep) =~= seq![]);
            assert(first.filter(keep) + kept =~= kept);
        }
    } else {
        assert(threads.filter(keep).map_values(task).reverse() =~= seq![]);
    }
}

/// A range of days whose search finds a thousand threads or more is searched in two parts,
/// the earlier one first, which together have the same days. A single day of that kind is an
/// error, and any other range is read page by page.
pub proof fn lemma_range_reply(
    c: ConfigModel,
    s: CollectorModel,
    scope: Seq<char>,
    start_day: int,
    end_day: int,
    reply: JsonModel,
)
    requires
        s.work.len() > 0,
        s.work.last() == (TaskModel::Range { scope, start_day, end_day }),
        i64::MIN <= start_day <= end_day <= i64::MAX,
    ensures
        ({
            let count = search::search_page(reply, 1).issue_count;
            let query = search::query_text(scope, c.username, start_day, end_day);
            let rest = s.work.drop_last();
            let out = advance(c, s, reply);
            &&& count >= 1000 && start_day < end_day ==> exists|mid: int|
                start_day <= mid < end_day && out == Ok::<CollectorModel, Seq<char>>(
                    CollectorModel {
                        from: s.from,
                        work: rest.push(
                            #[trigger] upper_part(scope, mid, end_day),
                        ).push(TaskModel::Range { scope, start_day, end_day: mid }),
                        events: s.events,
                    },
                )
            &&& count >= 1000 && start_day == end_day ==> out == Err::<CollectorModel, Seq<char>>(
                "comment search for `"@ + query + "` returned "@ + decimal::signed_decimal(count)
                    + " threads in one day; narrow the scope to avoid GitHub search caps"@,
            )
            &&& count < 1000 ==> out == Ok::<CollectorModel, Seq<char>>(
                CollectorModel {
                    from: s.from,
                    work: rest + page_tasks(c, query, 1, search::search_page(reply, 1)),
                    events: s.events,
                },
            )
        }),
{
    let mid = middle(start_day, end_day);
    if start_day < end_day {
        assert(start_day <= mid < end_day);
        assert(mid as i64 == mid);
        let part = upper_part(scope, mid, end_day);
    }
}

/// The days of a range behind one of them.
pub open spec fn upper_part(scope: Seq<char>, mid: int, end_day: int) -> TaskModel {
    TaskModel::Range { scope, start_day: mid + 1, end_day }
}

/// A page of a search is followed by its threads and then by the next page, where there is
/// one.
pub proof fn lemma_page_tasks(c: ConfigModel, query: Seq<char>, page: int, found: PageModel)
    ensures
        found.has_next ==> page_tasks(c, query, page, found) == seq![
            TaskModel::Page { query, page: page + 1 },
        ] + thread_tasks(c, found.threads),
        !found.has_next ==> page_tasks(c, query, page, found) == thread_tasks(c, found.threads),
{
    assert(Seq::<TaskModel>::empty() + thread_tasks(c, found.threads) =~= thread_tasks(
        c,
        found.threads,
    ));
}

/// A collection of comments searches every scope from the day of its start to the current
/// day.
pub proof fn lemma_started(c: ConfigModel, from: Seq<char>, today: Seq<char>, first: int, last: int)
    requires
        calendar::leading_day(from) == Some(first),
        calendar::leading_day(today) == Some(last),
    ensures
        started(c, from, today) matches Ok(s) && s.from == from && s.events.len() == 0
            && s.work.len() == (if first <= last {
            rules::scopes(c).len()
        } else {
            0
        }) && forall|i: int|
            0 <= i < s.work.len() ==> #[trigger] s.work[i] == (TaskModel::Range {
                scope: rules::scopes(c)[s.work.len() - 1 - i],
                start_day: first,
                end_day: last,
            }),
{
}

} // verus!
