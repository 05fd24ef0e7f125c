//! What a collection of comments gives as a whole.

use crate::collector;
use crate::collector::{CollectorModel, TaskModel};
use crate::config::ConfigModel;
use crate::event::EventModel;
use crate::grammar::JsonModel;
use crate::json;
use crate::request;
use crate::request::{Channel, RequestModel};
use crate::rules;
use crate::search;
use crate::search::{PageModel, ThreadModel};
use crate::text;
use vstd::prelude::*;

verus! {

// ---------------------------------------------------------------------------
// The search, written down as a whole
// ---------------------------------------------------------------------------

/// What GitHub answers to each request, and how many pages a thread has at most.
pub struct Service {
    pub reply: spec_fn(RequestModel) -> JsonModel,
    pub pages: int,
}

/// What a search for events gives.
pub type Found = Result<Seq<EventModel>, Seq<char>>;

/// One search after another: their events together, or the first error.
pub open spec fn both(a: Found, b: Found) -> Found {
    match a {
        Ok(x) => match b {
            Ok(y) => Ok(x + y),
            Err(e) => Err(e),
        },
        Err(e) => Err(e),
    }
}

/// The comments that a reply holds, if it is a list.
pub open spec fn comments_by(
    g: Service,
    channel: Channel,
    thread: ThreadModel,
    page: int,
) -> Option<Seq<JsonModel>> {
    json::as_array(
        (g.reply)(
            request::get_request(
                channel,
                search::comments_url(thread.repo, thread.number, page),
            ),
        ),
    )
}

/// The comments on a page of a thread: those that the token shows, or else the public ones.
pub open spec fn comments_on(g: Service, thread: ThreadModel, page: int) -> Option<
    Seq<JsonModel>,
> {
    match comments_by(g, Channel::Rest, thread, page) {
        Some(comments) => Some(comments),
        None => comments_by(g, Channel::Public, thread, page),
    }
}

/// Whether no thread goes on behind the last page.
pub open spec fn threads_end(g: Service) -> bool {
    forall|channel: Channel, thread: ThreadModel, page: int|
        page >= g.pages ==> match #[trigger] comments_by(g, channel, thread, page) {
            Some(comments) => comments.len() < collector::FULL_PAGE,
            None => true,
        }
}

/// The events of a thread from a page on, whose comments are given.
pub open spec fn thread_found(
    g: Service,
    c: ConfigModel,
    from: Seq<char>,
    thread: ThreadModel,
    page: int,
    comments: Option<Seq<JsonModel>>,
) -> Found
    decreases g.pages - page,
{
    match comments {
        None => Err(
            collector::no_comments_error(
                search::comments_url(thread.repo, thread.number, page),
            ),
        ),
        Some(list) => {
            let events = Ok(search::comment_events(c, thread, list, from));
            if list.len() < collector::FULL_PAGE || page >= g.pages {
                events
            } else {
                both(
                    events,
                    thread_found(
                        g,
                        c,
                        from,
                        thread,
                        page + 1,
                        comments_on(g, thread, page + 1),
                    ),
                )
            }
        },
    }
}

/// The events of the threads which the site takes.
pub open spec fn threads_found(
    g: Service,
    c: ConfigModel,
    from: Seq<char>,
    threads: Seq<ThreadModel>,
) -> Found
    decreases threads.len(),
{
    if threads.len() == 0 {
        Ok(seq![])
    } else {
        let later = threads_found(g, c, from, threads.skip(1));
        if rules::allowed(c, threads[0].repo) {
            both(
                thread_found(g, c, from, threads[0], 1, comments_on(g, threads[0], 1)),
                later,
            )
        } else {
            later
        }
    }
}

/// A page of what a query finds.
pub open spec fn page_of(g: Service, query: Seq<char>, page: int) -> PageModel {
    search::search_page((g.reply)(search::search_request(query, page)), page)
}

/// The events of what a query finds from a page on.
pub open spec fn pages_found(
    g: Service,
    c: ConfigModel,
    from: Seq<char>,
    query: Seq<char>,
    page: int,
) -> Found
    decreases 10 - page,
{
    let found = page_of(g, query, page);
    both(
        threads_found(g, c, from, found.threads),
        if found.has_next {
            pages_found(g, c, from, query, page + 1)
        } else {
            Ok(seq![])
        },
    )
}

/// The events of a range of days: where a search finds too much, those of its first half and
/// then those of its second.
pub open spec fn range_found(
    g: Service,
    c: ConfigModel,
    from: Seq<char>,
    scope: Seq<char>,
    start_day: int,
    end_day: int,
) -> Found
    decreases end_day - start_day,
{
    if start_day > end_day {
        Ok(seq![])
    } else {
        let query = search::query_text(scope, c.username, start_day, end_day);
        let issue_count = page_of(g, query, 1).issue_count;
        if issue_count < collector::SEARCH_CAP {
            pages_found(g, c, from, query, 1)
        } else if start_day == end_day {
            Err(collector::crowded_error(query, issue_count))
        } else {
            let mid = collector::middle(start_day, end_day);
            both(
                range_found(g, c, from, scope, start_day, mid),
                range_found(g, c, from, scope, mid + 1, end_day),
            )
        }
    }
}

/// The events of scopes, one after another.
pub open spec fn scopes_found(
    g: Service,
    c: ConfigModel,
    from: Seq<char>,
    scopes: Seq<Seq<char>>,
    start_day: int,
    end_day: int,
) -> Found
    decreases scopes.len(),
{
    if scopes.len() == 0 {
        Ok(seq![])
    } else {
        both(
            range_found(g, c, from, scopes[0], start_day, end_day),
            scopes_found(g, c, from, scopes.skip(1), start_day, end_day),
        )
    }
}

// ---------------------------------------------------------------------------
// What is left of a collection
// ---------------------------------------------------------------------------

/// The events of a task.
pub open spec fn task_found(g: Service, c: ConfigModel, from: Seq<char>, task: TaskModel) -> Found {
    match task {
        TaskModel::Range { scope, start_day, end_day } => range_found(
            g,
            c,
            from,
            scope,
            start_day,
            end_day,
        ),
        TaskModel::Page { query, page } => pages_found(g, c, from, query, page),
        TaskModel::Thread { thread, page, public } => thread_found(
            g,
            c,
            from,
            thread,
            page,
            if public {
                comments_by(g, Channel::Public, thread, page)
            } else {
                comments_on(g, thread, page)
            },
        ),
    }
}

/// The events of tasks, the last one first.
pub open spec fn work_found(g: Service, c: ConfigModel, from: Seq<char>, work: Seq<TaskModel>) -> Found
    decreases work.len(),
{
    if work.len() == 0 {
        Ok(seq![])
    } else {
        both(task_found(g, c, from, work.last()), work_found(g, c, from, work.drop_last()))
    }
}

/// The events that a collection has and will have.
pub open spec fn total(g: Service, c: ConfigModel, s: CollectorModel) -> Found {
    both(Ok(s.events), work_found(g, c, s.from, s.work))
}

/// The order of grouping does not matter.
proof fn lemma_both_assoc(a: Found, b: Found, d: Found)
    ensures
        both(both(a, b), d) == both(a, both(b, d)),
{
    if let (Ok(x), Ok(y), Ok(z)) = (a, b, d) {
        assert((x + y) + z =~= x + (y + z));
    }
}

/// Nothing found changes nothing.
proof fn lemma_both_nothing(a: Found)
    ensures
        both(Ok(seq![]), a) == a,
        both(a, Ok(seq![])) == a,
{
    if let Ok(x) = a {
        assert(Seq::<EventModel>::empty() + x =~= x);
        assert(x + Seq::<EventModel>::empty() =~= x);
    }
}

/// The tasks of a page are its threads.
proof fn lemma_thread_tasks(
    g: Service,
    c: ConfigModel,
    from: Seq<char>,
    rest: Seq<TaskModel>,
    threads: Seq<ThreadModel>,
)
    ensures
        work_found(g, c, from, rest + collector::thread_tasks(c, threads)) == both(
            threads_found(g, c, from, threads),
            work_found(g, c, from, rest),
        ),
    decreases threads.len(),
{
    if threads.len() == 0 {
        assert(rest + collector::thread_tasks(c, threads) =~= rest);
        lemma_both_nothing(work_found(g, c, from, rest));
    } else {
        let later = threads.skip(1);
        lemma_thread_tasks(g, c, from, rest, later);
        if rules::allowed(c, threads[0].repo) {
            let first = TaskModel::Thread { thread: threads[0], page: 1, public: false };
            let work = rest + collector::thread_tasks(c, threads);
            assert(work.drop_last() =~= rest + collector::thread_tasks(c, later));
            assert(work.last() == first);
            lemma_both_assoc(
                task_found(g, c, from, first),
                threads_found(g, c, from, later),
                work_found(g, c, from, rest),
            );
        }
    }
}

/// The tasks that follow a page are what is found from it on.
proof fn lemma_page_tasks(
    g: Service,
    c: ConfigModel,
    from: Seq<char>,
    rest: Seq<TaskModel>,
    query: Seq<char>,
    page: int,
)
    ensures
        work_found(
            g,
            c,
            from,
            rest + collector::page_tasks(c, query, page, page_of(g, query, page)),
        ) == both(pages_found(g, c, from, query, page), work_found(g, c, from, rest)),
{
    let found = page_of(g, query, page);
    let tasks = collector::thread_tasks(c, found.threads);
    let here = threads_found(g, c, from, found.threads);
    let behind = work_found(g, c, from, rest);
    if found.has_next {
        let next = TaskModel::Page { query, page: page + 1 };
        let more = rest.push(next);
        assert(rest + collector::page_tasks(c, query, page, found) =~= more + tasks);
        lemma_thread_tasks(g, c, from, more, found.threads);
        assert(more.drop_last() =~= rest);
        lemma_both_assoc(here, pages_found(g, c, from, query, page + 1), behind);
    } else {
        assert(rest + collector::page_tasks(c, query, page, found) =~= rest + tasks);
        lemma_thread_tasks(g, c, from, rest, found.threads);
        lemma_both_nothing(here);
    }
}

/// Whether a step with what GitHub answers keeps the events that a collection has and will
/// have, and fails only where the whole search fails.
pub open spec fn step_keeps(g: Service, c: ConfigModel, s: CollectorModel) -> bool {
    match collector::advance(c, s, (g.reply)(collector::task_request(c, s.work.last()))) {
        Ok(t) => total(g, c, t) == total(g, c, s),
        Err(e) => total(g, c, s) == Err::<Seq<EventModel>, Seq<char>>(e),
    }
}

/// A step on a range of days whose search finds too much.
proof fn lemma_split_step(
    g: Service,
    c: ConfigModel,
    s: CollectorModel,
    scope: Seq<char>,
    start_day: int,
    end_day: int,
)
    requires
        s.work.len() > 0,
        s.work.last() == (TaskModel::Range { scope, start_day, end_day }),
        i64::MIN <= start_day < end_day <= i64::MAX,
        page_of(
            g,
            search::query_text(scope, c.username, start_day, end_day),
            1,
        ).issue_count >= collector::SEARCH_CAP,
    ensures
        step_keeps(g, c, s),
{
    let rest = s.work.drop_last();
    let reply = (g.reply)(collector::task_request(c, s.work.last()));
    let mid = collector::middle(start_day, end_day);
    assert(start_day <= mid < end_day);
    let left = TaskModel::Range { scope, start_day, end_day: mid };
    let right = TaskModel::Range { scope, start_day: mid + 1, end_day };
    let more = rest.push(right);
    let next = CollectorModel { work: more.push(left), ..s };
    assert(collector::advance(c, s, reply) == Ok::<CollectorModel, Seq<char>>(next));
    assert(more.push(left).drop_last() =~= more);
    assert(more.drop_last() =~= rest);
    let first = task_found(g, c, s.from, left);
    let second = task_found(g, c, s.from, right);
    let behind = work_found(g, c, s.from, rest);
    assert(task_found(g, c, s.from, s.work.last()) == both(first, second));
    assert(work_found(g, c, s.from, more) == both(second, behind));
    assert(work_found(g, c, s.from, more.push(left)) == both(first, both(second, behind)));
    lemma_both_assoc(first, second, behind);
}

/// A step on a range of days.
proof fn lemma_range_step(g: Service, c: ConfigModel, s: CollectorModel)
    requires
        collector::sound(s),
        s.work.len() > 0,
        s.work.last() is Range,
    ensures
        step_keeps(g, c, s),
{
    assert(collector::sound_task(s.work[s.work.len() - 1]));
    if let TaskModel::Range { scope, start_day, end_day } = s.work.last() {
        let query = search::query_text(scope, c.username, start_day, end_day);
        if page_of(g, query, 1).issue_count < collector::SEARCH_CAP {
            lemma_page_tasks(g, c, s.from, s.work.drop_last(), query, 1);
        } else if start_day < end_day {
            lemma_split_step(g, c, s, scope, start_day, end_day);
        }
    }
}

/// A step on a thread.
proof fn lemma_thread_step(g: Service, c: ConfigModel, s: CollectorModel)
    requires
        threads_end(g),
        s.work.len() > 0,
        s.work.last() is Thread,
    ensures
        step_keeps(g, c, s),
{
    let rest = s.work.drop_last();
    let behind = work_found(g, c, s.from, rest);
    if let TaskModel::Thread { thread, page, public } = s.work.last() {
        let channel = if public {
            Channel::Public
        } else {
            Channel::Rest
        };
        match comments_by(g, channel, thread, page) {
            Some(comments) => {
                let events: Found = Ok(search::comment_events(c, thread, comments, s.from));
                let before: Found = Ok(s.events);
                if comments.len() < collector::FULL_PAGE {
                    assert(task_found(g, c, s.from, s.work.last()) == events);
                    lemma_both_assoc(before, events, behind);
                } else {
                    let next = TaskModel::Thread { thread, page: page + 1, public: false };
                    let later = task_found(g, c, s.from, next);
                    assert(task_found(g, c, s.from, s.work.last()) == both(events, later));
                    assert(rest.push(next).drop_last() =~= rest);
                    assert(work_found(g, c, s.from, rest.push(next)) == both(later, behind));
                    lemma_both_assoc(events, later, behind);
                    lemma_both_assoc(before, events, both(later, behind));
                }
            },
            None => {
                if !public {
                    let again = TaskModel::Thread { thread, page, public: true };
                    assert(rest.push(again).drop_last() =~= rest);
                    assert(task_found(g, c, s.from, again) == task_found(
                        g,
                        c,
                        s.from,
                        s.work.last(),
                    ));
                }
            },
        }
    }
}

/// A step with what GitHub answers keeps the events that a collection has and will have, and
/// fails only where the whole search fails.
pub proof fn lemma_step(g: Service, c: ConfigModel, s: CollectorModel)
    requires
        threads_end(g),
        collector::sound(s),
        s.work.len() > 0,
    ensures
        step_keeps(g, c, s),
{
    match s.work.last() {
        TaskModel::Range { .. } => {
            lemma_range_step(g, c, s);
        },
        TaskModel::Page { query, page } => {
            lemma_page_tasks(g, c, s.from, s.work.drop_last(), query, page);
        },
        TaskModel::Thread { .. } => {
            lemma_thread_step(g, c, s);
        },
    }
}

// ---------------------------------------------------------------------------
// Whole runs
// ---------------------------------------------------------------------------

/// A collection after so many steps with what GitHub answers, or as many as it takes.
pub open spec fn run(g: Service, c: ConfigModel, s: CollectorModel, n: nat) -> Result<
    CollectorModel,
    Seq<char>,
>
    decreases n,
{
    if n == 0 || s.work.len() == 0 {
        Ok(s)
    } else {
        match collector::advance(c, s, (g.reply)(collector::task_request(c, s.work.last()))) {
            Ok(t) => run(g, c, t, (n - 1) as nat),
            Err(e) => Err(e),
        }
    }
}

/// Steps keep the events that a collection has and will have.
proof fn lemma_run(g: Service, c: ConfigModel, s: CollectorModel, n: nat)
    requires
        threads_end(g),
        collector::sound(s),
    ensures
        match run(g, c, s, n) {
            Ok(t) => total(g, c, t) == total(g, c, s),
            Err(e) => total(g, c, s) == Err::<Seq<EventModel>, Seq<char>>(e),
        },
    decreases n,
{
    if n > 0 && s.work.len() > 0 {
        let reply = (g.reply)(collector::task_request(c, s.work.last()));
        lemma_step(g, c, s);
        collector::lemma_advance_sound(c, s, reply);
        if let Ok(t) = collector::advance(c, s, reply) {
            lemma_run(g, c, t, (n - 1) as nat);
        }
    }
}

/// The tasks of scopes are the scopes one after another.
proof fn lemma_scope_tasks(
    g: Service,
    c: ConfigModel,
    from: Seq<char>,
    scopes: Seq<Seq<char>>,
    start_day: int,
    end_day: int,
)
    ensures
        work_found(
            g,
            c,
            from,
            scopes.reverse().map_values(
                |scope: Seq<char>| TaskModel::Range { scope, start_day, end_day },
            ),
        ) == scopes_found(g, c, from, scopes, start_day, end_day),
    decreases scopes.len(),
{
    let f = |scope: Seq<char>| TaskModel::Range { scope, start_day, end_day };
    let work = scopes.reverse().map_values(f);
    if scopes.len() > 0 {
        lemma_scope_tasks(g, c, from, scopes.skip(1), start_day, end_day);
        assert(work.drop_last() =~= scopes.skip(1).reverse().map_values(f));
        assert(work.last() == f(scopes[0]));
    }
}

/// Where there are no days, no scope has events.
proof fn lemma_no_days(
    g: Service,
    c: ConfigModel,
    from: Seq<char>,
    scopes: Seq<Seq<char>>,
    start_day: int,
    end_day: int,
)
    requires
        start_day > end_day,
    ensures
        scopes_found(g, c, from, scopes, start_day, end_day) == Ok::<Seq<EventModel>, Seq<char>>(
            seq![],
        ),
    decreases scopes.len(),
{
    if scopes.len() > 0 {
        lemma_no_days(g, c, from, scopes.skip(1), start_day, end_day);
        lemma_both_nothing(Ok(seq![]));
    }
}

/// A collection that was carried out to its end holds exactly the events that the search of
/// all scopes finds, in the same order, and one that failed tells the error of that search.
pub proof fn lemma_collection(
    g: Service,
    c: ConfigModel,
    from: Seq<char>,
    start_day: int,
    end_day: int,
    n: nat,
)
    requires
        threads_end(g),
        collector::sound(collector::first_state(c, from, start_day, end_day)),
    ensures
        match run(g, c, collector::first_state(c, from, start_day, end_day), n) {
            Ok(t) => t.work.len() == 0 ==> scopes_found(
                g,
                c,
                from,
                rules::scopes(c),
                start_day,
                end_day,
            ) == Ok::<Seq<EventModel>, Seq<char>>(t.events),
            Err(e) => scopes_found(g, c, from, rules::scopes(c), start_day, end_day) == Err::<
                Seq<EventModel>,
                Seq<char>,
            >(e),
        },
{
    let s = collector::first_state(c, from, start_day, end_day);
    lemma_run(g, c, s, n);
    lemma_both_nothing(work_found(g, c, from, s.work));
    if start_day > end_day {
        lemma_no_days(g, c, from, rules::scopes(c), start_day, end_day);
    } else {
        lemma_scope_tasks(g, c, from, rules::scopes(c), start_day, end_day);
    }
    if let Ok(t) = run(g, c, s, n) {
        if t.work.len() == 0 {
            lemma_both_nothing(Ok(t.events));
        }
    }
}

// ---------------------------------------------------------------------------
// The number of steps
// ---------------------------------------------------------------------------

/// How many requests a thread takes from a page on.
pub open spec fn thread_steps(g: Service, thread: ThreadModel, page: int, public: bool) -> nat
    decreases g.pages - page, if public { 0int } else { 1int },
{
    let channel = if public {
        Channel::Public
    } else {
        Channel::Rest
    };
    match comments_by(g, channel, thread, page) {
        None => if public {
            1
        } else {
            1 + thread_steps(g, thread, page, true)
        },
        Some(list) => if list.len() < collector::FULL_PAGE || page >= g.pages {
            1
        } else {
            1 + thread_steps(g, thread, page + 1, false)
        },
    }
}

/// How many requests the threads take which the site takes.
pub open spec fn threads_steps(g: Service, c: ConfigModel, threads: Seq<ThreadModel>) -> nat
    decreases threads.len(),
{
    if threads.len() == 0 {
        0
    } else {
        let later = threads_steps(g, c, threads.skip(1));
        if rules::allowed(c, threads[0].repo) {
            thread_steps(g, threads[0], 1, false) + later
        } else {
            later
        }
    }
}

/// How many requests a query takes from a page on.
pub open spec fn pages_steps(g: Service, c: ConfigModel, query: Seq<char>, page: int) -> nat
    decreases 10 - page,
{
    let found = page_of(g, query, page);
    1 + threads_steps(g, c, found.threads) + if found.has_next {
        pages_steps(g, c, query, page + 1)
    } else {
        0
    }
}

/// How many requests a range of days takes.
pub open spec fn range_steps(
    g: Service,
    c: ConfigModel,
    scope: Seq<char>,
    start_day: int,
    end_day: int,
) -> nat
    decreases end_day - start_day,
{
    let query = search::query_text(scope, c.username, start_day, end_day);
    if page_of(g, query, 1).issue_count < collector::SEARCH_CAP {
        pages_steps(g, c, query, 1)
    } else if start_day >= end_day {
        1
    } else {
        let mid = collector::middle(start_day, end_day);
        1 + range_steps(g, c, scope, start_day, mid) + range_steps(
            g,
            c,
            scope,
            mid + 1,
            end_day,
        )
    }
}

/// How many requests tasks take.
pub open spec fn work_steps(g: Service, c: ConfigModel, work: Seq<TaskModel>) -> nat
    decreases work.len(),
{
    if work.len() == 0 {
        0
    } else {
        work_steps(g, c, work.drop_last()) + match work.last() {
            TaskModel::Range { scope, start_day, end_day } => range_steps(
                g,
                c,
                scope,
                start_day,
                end_day,
            ),
            TaskModel::Page { query, page } => pages_steps(g, c, query, page),
            TaskModel::Thread { thread, page, public } => thread_steps(g, thread, page, public),
        }
    }
}

/// The tasks of a page take what its threads take.
proof fn lemma_thread_tasks_steps(
    g: Service,
    c: ConfigModel,
    rest: Seq<TaskModel>,
    threads: Seq<ThreadModel>,
)
    ensures
        work_steps(g, c, rest + collector::thread_tasks(c, threads)) == work_steps(g, c, rest)
            + threads_steps(g, c, threads),
    decreases threads.len(),
{
    let work = rest + collector::thread_tasks(c, threads);
    if threads.len() == 0 {
        assert(work =~= rest);
    } else {
        lemma_thread_tasks_steps(g, c, rest, threads.skip(1));
        if rules::allowed(c, threads[0].repo) {
            assert(work.drop_last() =~= rest + collector::thread_tasks(c, threads.skip(1)));
            assert(work.last() == (TaskModel::Thread {
                thread: threads[0],
                page: 1,
                public: false,
            }));
        }
    }
}

/// The tasks that follow a page take one request less than the pages from it on.
proof fn lemma_page_tasks_steps(
    g: Service,
    c: ConfigModel,
    rest: Seq<TaskModel>,
    query: Seq<char>,
    page: int,
)
    ensures
        work_steps(
            g,
            c,
            rest + collector::page_tasks(c, query, page, page_of(g, query, page)),
        ) + 1 == work_steps(g, c, rest) + pages_steps(g, c, query, page),
{
    let found = page_of(g, query, page);
    let tasks = collector::thread_tasks(c, found.threads);
    if found.has_next {
        let more = rest.push(TaskModel::Page { query, page: page + 1 });
        assert(rest + collector::page_tasks(c, query, page, found) =~= more + tasks);
        lemma_thread_tasks_steps(g, c, more, found.threads);
        assert(more.drop_last() =~= rest);
    } else {
        assert(rest + collector::page_tasks(c, query, page, found) =~= rest + tasks);
        lemma_thread_tasks_steps(g, c, rest, found.threads);
    }
}

/// A step makes one request.
proof fn lemma_one_step(g: Service, c: ConfigModel, s: CollectorModel)
    requires
        threads_end(g),
        collector::sound(s),
        s.work.len() > 0,
    ensures
        match collector::advance(
            c,
            s,
            (g.reply)(collector::task_request(c, s.work.last())),
        ) {
            Ok(t) => work_steps(g, c, t.work) + 1 == work_steps(g, c, s.work),
            Err(_) => true,
        },
{
    let rest = s.work.drop_last();
    assert(collector::sound_task(s.work[s.work.len() - 1]));
    match s.work.last() {
        TaskModel::Range { scope, start_day, end_day } => {
            let query = search::query_text(scope, c.username, start_day, end_day);
            if page_of(g, query, 1).issue_count < collector::SEARCH_CAP {
                lemma_page_tasks_steps(g, c, rest, query, 1);
            } else if start_day < end_day {
                let mid = collector::middle(start_day, end_day);
                assert(start_day <= mid < end_day);
                let left = TaskModel::Range { scope, start_day, end_day: mid };
                let more = rest.push(TaskModel::Range { scope, start_day: mid + 1, end_day });
                assert(more.push(left).drop_last() =~= more);
                assert(more.drop_last() =~= rest);
                assert(work_steps(g, c, more.push(left)) == work_steps(g, c, more)
                    + range_steps(g, c, scope, start_day, mid));
                assert(work_steps(g, c, more) == work_steps(g, c, rest) + range_steps(
                    g,
                    c,
                    scope,
                    mid + 1,
                    end_day,
                ));
            }
        },
        TaskModel::Page { query, page } => {
            lemma_page_tasks_steps(g, c, rest, query, page);
        },
        TaskModel::Thread { thread, page, public } => {
            let next = TaskModel::Thread { thread, page: page + 1, public: false };
            let again = TaskModel::Thread { thread, page, public: true };
            assert(rest.push(next).drop_last() =~= rest);
            assert(rest.push(again).drop_last() =~= rest);
            let channel = if public {
                Channel::Public
            } else {
                Channel::Rest
            };
            assert(comments_by(g, channel, thread, page) == json::as_array(
                (g.reply)(collector::task_request(c, s.work.last())),
            ));
        },
    }
}

/// Where every thread ends, a collection ends as well, after as many steps as there are
/// requests to make.
pub proof fn lemma_collection_ends(g: Service, c: ConfigModel, s: CollectorModel)
    requires
        threads_end(g),
        collector::sound(s),
    ensures
        match run(g, c, s, work_steps(g, c, s.work)) {
            Ok(t) => t.work.len() == 0,
            Err(_) => true,
        },
    decreases work_steps(g, c, s.work),
{
    if s.work.len() > 0 {
        let reply = (g.reply)(collector::task_request(c, s.work.last()));
        lemma_some_steps(g, c, s.work);
        lemma_one_step(g, c, s);
        collector::lemma_advance_sound(c, s, reply);
        if let Ok(t) = collector::advance(c, s, reply) {
            lemma_collection_ends(g, c, t);
        }
    }
}

/// A task takes a request at least.
proof fn lemma_some_steps(g: Service, c: ConfigModel, work: Seq<TaskModel>)
    requires
        work.len() > 0,
    ensures
        work_steps(g, c, work) > 0,
{
    match work.last() {
        TaskModel::Range { scope, start_day, end_day } => {
            let query = search::query_text(scope, c.username, start_day, end_day);
            assert(pages_steps(g, c, query, 1) > 0);
        },
        TaskModel::Page { query, page } => {},
        TaskModel::Thread { thread, page, public } => {},
    }
}

// ---------------------------------------------------------------------------
// The days
// ---------------------------------------------------------------------------

/// The ranges of days that are searched to their ends.
pub open spec fn searched(
    g: Service,
    c: ConfigModel,
    scope: Seq<char>,
    start_day: int,
    end_day: int,
) -> Seq<(int, int)>
    decreases end_day - start_day,
{
    let query = search::query_text(scope, c.username, start_day, end_day);
    if start_day >= end_day || page_of(g, query, 1).issue_count < collector::SEARCH_CAP {
        seq![(start_day, end_day)]
    } else {
        let mid = collector::middle(start_day, end_day);
        searched(g, c, scope, start_day, mid) + searched(g, c, scope, mid + 1, end_day)
    }
}

/// Whether ranges of days follow one another without a gap from one day to another.
pub open spec fn gapless(parts: Seq<(int, int)>, start_day: int, end_day: int) -> bool {
    &&& parts.len() > 0
    &&& parts[0].0 == start_day
    &&& parts.last().1 == end_day
    &&& forall|i: int| 0 <= i < parts.len() ==> (#[trigger] parts[i]).0 <= parts[i].1
    &&& forall|i: int| 0 < i < parts.len() ==> (#[trigger] parts[i]).0 == parts[i - 1].1 + 1
}

/// Whether the search of a range finds no more threads than GitHub hands out.
pub open spec fn uncrowded(g: Service, c: ConfigModel, scope: Seq<char>, part: (int, int)) -> bool {
    page_of(g, search::query_text(scope, c.username, part.0, part.1), 1).issue_count
        < collector::SEARCH_CAP
}

/// Ranges that follow others are without a gap together with them.
proof fn lemma_gapless_concat(
    left: Seq<(int, int)>,
    right: Seq<(int, int)>,
    start_day: int,
    mid: int,
    end_day: int,
)
    requires
        gapless(left, start_day, mid),
        gapless(right, mid + 1, end_day),
    ensures
        gapless(left + right, start_day, end_day),
{
    let all = left + right;
    assert forall|i: int| 0 <= i < all.len() implies (#[trigger] all[i]).0 <= all[i].1 by {
        if i < left.len() {
            assert(all[i] == left[i]);
        } else {
            assert(all[i] == right[i - left.len()]);
        }
    }
    assert forall|i: int| 0 < i < all.len() implies (#[trigger] all[i]).0 == all[i - 1].1 + 1 by {
        if i < left.len() {
            assert(all[i] == left[i] && all[i - 1] == left[i - 1]);
        } else if i == left.len() {
            assert(all[i] == right[0] && all[i - 1] == left.last());
        } else {
            let j = i - left.len();
            assert(all[i] == right[j] && all[i - 1] == right[j - 1]);
        }
    }
}

/// Where the search of a range succeeds, the ranges that were searched to their ends follow
/// one another without a gap from its first day to its last, and none of them finds more
/// threads than GitHub hands out.
pub proof fn lemma_days_covered(
    g: Service,
    c: ConfigModel,
    from: Seq<char>,
    scope: Seq<char>,
    start_day: int,
    end_day: int,
)
    requires
        start_day <= end_day,
        range_found(g, c, from, scope, start_day, end_day) is Ok,
    ensures
        gapless(searched(g, c, scope, start_day, end_day), start_day, end_day),
        forall|i: int|
            0 <= i < searched(g, c, scope, start_day, end_day).len() ==> uncrowded(
                g,
                c,
                scope,
                #[trigger] searched(g, c, scope, start_day, end_day)[i],
            ),
    decreases end_day - start_day,
{
    let all = searched(g, c, scope, start_day, end_day);
    if !uncrowded(g, c, scope, (start_day, end_day)) {
        let mid = collector::middle(start_day, end_day);
        assert(start_day <= mid < end_day);
        lemma_days_covered(g, c, from, scope, start_day, mid);
        lemma_days_covered(g, c, from, scope, mid + 1, end_day);
        let left = searched(g, c, scope, start_day, mid);
        let right = searched(g, c, scope, mid + 1, end_day);
        assert(all == left + right);
        lemma_gapless_concat(left, right, start_day, mid, end_day);
        assert forall|i: int| 0 <= i < all.len() implies uncrowded(
            g,
            c,
            scope,
            #[trigger] all[i],
        ) by {
            if i < left.len() {
                assert(all[i] == left[i]);
            } else {
                assert(all[i] == right[i - left.len()]);
            }
        }
    }
}

// ---------------------------------------------------------------------------
// The events
// ---------------------------------------------------------------------------

/// Whether an event is a comment on a repository that the site takes, no older than the
/// given time.
pub open spec fn wanted(c: ConfigModel, from: Seq<char>, e: EventModel) -> bool {
    &&& e.event_type == "comment"@
    &&& rules::allowed(c, e.repo)
    &&& e.occurred_at.len() > 0
    &&& !text::text_lt(e.occurred_at, from)
}

/// Whether all events are of that kind.
pub open spec fn each_wanted(c: ConfigModel, from: Seq<char>, events: Seq<EventModel>) -> bool {
    forall|i: int| 0 <= i < events.len() ==> wanted(c, from, #[trigger] events[i])
}

/// Whether all events that were found are of that kind.
pub open spec fn all_wanted(c: ConfigModel, from: Seq<char>, found: Found) -> bool {
    match found {
        Ok(events) => each_wanted(c, from, events),
        Err(_) => true,
    }
}

proof fn lemma_both_wanted(c: ConfigModel, from: Seq<char>, a: Found, b: Found)
    requires
        all_wanted(c, from, a),
        all_wanted(c, from, b),
    ensures
        all_wanted(c, from, both(a, b)),
{
    if let (Ok(x), Ok(y)) = (a, b) {
        assert forall|i: int| 0 <= i < (x + y).len() implies wanted(
            c,
            from,
            #[trigger] (x + y)[i],
        ) by {
            if i < x.len() {
                assert((x + y)[i] == x[i]);
            } else {
                assert((x + y)[i] == y[i - x.len()]);
            }
        }
    }
}

proof fn lemma_comments_wanted(
    c: ConfigModel,
    thread: ThreadModel,
    comments: Seq<JsonModel>,
    from: Seq<char>,
)
    requires
        rules::allowed(c, thread.repo),
    ensures
        each_wanted(c, from, search::comment_events(c, thread, comments, from)),
    decreases comments.len(),
{
    if comments.len() > 0 {
        let front = search::comment_events(c, thread, comments.drop_last(), from);
        let out = search::comment_events(c, thread, comments, from);
        lemma_comments_wanted(c, thread, comments.drop_last(), from);
        assert forall|i: int| 0 <= i < out.len() implies wanted(c, from, #[trigger] out[i]) by {
            if i < front.len() {
                assert(out[i] == front[i]);
                assert(wanted(c, from, front[i]));
            } else {
                assert(search::comment_event(c, thread, comments.last(), from) == Some(out[i]));
            }
        }
    }
}

proof fn lemma_thread_wanted(
    g: Service,
    c: ConfigModel,
    from: Seq<char>,
    thread: ThreadModel,
    page: int,
    comments: Option<Seq<JsonModel>>,
)
    requires
        rules::allowed(c, thread.repo),
    ensures
        all_wanted(c, from, thread_found(g, c, from, thread, page, comments)),
    decreases g.pages - page,
{
    if let Some(list) = comments {
        lemma_comments_wanted(c, thread, list, from);
        if list.len() >= collector::FULL_PAGE && page < g.pages {
            let next = comments_on(g, thread, page + 1);
            lemma_thread_wanted(g, c, from, thread, page + 1, next);
            lemma_both_wanted(
                c,
                from,
                Ok(search::comment_events(c, thread, list, from)),
                thread_found(g, c, from, thread, page + 1, next),
            );
        }
    }
}

proof fn lemma_threads_wanted(
    g: Service,
    c: ConfigModel,
    from: Seq<char>,
    threads: Seq<ThreadModel>,
)
    ensures
        all_wanted(c, from, threads_found(g, c, from, threads)),
    decreases threads.len(),
{
    if threads.len() > 0 {
        lemma_threads_wanted(g, c, from, threads.skip(1));
        if rules::allowed(c, threads[0].repo) {
            let first = comments_on(g, threads[0], 1);
            lemma_thread_wanted(g, c, from, threads[0], 1, first);
            lemma_both_wanted(
                c,
                from,
                thread_found(g, c, from, threads[0], 1, first),
                threads_found(g, c, from, threads.skip(1)),
            );
        }
    }
}

proof fn lemma_pages_wanted(
    g: Service,
    c: ConfigModel,
    from: Seq<char>,
    query: Seq<char>,
    page: int,
)
    ensures
        all_wanted(c, from, pages_found(g, c, from, query, page)),
    decreases 10 - page,
{
    let found = page_of(g, query, page);
    let here = threads_found(g, c, from, found.threads);
    lemma_threads_wanted(g, c, from, found.threads);
    if found.has_next {
        lemma_pages_wanted(g, c, from, query, page + 1);
        lemma_both_wanted(c, from, here, pages_found(g, c, from, query, page + 1));
    } else {
        lemma_both_wanted(c, from, here, Ok(seq![]));
    }
}

proof fn lemma_range_wanted(
    g: Service,
    c: ConfigModel,
    from: Seq<char>,
    scope: Seq<char>,
    start_day: int,
    end_day: int,
)
    ensures
        all_wanted(c, from, range_found(g, c, from, scope, start_day, end_day)),
    decreases end_day - start_day,
{
    if start_day <= end_day {
        let query = search::query_text(scope, c.username, start_day, end_day);
        if page_of(g, query, 1).issue_count < collector::SEARCH_CAP {
            lemma_pages_wanted(g, c, from, query, 1);
        } else if start_day < end_day {
            let mid = collector::middle(start_day, end_day);
            assert(start_day <= mid < end_day);
            lemma_range_wanted(g, c, from, scope, start_day, mid);
            lemma_range_wanted(g, c, from, scope, mid + 1, end_day);
            lemma_both_wanted(
                c,
                from,
                range_found(g, c, from, scope, start_day, mid),
                range_found(g, c, from, scope, mid + 1, end_day),
            );
        }
    }
}

/// Every event that the search of scopes finds is a comment on a repository that the site
/// takes, no older than the given time.
pub proof fn lemma_scopes_wanted(
    g: Service,
    c: ConfigModel,
    from: Seq<char>,
    scopes: Seq<Seq<char>>,
    start_day: int,
    end_day: int,
)
    ensures
        all_wanted(c, from, scopes_found(g, c, from, scopes, start_day, end_day)),
    decreases scopes.len(),
{
    if scopes.len() > 0 {
        lemma_range_wanted(g, c, from, scopes[0], start_day, end_day);
        lemma_scopes_wanted(g, c, from, scopes.skip(1), start_day, end_day);
        lemma_both_wanted(
            c,
            from,
            range_found(g, c, from, scopes[0], start_day, end_day),
            scopes_found(g, c, from, scopes.skip(1), start_day, end_day),
        );
    }
}

// ---------------------------------------------------------------------------
// Completeness
// ---------------------------------------------------------------------------

/// Whether a search succeeded with events among which are all those of another one that
/// succeeded as well.
pub open spec fn within(part: Found, whole: Found) -> bool {
    part is Ok && whole is Ok && forall|e: EventModel| #[trigger]
        part->Ok_0.contains(e) ==> whole->Ok_0.contains(e)
}

proof fn lemma_both_within(a: Found, b: Found)
    requires
        both(a, b) is Ok,
    ensures
        within(a, both(a, b)),
        within(b, both(a, b)),
{
    let x = a->Ok_0;
    let y = b->Ok_0;
    assert forall|e: EventModel| #[trigger] x.contains(e) implies (x + y).contains(e) by {
        let i = choose|i: int| 0 <= i < x.len() && x[i] == e;
        assert((x + y)[i] == e);
    }
    assert forall|e: EventModel| #[trigger] y.contains(e) implies (x + y).contains(e) by {
        let i = choose|i: int| 0 <= i < y.len() && y[i] == e;
        assert((x + y)[x.len() + i] == e);
    }
}

/// A thread is read page by page as long as its pages have a hundred comments or more.
proof fn lemma_thread_complete(
    g: Service,
    c: ConfigModel,
    from: Seq<char>,
    thread: ThreadModel,
    first: int,
    page: int,
)
    requires
        first <= page,
        page <= g.pages || page == first,
        thread_found(g, c, from, thread, first, comments_on(g, thread, first)) is Ok,
        forall|r: int|
            first <= r < page ==> (#[trigger] comments_on(g, thread, r) matches Some(list)
                && list.len() >= 100),
    ensures
        comments_on(g, thread, page) is Some,
        within(
            Ok(search::comment_events(c, thread, comments_on(g, thread, page)->0, from)),
            thread_found(g, c, from, thread, first, comments_on(g, thread, first)),
        ),
    decreases page - first,
{
    let whole = thread_found(g, c, from, thread, first, comments_on(g, thread, first));
    let list = comments_on(g, thread, first)->0;
    let here: Found = Ok(search::comment_events(c, thread, list, from));
    if list.len() >= 100 && first < g.pages {
        let later = thread_found(g, c, from, thread, first + 1, comments_on(g, thread, first + 1));
        assert(whole == both(here, later));
        lemma_both_within(here, later);
        if first < page {
            lemma_thread_complete(g, c, from, thread, first + 1, page);
        }
    } else {
        assert(first == page) by {
            if first < page {
                assert(comments_on(g, thread, first) is Some);
            }
        }
    }
}

/// Every thread that the site takes is read.
proof fn lemma_threads_complete(
    g: Service,
    c: ConfigModel,
    from: Seq<char>,
    threads: Seq<ThreadModel>,
    i: int,
)
    requires
        0 <= i < threads.len(),
        rules::allowed(c, threads[i].repo),
        threads_found(g, c, from, threads) is Ok,
    ensures
        within(
            thread_found(g, c, from, threads[i], 1, comments_on(g, threads[i], 1)),
            threads_found(g, c, from, threads),
        ),
    decreases threads.len(),
{
    let later = threads_found(g, c, from, threads.skip(1));
    let first = thread_found(g, c, from, threads[0], 1, comments_on(g, threads[0], 1));
    if rules::allowed(c, threads[0].repo) {
        lemma_both_within(first, later);
    }
    if i > 0 {
        assert(threads.skip(1)[i - 1] == threads[i]);
        lemma_threads_complete(g, c, from, threads.skip(1), i - 1);
    }
}

/// Every page of a query is read.
proof fn lemma_pages_complete(
    g: Service,
    c: ConfigModel,
    from: Seq<char>,
    query: Seq<char>,
    first: int,
    page: int,
)
    requires
        first <= page,
        pages_found(g, c, from, query, first) is Ok,
        forall|r: int| first <= r < page ==> (#[trigger] page_of(g, query, r)).has_next,
    ensures
        within(
            threads_found(g, c, from, page_of(g, query, page).threads),
            pages_found(g, c, from, query, first),
        ),
    decreases page - first,
{
    let found = page_of(g, query, first);
    let here = threads_found(g, c, from, found.threads);
    let later: Found = if found.has_next {
        pages_found(g, c, from, query, first + 1)
    } else {
        Ok(seq![])
    };
    lemma_both_within(here, later);
    if first < page {
        assert(page_of(g, query, first).has_next);
        lemma_pages_complete(g, c, from, query, first + 1, page);
    }
}

/// Every part of a range is searched.
proof fn lemma_parts_complete(
    g: Service,
    c: ConfigModel,
    from: Seq<char>,
    scope: Seq<char>,
    start_day: int,
    end_day: int,
    k: int,
)
    requires
        start_day <= end_day,
        range_found(g, c, from, scope, start_day, end_day) is Ok,
        0 <= k < searched(g, c, scope, start_day, end_day).len(),
    ensures
        ({
            let part = searched(g, c, scope, start_day, end_day)[k];
            within(
                pages_found(
                    g,
                    c,
                    from,
                    search::query_text(scope, c.username, part.0, part.1),
                    1,
                ),
                range_found(g, c, from, scope, start_day, end_day),
            )
        }),
    decreases end_day - start_day,
{
    let query = search::query_text(scope, c.username, start_day, end_day);
    if page_of(g, query, 1).issue_count >= collector::SEARCH_CAP {
        let mid = collector::middle(start_day, end_day);
        assert(start_day <= mid < end_day);
        let a = range_found(g, c, from, scope, start_day, mid);
        let b = range_found(g, c, from, scope, mid + 1, end_day);
        let left = searched(g, c, scope, start_day, mid);
        let right = searched(g, c, scope, mid + 1, end_day);
        lemma_both_within(a, b);
        if k < left.len() {
            assert(searched(g, c, scope, start_day, end_day)[k] == left[k]);
            lemma_parts_complete(g, c, from, scope, start_day, mid, k);
        } else {
            assert(searched(g, c, scope, start_day, end_day)[k] == right[k - left.len()]);
            lemma_parts_complete(g, c, from, scope, mid + 1, end_day, k - left.len());
        }
    }
}

/// Every scope is searched.
proof fn lemma_scopes_complete(
    g: Service,
    c: ConfigModel,
    from: Seq<char>,
    scopes: Seq<Seq<char>>,
    start_day: int,
    end_day: int,
    i: int,
)
    requires
        0 <= i < scopes.len(),
        scopes_found(g, c, from, scopes, start_day, end_day) is Ok,
    ensures
        within(
            range_found(g, c, from, scopes[i], start_day, end_day),
            scopes_found(g, c, from, scopes, start_day, end_day),
        ),
    decreases scopes.len(),
{
    let first = range_found(g, c, from, scopes[0], start_day, end_day);
    let later = scopes_found(g, c, from, scopes.skip(1), start_day, end_day);
    lemma_both_within(first, later);
    if i > 0 {
        assert(scopes.skip(1)[i - 1] == scopes[i]);
        lemma_scopes_complete(g, c, from, scopes.skip(1), start_day, end_day, i - 1);
    }
}

/// Where a comment of the user stands: on a page of a thread which the site takes, which is
/// on a page of what the search of a part of the days in a scope finds. Pages of a hundred
/// comments or more, and pages that another one follows, stand before those.
pub open spec fn stands(
    g: Service,
    c: ConfigModel,
    query: Seq<char>,
    page: int,
    thread: ThreadModel,
    at: int,
    comment: JsonModel,
) -> bool {
    &&& 1 <= page
    &&& forall|r: int| 1 <= r < page ==> (#[trigger] page_of(g, query, r)).has_next
    &&& page_of(g, query, page).threads.contains(thread)
    &&& rules::allowed(c, thread.repo)
    &&& 1 <= at
    &&& at <= g.pages || at == 1
    &&& forall|r: int|
        1 <= r < at ==> (#[trigger] comments_on(g, thread, r) matches Some(list) && list.len()
            >= 100)
    &&& comments_on(g, thread, at) matches Some(list) && list.contains(comment)
}

/// A search of scopes that succeeds misses no comment: whatever comment of the user stands on
/// a page of a thread that the search of any scope finds in any part of the days, and is not
/// before the given time, gives its event.
pub proof fn lemma_no_comment_missed(
    g: Service,
    c: ConfigModel,
    from: Seq<char>,
    scopes: Seq<Seq<char>>,
    start_day: int,
    end_day: int,
    scope: Seq<char>,
    k: int,
    page: int,
    thread: ThreadModel,
    at: int,
    comment: JsonModel,
    time: Seq<char>,
)
    requires
        start_day <= end_day,
        scopes_found(g, c, from, scopes, start_day, end_day) is Ok,
        scopes.contains(scope),
        0 <= k < searched(g, c, scope, start_day, end_day).len(),
        stands(
            g,
            c,
            search::query_text(
                scope,
                c.username,
                searched(g, c, scope, start_day, end_day)[k].0,
                searched(g, c, scope, start_day, end_day)[k].1,
            ),
            page,
            thread,
            at,
            comment,
        ),
        search::counts(comment, c.username, time, from),
    ensures
        search::comment_event(c, thread, comment, from) is Some,
        scopes_found(g, c, from, scopes, start_day, end_day)->Ok_0.contains(
            search::comment_event(c, thread, comment, from)->0,
        ),
{
    let i = choose|i: int| 0 <= i < scopes.len() && scopes[i] == scope;
    let part = searched(g, c, scope, start_day, end_day)[k];
    let query = search::query_text(scope, c.username, part.0, part.1);
    let threads = page_of(g, query, page).threads;
    let t = choose|t: int| 0 <= t < threads.len() && threads[t] == thread;
    let list = comments_on(g, thread, at)->0;
    let j = choose|j: int| 0 <= j < list.len() && list[j] == comment;
    lemma_scopes_complete(g, c, from, scopes, start_day, end_day, i);
    lemma_parts_complete(g, c, from, scope, start_day, end_day, k);
    lemma_pages_complete(g, c, from, query, 1, page);
    lemma_threads_complete(g, c, from, threads, t);
    lemma_thread_complete(g, c, from, thread, 1, at);
    search::lemma_comment_event(c, thread, comment, from, time);
    search::lemma_comment_events(c, thread, list, from);
    assert(search::counts(list[j], c.username, time, from));
    let e = search::comment_event(c, thread, comment, from)->0;
    let here: Found = Ok(search::comment_events(c, thread, list, from));
    let first = comments_on(g, thread, 1);
    assert(here->Ok_0.contains(e));
    assert(thread_found(g, c, from, thread, 1, first)->Ok_0.contains(e));
    assert(threads_found(g, c, from, threads)->Ok_0.contains(e));
    assert(pages_found(g, c, from, query, 1)->Ok_0.contains(e));
    assert(range_found(g, c, from, scope, start_day, end_day)->Ok_0.contains(e));
}

/// The parts of the days find fewer than a thousand threads each.
pub proof fn lemma_parts_uncrowded(
    g: Service,
    c: ConfigModel,
    from: Seq<char>,
    scope: Seq<char>,
    start_day: int,
    end_day: int,
    k: int,
)
    requires
        start_day <= end_day,
        range_found(g, c, from, scope, start_day, end_day) is Ok,
        0 <= k < searched(g, c, scope, start_day, end_day).len(),
    ensures
        ({
            let part = searched(g, c, scope, start_day, end_day)[k];
            page_of(
                g,
                search::query_text(scope, c.username, part.0, part.1),
                1,
            ).issue_count < 1000
        }),
{
    lemma_days_covered(g, c, from, scope, start_day, end_day);
    assert(uncrowded(g, c, scope, searched(g, c, scope, start_day, end_day)[k]));
}

/// The comments on a page are those that the token shows, or else the public ones.
pub proof fn lemma_comments_on(
    g: Service,
    thread: ThreadModel,
    page: int,
    comments: Seq<JsonModel>,
)
    ensures
        ({
            let url = search::comments_url(thread.repo, thread.number, page);
            let shown = (g.reply)(request::get_request(Channel::Rest, url));
            let open = (g.reply)(request::get_request(Channel::Public, url));
            &&& shown == JsonModel::Array(comments) ==> comments_on(g, thread, page) == Some(
                comments,
            )
            &&& !(shown is Array) && open == JsonModel::Array(comments) ==> comments_on(
                g,
                thread,
                page,
            ) == Some(comments)
            &&& !(shown is Array) && !(open is Array) ==> comments_on(g, thread, page) is None
        }),
{
}

} // verus!
