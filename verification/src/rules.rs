//! The rules on which repositories the site takes.

use crate::config;
use crate::config::{Config, ConfigModel};
use crate::names;
use crate::names::NameSet;
use crate::outcome;
use crate::text;
use crate::text::{chars_of, eq_ignore_ascii_case, owned, split_once};
use vstd::prelude::*;

verus! {

// ---------------------------------------------------------------------------
// Allowed repositories
// ---------------------------------------------------------------------------

/// Whether an organization of that name is allowed, whatever the case of its letters.
pub open spec fn owner_listed(c: ConfigModel, owner: Seq<char>) -> bool {
    exists|i: int|
        0 <= i < c.allowlist_orgs.len() && text::same_ignoring_ascii_case(
            #[trigger] c.allowlist_orgs[i],
            owner,
        )
}

/// Whether the owner of a repository is an allowed organization.
pub open spec fn owner_allowed(c: ConfigModel, repo: Seq<char>) -> bool {
    match text::split_at_first(repo, '/') {
        Some((owner, _)) => owner_listed(c, owner),
        None => false,
    }
}

/// Whether the site takes a repository.
pub open spec fn allowed(c: ConfigModel, repo: Seq<char>) -> bool {
    !c.exclude.contains(repo) && (c.allowlist.contains(repo) || owner_allowed(c, repo))
}

/// Whether the owner of a repository is an allowed organization.
pub fn repo_owner_allowed(config: &Config, repo: &str) -> (out: bool)
    ensures
        out == owner_allowed(config@, repo@),
{
    let ghost split = text::split_at_first(repo@, '/');
    match split_once(repo, '/') {
        Some((owner, _)) => {
            let count: usize = config.allowlist_orgs.len();
            for i in 0..count
                invariant
                    count == config@.allowlist_orgs.len(),
                    split == text::split_at_first(repo@, '/'),
                    split matches Some((name, _)) && name == owner@,
                    forall|j: int|
                        0 <= j < i ==> !text::same_ignoring_ascii_case(
                            #[trigger] config@.allowlist_orgs[j],
                            owner@,
                        ),
            {
                if eq_ignore_ascii_case(config.allowlist_orgs.get(i), owner.as_str()) {
                    assert(text::same_ignoring_ascii_case(
                        config@.allowlist_orgs[i as int],
                        owner@,
                    ));
                    return true;
                }
            }
            false
        },
        None => false,
    }
}

/// Whether the site takes a repository: it is not excluded, and it or its owner is allowed.
pub fn repo_allowed(config: &Config, repo: &str) -> (out: bool)
    ensures
        out == allowed(config@, repo@),
{
    if config.exclude.contains(repo) {
        return false;
    }
    config.allowlist.contains(repo) || repo_owner_allowed(config, repo)
}

/// A repository that is excluded is not taken, whatever else allows it.
pub proof fn lemma_exclude_wins(c: ConfigModel, repo: Seq<char>)
    requires
        c.exclude.contains(repo),
    ensures
        !allowed(c, repo),
{
}

// ---------------------------------------------------------------------------
// Search scopes
// ---------------------------------------------------------------------------

/// The scope of an organization.
pub open spec fn org_scope(org: Seq<char>) -> Seq<char> {
    "org:"@ + org
}

/// The scope of a repository.
pub open spec fn repo_scope(repo: Seq<char>) -> Seq<char> {
    "repo:"@ + repo
}

/// The allowed repositories that the scopes of the organizations leave out.
pub open spec fn own_scope_repos(c: ConfigModel, repos: Seq<Seq<char>>) -> Seq<Seq<char>>
    decreases repos.len(),
{
    if repos.len() == 0 {
        seq![]
    } else {
        let front = own_scope_repos(c, repos.drop_last());
        if owner_allowed(c, repos.last()) {
            front
        } else {
            front.push(repo_scope(repos.last()))
        }
    }
}

/// The scopes in which comments are searched, in ascending order.
pub open spec fn scopes(c: ConfigModel) -> Seq<Seq<char>> {
    names::sorted_names(
        c.allowlist_orgs.map_values(|org: Seq<char>| org_scope(org)) + own_scope_repos(
            c,
            c.allowlist,
        ),
    )
}

/// The scopes in which comments are searched: every allowed organization, and the allowed
/// repositories of other owners.
pub fn comment_search_scopes(config: &Config) -> (out: NameSet)
    ensures
        out.listing() == scopes(config@),
        out.valid(),
{
    let ghost c = config@;
    let ghost orgs = c.allowlist_orgs.map_values(|org: Seq<char>| org_scope(org));
    let mut list: Vec<String> = Vec::new();
    assert(text::texts(list@) =~= orgs.take(0));
    let org_count: usize = config.allowlist_orgs.len();
    for i in 0..org_count
        invariant
            c == config@,
            org_count == c.allowlist_orgs.len(),
            orgs == c.allowlist_orgs.map_values(|org: Seq<char>| org_scope(org)),
            text::texts(list@) == orgs.take(i as int),
    {
        let ghost before = text::texts(list@);
        let mut scope = owned("org:");
        scope.append(config.allowlist_orgs.get(i));
        let ghost added = scope@;
        list.push(scope);
        assert(text::texts(list@) =~= before.push(added));
        assert(orgs.take(i + 1) =~= orgs.take(i as int).push(orgs[i as int]));
    }
    assert(orgs.take(orgs.len() as int) =~= orgs);
    assert(own_scope_repos(c, c.allowlist.take(0)) =~= seq![]);
    assert(orgs + own_scope_repos(c, c.allowlist.take(0)) =~= orgs);
    let repo_count: usize = config.allowlist.len();
    for i in 0..repo_count
        invariant
            c == config@,
            repo_count == c.allowlist.len(),
            text::texts(list@) == orgs + own_scope_repos(c, c.allowlist.take(i as int)),
    {
        let ghost before = text::texts(list@);
        assert(c.allowlist.take(i + 1).drop_last() =~= c.allowlist.take(i as int));
        let repo = config.allowlist.get(i);
        if !repo_owner_allowed(config, repo) {
            let mut scope = owned("repo:");
            scope.append(repo);
            let ghost added = scope@;
            list.push(scope);
            assert(text::texts(list@) =~= before.push(added));
            assert(before.push(added) =~= orgs + own_scope_repos(
                c,
                c.allowlist.take(i as int),
            ).push(added));
        }
    }
    assert(c.allowlist.take(c.allowlist.len() as int) =~= c.allowlist);
    NameSet::from_vec(list)
}

/// What the scopes of the repositories are.
proof fn lemma_own_scope_repos(c: ConfigModel, repos: Seq<Seq<char>>, scope: Seq<char>)
    ensures
        own_scope_repos(c, repos).contains(scope) <==> exists|i: int|
            0 <= i < repos.len() && scope == repo_scope(#[trigger] repos[i]) && !owner_allowed(
                c,
                repos[i],
            ),
    decreases repos.len(),
{
    if repos.len() > 0 {
        let front = repos.drop_last();
        let out = own_scope_repos(c, repos);
        let before = own_scope_repos(c, front);
        lemma_own_scope_repos(c, front, scope);
        if out.contains(scope) {
            let k = choose|k: int| 0 <= k < out.len() && out[k] == scope;
            if k < before.len() {
                assert(before[k] == scope);
                let i = choose|i: int|
                    0 <= i < front.len() && scope == repo_scope(#[trigger] front[i])
                        && !owner_allowed(c, front[i]);
                assert(repos[i] == front[i]);
            } else {
                assert(scope == repo_scope(repos[repos.len() - 1]));
            }
        }
        if exists|i: int|
            0 <= i < repos.len() && scope == repo_scope(#[trigger] repos[i]) && !owner_allowed(
                c,
                repos[i],
            ) {
            let i = choose|i: int|
                0 <= i < repos.len() && scope == repo_scope(#[trigger] repos[i])
                    && !owner_allowed(c, repos[i]);
            if i < repos.len() - 1 {
                assert(front[i] == repos[i]);
                let k = choose|k: int| 0 <= k < before.len() && before[k] == scope;
                assert(out[k] == scope);
            } else {
                assert(out[before.len() as int] == scope);
            }
        }
    }
}

/// The scopes are exactly those of the allowed organizations and of the allowed
/// repositories whose owners are not among them, each once and in ascending order.
pub proof fn lemma_scopes(c: ConfigModel, scope: Seq<char>)
    ensures
        names::ascending(scopes(c)),
        scopes(c).contains(scope) <==> (exists|i: int|
            0 <= i < c.allowlist_orgs.len() && scope == org_scope(#[trigger] c.allowlist_orgs[i]))
            || (exists|i: int|
            0 <= i < c.allowlist.len() && scope == repo_scope(#[trigger] c.allowlist[i])
                && !owner_allowed(c, c.allowlist[i])),
{
    let orgs = c.allowlist_orgs.map_values(|org: Seq<char>| org_scope(org));
    let repos = own_scope_repos(c, c.allowlist);
    names::lemma_sorted_names(orgs + repos);
    lemma_own_scope_repos(c, c.allowlist, scope);
    if (orgs + repos).contains(scope) {
        let k = choose|k: int| 0 <= k < (orgs + repos).len() && (orgs + repos)[k] == scope;
        if k < orgs.len() {
            assert(scope == org_scope(c.allowlist_orgs[k]));
        } else {
            assert(repos[k - orgs.len()] == scope);
        }
    }
    if exists|i: int|
        0 <= i < c.allowlist_orgs.len() && scope == org_scope(#[trigger] c.allowlist_orgs[i]) {
        let i = choose|i: int|
            0 <= i < c.allowlist_orgs.len() && scope == org_scope(#[trigger] c.allowlist_orgs[i]);
        assert((orgs + repos)[i] == scope);
    }
    if repos.contains(scope) {
        let k = choose|k: int| 0 <= k < repos.len() && repos[k] == scope;
        assert((orgs + repos)[orgs.len() + k] == scope);
    }
}

/// Every repository that the site takes stands in a scope: its own, or that of its owner.
pub proof fn lemma_scopes_cover(c: ConfigModel, repo: Seq<char>)
    requires
        allowed(c, repo),
    ensures
        scopes(c).contains(repo_scope(repo)) || exists|i: int|
            0 <= i < c.allowlist_orgs.len() && scopes(c).contains(
                org_scope(#[trigger] c.allowlist_orgs[i]),
            ) && text::same_ignoring_ascii_case(
                c.allowlist_orgs[i],
                repo.take(text::first_index(repo, '/')),
            ),
{
    if owner_allowed(c, repo) {
        let owner = repo.take(text::first_index(repo, '/'));
        let i = choose|i: int|
            0 <= i < c.allowlist_orgs.len() && text::same_ignoring_ascii_case(
                #[trigger] c.allowlist_orgs[i],
                owner,
            );
        lemma_scopes(c, org_scope(c.allowlist_orgs[i]));
    } else {
        let k = choose|k: int| 0 <= k < c.allowlist.len() && c.allowlist[k] == repo;
        lemma_scopes(c, repo_scope(repo));
        assert(repo_scope(repo) == repo_scope(c.allowlist[k]));
    }
}

// ---------------------------------------------------------------------------
// Validation
// ---------------------------------------------------------------------------

/// What is wrong with the configuration that a file holds, if anything is.
pub open spec fn config_problem(raw: Seq<char>) -> Option<Seq<char>> {
    match config::read_config(raw) {
        Err(e) => Some(e),
        Ok(c) => if c.base_path.len() == 0 || c.base_path[0] != '/' || c.base_path.last() != '/' {
            Some("base_path must start and end with '/'"@)
        } else {
            None
        },
    }
}

/// Checks the configuration that a file holds: it reads, it names a user, and its base path
/// starts and ends with a slash.
pub fn validate_cmd(raw: &str) -> (out: Result<(), String>)
    ensures
        outcome::problem(out) == config_problem(raw@),
{
    let config = Config::from_toml(raw)?;
    if config.username.as_str().is_empty() {
        return Err(owned("config username must not be empty"));
    }
    let chars = chars_of(config.base_path.as_str());
    if chars.len() == 0 || chars[0] != '/' || chars[chars.len() - 1] != '/' {
        return Err(owned("base_path must start and end with '/'"));
    }
    Ok(())
}

// ---------------------------------------------------------------------------
// Laws
// ---------------------------------------------------------------------------

/// The site takes a repository if and only if it is not excluded and is allowed itself, or
/// its owner is the name of an allowed organization, whatever the case of the letters.
pub proof fn lemma_allowed(c: ConfigModel, owner: Seq<char>, name: Seq<char>)
    requires
        !owner.contains('/'),
    ensures
        ({
            let repo = owner + (seq!['/'] + name);
            allowed(c, repo) <==> !c.exclude.contains(repo) && (c.allowlist.contains(repo)
                || exists|i: int|
                0 <= i < c.allowlist_orgs.len() && text::same_ignoring_ascii_case(
                    #[trigger] c.allowlist_orgs[i],
                    owner,
                ))
        }),
        allowed(c, owner) <==> !c.exclude.contains(owner) && c.allowlist.contains(owner),
{
    text::lemma_split(owner, '/', name);
}

/// An organization that is added to the allowed ones brings all its repositories with it but
/// the excluded ones, and takes none away.
pub proof fn lemma_more_allowed(c: ConfigModel, d: ConfigModel, repo: Seq<char>)
    requires
        c.exclude == d.exclude,
        forall|x: Seq<char>| #[trigger] c.allowlist.contains(x) ==> d.allowlist.contains(x),
        forall|x: Seq<char>| #[trigger]
            c.allowlist_orgs.contains(x) ==> d.allowlist_orgs.contains(x),
        allowed(c, repo),
    ensures
        allowed(d, repo),
{
    if owner_allowed(c, repo) {
        let owner = repo.take(text::first_index(repo, '/'));
        let i = choose|i: int|
            0 <= i < c.allowlist_orgs.len() && text::same_ignoring_ascii_case(
                #[trigger] c.allowlist_orgs[i],
                owner,
            );
        assert(c.allowlist_orgs.contains(c.allowlist_orgs[i]));
        let j = choose|j: int|
            0 <= j < d.allowlist_orgs.len() && d.allowlist_orgs[j] == c.allowlist_orgs[i];
        assert(text::same_ignoring_ascii_case(d.allowlist_orgs[j], owner));
    }
}

/// The scopes are exactly `org:` with each allowed organization and `repo:` with each
/// allowed repository whose owner is none of these.
pub proof fn lemma_scope_texts(c: ConfigModel, scope: Seq<char>)
    ensures
        scopes(c).contains(scope) <==> (exists|i: int|
            0 <= i < c.allowlist_orgs.len() && scope == "org:"@ + #[trigger] c.allowlist_orgs[i])
            || (exists|i: int|
            0 <= i < c.allowlist.len() && scope == "repo:"@ + #[trigger] c.allowlist[i]
                && !owner_allowed(c, c.allowlist[i])),
{
    lemma_scopes(c, scope);
    if exists|i: int|
        0 <= i < c.allowlist_orgs.len() && scope == "org:"@ + #[trigger] c.allowlist_orgs[i] {
        let i = choose|i: int|
            0 <= i < c.allowlist_orgs.len() && scope == "org:"@ + #[trigger] c.allowlist_orgs[i];
        assert(scope == org_scope(c.allowlist_orgs[i]));
    }
    if exists|i: int|
        0 <= i < c.allowlist_orgs.len() && scope == org_scope(#[trigger] c.allowlist_orgs[i]) {
        let i = choose|i: int|
            0 <= i < c.allowlist_orgs.len() && scope == org_scope(#[trigger] c.allowlist_orgs[i]);
        assert(scope == "org:"@ + c.allowlist_orgs[i]);
    }
    if exists|i: int|
        0 <= i < c.allowlist.len() && scope == "repo:"@ + #[trigger] c.allowlist[i]
            && !owner_allowed(c, c.allowlist[i]) {
        let i = choose|i: int|
            0 <= i < c.allowlist.len() && scope == "repo:"@ + #[trigger] c.allowlist[i]
                && !owner_allowed(c, c.allowlist[i]);
        assert(scope == repo_scope(c.allowlist[i]));
    }
    if exists|i: int|
        0 <= i < c.allowlist.len() && scope == repo_scope(#[trigger] c.allowlist[i])
            && !owner_allowed(c, c.allowlist[i]) {
        let i = choose|i: int|
            0 <= i < c.allowlist.len() && scope == repo_scope(#[trigger] c.allowlist[i])
                && !owner_allowed(c, c.allowlist[i]);
        assert(scope == "repo:"@ + c.allowlist[i]);
    }
}

/// A configuration passes the check if and only if it can be read and its base path starts
/// and ends with a slash.
pub proof fn lemma_config_passes(raw: Seq<char>)
    ensures
        match config::read_config(raw) {
            Ok(c) => config_problem(raw) == if c.base_path.len() > 0 && c.base_path[0] == '/'
                && c.base_path.last() == '/' {
                None::<Seq<char>>
            } else {
                Some("base_path must start and end with '/'"@)
            },
            Err(e) => config_problem(raw) == Some(e),
        },
{
}

} // verus!
