//! Cached lookups of GitHub repositories, layered over a caller-supplied git query.

use vstd::prelude::*;
use vstd::string::*;

use crate::key::{cache_key, key_view};
use crate::memo::{memo_done, memoized_call};
use crate::store::{Store, StoreHandle};

verus! {

/// The clone URL of the GitHub repository `owner/repo`.
pub open spec fn github_url_of(owner: Seq<char>, repo: Seq<char>) -> Seq<char> {
    "https://github.com/"@ + owner + "/"@ + repo + ".git"@
}

/// Builds the clone URL of the GitHub repository `owner/repo`.
pub fn github_url(owner: &str, repo: &str) -> (r: String)
    ensures
        r@ == github_url_of(owner@, repo@),
{
    let mut r = String::from_str("https://github.com/");
    r.append(owner);
    r.append("/");
    r.append(repo);
    r.append(".git");
    r
}

/// The key under which a query `name(url, rev)` is cached.
pub open spec fn query_key(name: Seq<char>, url: Seq<char>, rev: Seq<char>) -> Seq<Seq<char>> {
    seq![name, url, rev]
}

/// Runs `query(url, rev)` for the GitHub repository `owner/repo` through the cache of
/// `handle`, under the key `[name, url, rev]`.
fn cached_query<S: Store, E, F: FnOnce(String, String) -> Result<String, E>>(
    handle: &mut StoreHandle<S>,
    name: &str,
    owner: &str,
    repo: &str,
    rev: &str,
    query: F,
) -> (r: Result<String, E>)
    requires
        name@ != "version"@,
        old(handle).active() is Some,
        forall|u: String, v: String| query.requires((u, v)),
    ensures
        final(handle).active() is Some,
        memo_done(
            old(handle).active()->Some_0,
            query_key(name@, github_url_of(owner@, repo@), rev@),
            exists|u: String, v: String|
                u@ == github_url_of(owner@, repo@) && v@ == rev@ && query.ensures((u, v), r),
            r,
            final(handle).active()->Some_0,
        ),
{
    let url = github_url(owner, repo);
    let rev_owned = rev.to_owned();
    let mut args: Vec<String> = Vec::new();
    args.push(url.clone());
    args.push(rev_owned.clone());
    let key = cache_key(name, &args);
    proof {
        assert(key_view(key@) =~= query_key(name@, github_url_of(owner@, repo@), rev@));
    }
    let ghost u = url;
    let ghost v = rev_owned;
    let fetch = move || -> (q: Result<String, E>)
        ensures
            query.ensures((u, v), q),
        { query(url, rev_owned) };
    memoized_call(handle, &key, fetch)
}

/// The commit that `rev` names in the GitHub repository `owner/repo`, through the cache
/// of `handle` under the key `["commit_of_git", url, rev]`; on a miss `commit_of_git` is
/// asked with the repository's clone URL and `rev`.
pub fn commit_of_github<S: Store, E, F: FnOnce(String, String) -> Result<String, E>>(
    handle: &mut StoreHandle<S>,
    owner: &str,
    repo: &str,
    rev: &str,
    commit_of_git: F,
) -> (r: Result<String, E>)
    requires
        old(handle).active() is Some,
        forall|u: String, v: String| commit_of_git.requires((u, v)),
    ensures
        final(handle).active() is Some,
        memo_done(
            old(handle).active()->Some_0,
            query_key("commit_of_git"@, github_url_of(owner@, repo@), rev@),
            exists|u: String, v: String|
                u@ == github_url_of(owner@, repo@) && v@ == rev@ && commit_of_git.ensures((u, v), r),
            r,
            final(handle).active()->Some_0,
        ),
{
    proof {
        reveal_strlit("commit_of_git");
        reveal_strlit("version");
        assert("commit_of_git"@.len() != "version"@.len());
    }
    cached_query(handle, "commit_of_git", owner, repo, rev, commit_of_git)
}

/// The content hash of `rev` in the GitHub repository `owner/repo`, through the cache of
/// `handle` under the key `["hash_from_git", url, rev]`; on a miss `hash_from_git` is
/// asked with the repository's clone URL and `rev`.
pub fn hash_from_github<S: Store, E, F: FnOnce(String, String) -> Result<String, E>>(
    handle: &mut StoreHandle<S>,
    owner: &str,
    repo: &str,
    rev: &str,
    hash_from_git: F,
) -> (r: Result<String, E>)
    requires
        old(handle).active() is Some,
        forall|u: String, v: String| hash_from_git.requires((u, v)),
    ensures
        final(handle).active() is Some,
        memo_done(
            old(handle).active()->Some_0,
            query_key("hash_from_git"@, github_url_of(owner@, repo@), rev@),
            exists|u: String, v: String|
                u@ == github_url_of(owner@, repo@) && v@ == rev@ && hash_from_git.ensures((u, v), r),
            r,
            final(handle).active()->Some_0,
        ),
{
    proof {
        reveal_strlit("hash_from_git");
        reveal_strlit("version");
        assert("hash_from_git"@.len() != "version"@.len());
    }
    cached_query(handle, "hash_from_git", owner, repo, rev, hash_from_git)
}

} // verus!
