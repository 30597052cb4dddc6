//! Plain values and pure helpers the serving layer builds on: query
//! strings, path arithmetic, file content kinds, the refresh cadence,
//! and the commit listing with branch fallbacks.

use crate::commit_tree::CommitTree;
use crate::records::{Commit, Repository};
use crate::sorted_tree::SortedTree;
use crate::store::{Store, StoreError};
use crate::wire::has_prefix;
use vstd::prelude::*;

verus! {

// ---------------------------------------------------------------------------
// Query strings.
// ---------------------------------------------------------------------------
/// The `?h=branch` suffix for links that carry a branch, empty without
/// one.
pub fn branch_query(branch: Option<&str>) -> (r: String)
    ensures
        r@ == match branch {
            Some(b) => "?h="@ + b@,
            None => Seq::<char>::empty(),
        },
{
    match branch {
        Some(b) => {
            let s = String::from_str("?h=");
            s.concat(b)
        },
        None => {
            proof {
                reveal_strlit("");
            }
            let r = String::from_str("");
            proof {
                assert(r@ =~= Seq::<char>::empty());
            }
            r
        },
    }
}

/// The query a tree or file page carries: an optional tree id and an
/// optional branch.
pub struct UriQuery {
    pub id: Option<String>,
    pub raw: bool,
    pub branch: Option<String>,
}

pub open spec fn spec_query_string(id: Option<Seq<char>>, branch: Option<Seq<char>>) -> Seq<
    char,
> {
    match (id, branch) {
        (Option::None, Option::None) => Seq::empty(),
        (Option::Some(i), Option::None) => "?id="@ + i,
        (Option::None, Option::Some(b)) => "?h="@ + b,
        (Option::Some(i), Option::Some(b)) => "?id="@ + i + "&h="@ + b,
    }
}

impl UriQuery {
    /// The query-string form of this query, as its page links render it.
    pub fn query_string(&self) -> (r: String)
        ensures
            r@ == spec_query_string(
                match self.id {
                    Some(ref i) => Some(i@),
                    None => None,
                },
                match self.branch {
                    Some(ref b) => Some(b@),
                    None => None,
                },
            ),
    {
        match (&self.id, &self.branch) {
            (None, None) => {
                proof {
                    reveal_strlit("");
                }
                let r = String::from_str("");
                proof {
                    assert(r@ =~= Seq::<char>::empty());
                }
                r
            },
            (Some(i), None) => String::from_str("?id=").concat(i.as_str()),
            (None, Some(b)) => String::from_str("?h=").concat(b.as_str()),
            (Some(i), Some(b)) => String::from_str("?id=").concat(i.as_str()).concat(
                "&h=",
            ).concat(b.as_str()),
        }
    }
}

// ---------------------------------------------------------------------------
// Path arithmetic.
// ---------------------------------------------------------------------------
/// What remains of `full` below the directory `base`: the empty path
/// when they are equal, the rest after `base/`, and nothing when `full`
/// does not lie under `base`. A path never lies under the empty base.
pub open spec fn spec_path_rest(base: Seq<u8>, full: Seq<u8>) -> Option<Seq<u8>> {
    if base.len() == 0 {
        None
    } else if full == base {
        Some(Seq::empty())
    } else if has_prefix(full, base + seq![47u8]) {
        Some(full.skip(base.len() + 1 as int))
    } else {
        None
    }
}

/// The path of `full_path` relative to `relative_to`, when it lies
/// beneath it.
pub fn get_relative_path(relative_to: &Vec<u8>, full_path: &Vec<u8>) -> (r: Option<Vec<u8>>)
    ensures
        match r {
            Some(rest) => spec_path_rest(relative_to@, full_path@) == Some(rest@),
            None => spec_path_rest(relative_to@, full_path@) is None,
        },
{
    if relative_to.len() == 0 {
        return None;
    }
    if crate::store::bytes_equal(full_path, relative_to) {
        let empty: Vec<u8> = Vec::new();
        proof {
            assert(empty@ =~= Seq::<u8>::empty());
        }
        return Some(empty);
    }
    let mut sep = relative_to.clone();
    sep.push(47u8);
    if crate::wire::starts_with(full_path, &sep) {
        proof {
            assert(sep@ =~= relative_to@ + seq![47u8]);
            assert(sep@.len() <= full_path@.len());
            assert(relative_to@.len() < full_path@.len());
            assert(full_path@.len() == full_path.len());
            assert(relative_to@.len() == relative_to.len());
        }
        let rest = crate::records::copy_range(full_path, relative_to.len() + 1, full_path.len());
        proof {
            assert(rest@ =~= full_path@.skip(relative_to@.len() + 1 as int));
        }
        Some(rest)
    } else {
        proof {
            assert(sep@ =~= relative_to@ + seq![47u8]);
        }
        None
    }
}

// ---------------------------------------------------------------------------
// The sidebar file tree.
// ---------------------------------------------------------------------------
/// The rendering state of one directory level of the sidebar tree.
pub struct FileTree {
    /// The subtree at this level.
    pub inner: SortedTree,
    /// The repository's URL path.
    pub base: Vec<u8>,
    /// The path from the tree root down to this level.
    pub path_stack: Vec<u8>,
    /// The query the links carry.
    pub query: UriQuery,
    /// The path of the file the page shows, if any, relative to this
    /// level.
    pub repo_path: Option<Vec<u8>>,
}

impl FileTree {
    pub fn new(
        inner: SortedTree,
        base: Vec<u8>,
        path_stack: Vec<u8>,
        query: UriQuery,
        repo_path: Option<Vec<u8>>,
    ) -> (r: FileTree)
        ensures
            r.base@ == base@,
            r.path_stack@ == path_stack@,
            match (r.repo_path, repo_path) {
                (Some(a), Some(b)) => a@ == b@,
                (None, None) => true,
                _ => false,
            },
    {
        FileTree { inner, base, path_stack, query, repo_path }
    }

    /// When the shown file lies under the child directory `name`, the
    /// shown file's path relative to that child; nothing otherwise.
    pub fn get_next_repo_path_if_parent(&self, name: &Vec<u8>) -> (r: Option<Vec<u8>>)
        ensures
            match (&self.repo_path, r) {
                (Some(p), Some(rest)) => spec_path_rest(name@, p@) == Some(rest@),
                (Some(p), None) => spec_path_rest(name@, p@) is None,
                (None, None) => true,
                (None, Some(_)) => false,
            },
    {
        match &self.repo_path {
            Some(p) => get_relative_path(name, p),
            None => None,
        }
    }
}

// ---------------------------------------------------------------------------
// File contents and readme kinds.
// ---------------------------------------------------------------------------
/// What a file page serves.
pub enum Content {
    /// Valid UTF-8, rendered as text.
    Text(Vec<u8>),
    /// Anything else, served raw.
    Binary(Vec<u8>),
}

/// A file a tree lookup resolved, with its content.
pub struct FileWithContent {
    pub content: Content,
}

/// How a readme is rendered.
pub enum ReadmeFormat {
    Markdown,
    Plaintext,
}

/// The not-found answer for a malformed request.
pub struct InvalidRequest;

impl InvalidRequest {
    pub fn message(&self) -> (r: &'static str)
        ensures
            r@ == "Invalid request"@,
    {
        "Invalid request"
    }
}

/// The not-found answer for an unknown repository.
pub struct RepositoryNotFound;

impl RepositoryNotFound {
    pub fn message(&self) -> (r: &'static str)
        ensures
            r@ == "Repository not found"@,
    {
        "Repository not found"
    }
}

/// A failure the serving layer reports: its message bytes.
pub struct Error(pub Vec<u8>);

// ---------------------------------------------------------------------------
// The refresh cadence.
// ---------------------------------------------------------------------------
/// How often the indexer wakes on its own: never, or every so many
/// seconds.
pub enum RefreshInterval {
    Never,
    Duration(u64),
}

/// The numeric value of a run of ASCII digits; nothing on a non-digit
/// or on overflow.
pub open spec fn spec_digits(s: Seq<u8>) -> Option<u64>
    decreases s.len(),
{
    if s.len() == 0 {
        None
    } else if s.len() == 1 {
        if 48 <= s[0] <= 57 {
            Some((s[0] - 48) as u64)
        } else {
            None
        }
    } else {
        match spec_digits(s.drop_last()) {
            Some(hi) => if 48 <= s.last() <= 57 {
                if hi <= (0xffff_ffff_ffff_ffffu64 - (s.last() - 48) as u64) / 10 {
                    Some((hi * 10 + (s.last() - 48)) as u64)
                } else {
                    None
                }
            } else {
                None
            },
            None => None,
        }
    }
}

/// What an interval string denotes: `never`, a number of seconds, or a
/// number suffixed `s`, `m`, `h` or `d`; nothing otherwise.
pub open spec fn spec_refresh_interval(s: Seq<u8>) -> Option<RefreshInterval> {
    if s == "never"@.map(|i: int, c: char| c as u8) {
        Some(RefreshInterval::Never)
    } else if s.len() > 0 && (s.last() == 115 || s.last() == 109 || s.last() == 104 || s.last()
        == 100) {
        let scale: u64 = if s.last() == 115 {
            1
        } else if s.last() == 109 {
            60
        } else if s.last() == 104 {
            3600
        } else {
            86400
        };
        match spec_digits(s.drop_last()) {
            Some(n) => if n <= 0xffff_ffff_ffff_ffffu64 / scale {
                Some(RefreshInterval::Duration((n * scale) as u64))
            } else {
                None
            },
            None => None,
        }
    } else {
        match spec_digits(s) {
            Some(n) => Some(RefreshInterval::Duration(n)),
            None => None,
        }
    }
}

impl RefreshInterval {
    /// Parse an interval string: `never`, plain seconds, or seconds,
    /// minutes, hours or days by suffix. A single value with one unit is
    /// the whole grammar; richer duration strings are for the host to
    /// translate.
    pub fn parse(s: &Vec<u8>) -> (r: Option<RefreshInterval>)
        ensures
            r == spec_refresh_interval(s@),
    {
        let never = never_bytes();
        if crate::store::bytes_equal(s, &never) {
            return Some(RefreshInterval::Never);
        }
        if s.len() > 0 {
            let lastb = s[s.len() - 1];
            if lastb == 115u8 || lastb == 109u8 || lastb == 104u8 || lastb == 100u8 {
                let scale: u64 = if lastb == 115u8 {
                    1
                } else if lastb == 109u8 {
                    60
                } else if lastb == 104u8 {
                    3600
                } else {
                    86400
                };
                let head = crate::records::copy_range(s, 0, s.len() - 1);
                proof {
                    assert(head@ =~= s@.drop_last());
                }
                return match parse_digits(&head) {
                    Some(n) => if n <= 0xffff_ffff_ffff_ffffu64 / scale {
                        Some(RefreshInterval::Duration(n * scale))
                    } else {
                        None
                    },
                    None => None,
                };
            }
        }
        match parse_digits(s) {
            Some(n) => Some(RefreshInterval::Duration(n)),
            None => None,
        }
    }
}

fn never_bytes() -> (r: Vec<u8>)
    ensures
        r@ == "never"@.map(|i: int, c: char| c as u8),
{
    let mut v: Vec<u8> = Vec::new();
    v.push(110u8);
    v.push(101u8);
    v.push(118u8);
    v.push(101u8);
    v.push(114u8);
    proof {
        reveal_strlit("never");
        assert(v@ =~= "never"@.map(|i: int, c: char| c as u8));
    }
    v
}

/// Parse a run of ASCII digits, refusing overflow.
pub fn parse_digits(s: &Vec<u8>) -> (r: Option<u64>)
    ensures
        r == spec_digits(s@),
{
    if s.len() == 0 {
        return None;
    }
    let mut acc: u64 = 0;
    let mut i: usize = 0;
    let b0 = s[0];
    if b0 < 48u8 || b0 > 57u8 {
        proof {
            lemma_digits_bad_first(s@);
        }
        return None;
    }
    acc = (b0 - 48u8) as u64;
    i = 1;
    proof {
        assert(s@.take(1).len() == 1);
        assert(s@.take(1)[0] == s@[0]);
        assert(spec_digits(s@.take(1)) == Some(acc));
    }
    while i < s.len()
        invariant
            1 <= i <= s@.len(),
            spec_digits(s@.take(i as int)) == Some(acc),
        decreases s@.len() - i,
    {
        let b = s[i];
        proof {
            assert(s@.take(i + 1).drop_last() =~= s@.take(i as int));
            assert(s@.take(i + 1).last() == s@[i as int]);
            assert(s@.take(i + 1).len() == i + 1);
        }
        if b < 48u8 || b > 57u8 {
            proof {
                lemma_digits_dead_prefix(s@, i as int);
            }
            return None;
        }
        let d = (b - 48u8) as u64;
        if acc > (0xffff_ffff_ffff_ffffu64 - d) / 10u64 {
            proof {
                lemma_digits_dead_prefix(s@, i as int);
            }
            return None;
        }
        acc = acc * 10 + d;
        i = i + 1;
    }
    proof {
        assert(s@.take(s@.len() as int) =~= s@);
    }
    Some(acc)
}

/// A non-digit (or overflowing) head position kills the whole parse.
proof fn lemma_digits_dead_prefix(s: Seq<u8>, i: int)
    requires
        0 <= i < s.len(),
        spec_digits(s.take(i + 1)) is None,
    ensures
        spec_digits(s) is None,
    decreases s.len() - i,
{
    if i + 1 == s.len() {
        assert(s.take(i + 1) =~= s);
    } else {
        assert(s.take(i + 2).drop_last() =~= s.take(i + 1));
        lemma_digits_dead_prefix(s, i + 1);
    }
}

proof fn lemma_digits_bad_first(s: Seq<u8>)
    requires
        s.len() >= 1,
        !(48 <= s[0] <= 57),
    ensures
        spec_digits(s) is None,
    decreases s.len(),
{
    if s.len() > 1 {
        assert(s.drop_last()[0] == s[0]);
        lemma_digits_bad_first(s.drop_last());
    }
}

// ---------------------------------------------------------------------------
// The commit listing with branch fallbacks.
// ---------------------------------------------------------------------------
fn refs_heads_bytes() -> (r: Vec<u8>)
    ensures
        r@ == "refs/heads/"@.map(|i: int, c: char| c as u8),
        crate::keys::nul_free(r@),
{
    let mut v: Vec<u8> = Vec::new();
    v.push(114u8);
    v.push(101u8);
    v.push(102u8);
    v.push(115u8);
    v.push(47u8);
    v.push(104u8);
    v.push(101u8);
    v.push(97u8);
    v.push(100u8);
    v.push(115u8);
    v.push(47u8);
    proof {
        reveal_strlit("refs/heads/");
        assert(v@ =~= "refs/heads/"@.map(|i: int, c: char| c as u8));
    }
    v
}

fn refs_tags_bytes() -> (r: Vec<u8>)
    ensures
        r@ == "refs/tags/"@.map(|i: int, c: char| c as u8),
        crate::keys::nul_free(r@),
{
    let mut v: Vec<u8> = Vec::new();
    v.push(114u8);
    v.push(101u8);
    v.push(102u8);
    v.push(115u8);
    v.push(47u8);
    v.push(116u8);
    v.push(97u8);
    v.push(103u8);
    v.push(115u8);
    v.push(47u8);
    proof {
        reveal_strlit("refs/tags/");
        assert(v@ =~= "refs/tags/"@.map(|i: int, c: char| c as u8));
    }
    v
}

fn master_bytes() -> (r: Vec<u8>)
    ensures
        r@ == "refs/heads/master"@.map(|i: int, c: char| c as u8),
{
    let mut v = refs_heads_bytes();
    v.push(109u8);
    v.push(97u8);
    v.push(115u8);
    v.push(116u8);
    v.push(101u8);
    v.push(114u8);
    proof {
        reveal_strlit("refs/heads/");
        reveal_strlit("refs/heads/master");
        assert(v@ =~= "refs/heads/master"@.map(|i: int, c: char| c as u8));
    }
    v
}

fn main_bytes() -> (r: Vec<u8>)
    ensures
        r@ == "refs/heads/main"@.map(|i: int, c: char| c as u8),
{
    let mut v = refs_heads_bytes();
    v.push(109u8);
    v.push(97u8);
    v.push(105u8);
    v.push(110u8);
    proof {
        reveal_strlit("refs/heads/");
        reveal_strlit("refs/heads/main");
        assert(v@ =~= "refs/heads/main"@.map(|i: int, c: char| c as u8));
    }
    v
}

/// What one candidate reference yields for a log page: nothing usable
/// when its name cannot stand in a key, the window of its newest rows
/// otherwise; no answer when its count row is malformed.
pub open spec fn spec_try_ref(
    cm: Map<Seq<u8>, Seq<u8>>,
    ccm: Map<Seq<u8>, Seq<u8>>,
    repo: u64,
    rn: Seq<u8>,
    amount: u64,
    offset: u64,
) -> Option<Seq<crate::records::CommitV>> {
    if !crate::keys::nul_free(rn) {
        Some(Seq::empty())
    } else {
        match crate::commit_tree::spec_ref_count(ccm, repo, rn) {
            Some(n) => {
                let hi = if n >= offset {
                    (n - offset) as u64
                } else {
                    0u64
                };
                let lo = if hi >= amount {
                    (hi - amount) as u64
                } else {
                    0u64
                };
                Some(crate::commit_tree::spec_window(cm, repo, rn, lo as int, hi as int))
            },
            None => None,
        }
    }
}

/// The full name of a branch under `refs/heads/`.
pub open spec fn spec_heads_name(b: Seq<u8>) -> Seq<u8> {
    "refs/heads/"@.map(|i: int, c: char| c as u8) + b
}

/// The full name of a branch under `refs/tags/`.
pub open spec fn spec_tags_name(b: Seq<u8>) -> Seq<u8> {
    "refs/tags/"@.map(|i: int, c: char| c as u8) + b
}

/// The newest commits of a repository for a log page. With a branch
/// given, `refs/heads/<branch>` is tried, then `refs/tags/<branch>`;
/// without one, the repository's default branch, then `refs/heads/master`
/// and `refs/heads/main` — the first reference with any commits wins.
pub fn get_branch_commits(
    repository: &Repository,
    store: &Store,
    branch: Option<&Vec<u8>>,
    amount: u64,
    offset: u64,
) -> (r: Result<Vec<Commit>, StoreError>)
    ensures
        r matches Ok(cs) ==> cs@.len() <= amount,
        r matches Ok(cs) ==> ({
            let cm = crate::store::family_view(*store, crate::store::Family::Commit);
            let ccm = crate::store::family_view(*store, crate::store::Family::CommitCount);
            let id = repository.id;
            let out = crate::commit_tree::views_of_commits(cs@);
            match branch {
                Some(b) => ({
                    let w1 = spec_try_ref(cm, ccm, id, spec_heads_name(b@), amount, offset);
                    &&& w1 is Some
                    &&& (w1->Some_0.len() > 0 ==> out == w1->Some_0)
                    &&& (w1->Some_0.len() == 0 ==> spec_try_ref(
                        cm,
                        ccm,
                        id,
                        spec_tags_name(b@),
                        amount,
                        offset,
                    ) == Some(out))
                }),
                None => ({
                    let w_default: Option<Seq<crate::records::CommitV>> = match repository
                        .default_branch {
                        Some(ref db) => spec_try_ref(cm, ccm, id, db@, amount, offset),
                        None => Some(Seq::empty()),
                    };
                    let w_master = spec_try_ref(
                        cm,
                        ccm,
                        id,
                        "refs/heads/master"@.map(|i: int, c: char| c as u8),
                        amount,
                        offset,
                    );
                    let w_main = spec_try_ref(
                        cm,
                        ccm,
                        id,
                        "refs/heads/main"@.map(|i: int, c: char| c as u8),
                        amount,
                        offset,
                    );
                    &&& w_default is Some
                    &&& (w_default->Some_0.len() > 0 ==> out == w_default->Some_0)
                    &&& (w_default->Some_0.len() == 0 ==> {
                        &&& w_master is Some
                        &&& (w_master->Some_0.len() > 0 ==> out == w_master->Some_0)
                        &&& (w_master->Some_0.len() == 0 ==> w_main == Some(out))
                    })
                }),
            }
        }),
{
    match branch {
        Some(b) => {
            let mut name = refs_heads_bytes();
            let mut tail = b.clone();
            name.append(&mut tail);
            proof {
                assert(name@ =~= spec_heads_name(b@));
            }
            match fetch_ref_commits(store, repository.id, &name, amount, offset) {
                Ok(cs) => {
                    proof {
                        assert(crate::commit_tree::views_of_commits(cs@).len() == cs@.len());
                    }
                    if cs.len() > 0 {
                        return Ok(cs);
                    }
                },
                Err(e) => return Err(e),
            }
            let mut name2 = refs_tags_bytes();
            let mut tail2 = b.clone();
            name2.append(&mut tail2);
            proof {
                assert(name2@ =~= spec_tags_name(b@));
            }
            fetch_ref_commits(store, repository.id, &name2, amount, offset)
        },
        None => {
            match &repository.default_branch {
                Some(d) => {
                    match fetch_ref_commits(store, repository.id, d, amount, offset) {
                        Ok(cs) => {
                            proof {
                                assert(crate::commit_tree::views_of_commits(cs@).len()
                                    == cs@.len());
                            }
                            if cs.len() > 0 {
                                return Ok(cs);
                            }
                        },
                        Err(e) => return Err(e),
                    }
                },
                None => {},
            }
            let master = master_bytes();
            match fetch_ref_commits(store, repository.id, &master, amount, offset) {
                Ok(cs) => {
                    proof {
                        assert(crate::commit_tree::views_of_commits(cs@).len() == cs@.len());
                    }
                    if cs.len() > 0 {
                        return Ok(cs);
                    }
                },
                Err(e) => return Err(e),
            }
            let main = main_bytes();
            fetch_ref_commits(store, repository.id, &main, amount, offset)
        },
    }
}

/// The newest commits of one reference, or none at all when its name
/// cannot stand in a key.
fn fetch_ref_commits(store: &Store, repo: u64, name: &Vec<u8>, amount: u64, offset: u64) -> (r:
    Result<Vec<Commit>, StoreError>)
    ensures
        r matches Ok(cs) ==> cs@.len() <= amount,
        r matches Ok(cs) ==> spec_try_ref(
            crate::store::family_view(*store, crate::store::Family::Commit),
            crate::store::family_view(*store, crate::store::Family::CommitCount),
            repo,
            name@,
            amount,
            offset,
        ) == Some(crate::commit_tree::views_of_commits(cs@)),
{
    match CommitTree::new(repo, name) {
        Some(ct) => ct.fetch_latest(store, amount, offset),
        None => {
            let empty: Vec<Commit> = Vec::new();
            proof {
                assert(crate::commit_tree::views_of_commits(empty@) =~= Seq::<
                    crate::records::CommitV,
                >::empty());
            }
            Ok(empty)
        },
    }
}

} // verus!
