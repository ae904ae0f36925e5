//! Several roots under one name, each with its own index.

pub mod proposal;
pub mod workspace_laws;

use crate::digest;
use crate::paths;
use crate::store::paths as store_paths;
use crate::system;
use crate::text;
use crate::text::Failure;
use crate::workspace::proposal::ProposedMember;
use vstd::prelude::*;
use vstd::string::StringExecFns;
use vstd::utf8;

verus! {

/// A workspace has no more members.
pub const MAX_MEMBERS: usize = 32;

/// Whether a cache is apart from the roots of all members: neither is inside of the other.
pub open spec fn apart(base: Seq<u8>, roots: Seq<Vec<u8>>) -> bool {
    forall|i: int|
        0 <= i < roots.len() ==> !paths::below(base, (#[trigger] roots[i])@) && !paths::below(
            roots[i]@,
            base,
        )
}

/// Checks that a cache is apart from the roots of all members.
pub fn check_cache_base(base: &[u8], roots: &Vec<Vec<u8>>) -> (result: Result<(), Failure>)
    ensures
        match result {
            Ok(_) => apart(base@, roots@),
            Err(failure) => !apart(base@, roots@) && text::plain(
                failure,
                "invalid_cache: workspace cache base must be outside member roots"@,
            ),
        },
{
    let mut i: usize = 0;
    while i < roots.len()
        invariant
            i <= roots.len(),
            forall|k: int|
                0 <= k < i ==> !paths::below(base@, (#[trigger] roots@[k])@) && !paths::below(
                    roots@[k]@,
                    base@,
                ),
        decreases roots.len() - i,
    {
        if paths::starts_with(base, roots[i].as_slice()) || paths::starts_with(
            roots[i].as_slice(),
            base,
        ) {
            assert(paths::below(base@, roots@[i as int]@) || paths::below(
                roots@[i as int]@,
                base@,
            ));
            return Err(
                Failure::new("invalid_cache: workspace cache base must be outside member roots"),
            );
        }
        i += 1;
    }
    Ok(())
}

/// How much of a digest names a cache.
pub const CACHE_NAME: usize = 24;

fn shortened(name: &str) -> (short: String)
    requires
        name@.len() >= CACHE_NAME,
    ensures
        short@ == name@.take(CACHE_NAME as int),
{
    let chars = text::chars_of(name);
    assert(chars@.subrange(0, CACHE_NAME as int) =~= name@.take(CACHE_NAME as int));
    text::text_of(&chars.as_slice()[0..CACHE_NAME])
}

/// Where the cache of a workspace is: below the base that was given, else beside the cache that
/// its configuration file would have as a root.
pub open spec fn workspace_cache(
    id: Seq<char>,
    explicit: Option<Seq<u8>>,
    root_cache: Seq<u8>,
) -> Option<Seq<u8>> {
    let name = utf8::encode_utf8(id).take(CACHE_NAME as int);
    match explicit {
        Some(base) => Some(
            paths::joined(paths::joined(base, utf8::encode_utf8("workspace"@)), name),
        ),
        None => match paths::directory_of(root_cache) {
            Some(base) => Some(
                paths::joined(paths::joined(base, utf8::encode_utf8("workspaces"@)), name),
            ),
            None => None,
        },
    }
}

/// Where the cache of a workspace is. `id` names the workspace; `default_cache` gives the cache
/// that its configuration file would have as a root.
pub fn cache_path<D: FnOnce() -> Result<Vec<u8>, Failure>>(
    id: &str,
    explicit: Option<&[u8]>,
    default_cache: D,
) -> (result: Result<Vec<u8>, Failure>)
    requires
        utf8::encode_utf8(id@).len() >= CACHE_NAME,
        explicit is None ==> call_requires(default_cache, ()),
    ensures
        match explicit {
            Some(base) => result is Ok && Some(result->Ok_0@) == workspace_cache(
                id@,
                Some(base@),
                Seq::empty(),
            ),
            None => exists|cache: Result<Vec<u8>, Failure>| #[trigger]
                call_ensures(default_cache, (), cache) && match cache {
                    Err(failure) => result == Err::<Vec<u8>, Failure>(failure),
                    Ok(cache) => match workspace_cache(id@, None, cache@) {
                        Some(path) => result is Ok && result->Ok_0@ == path,
                        None => result is Err && text::plain(
                            result->Err_0,
                            "invalid cache base"@,
                        ),
                    },
                },
        },
{
    let name = &id.as_bytes()[0..CACHE_NAME];
    assert(name@ =~= utf8::encode_utf8(id@).take(CACHE_NAME as int));
    match explicit {
        Some(base) => {
            let inner = paths::join(base, "workspace".as_bytes());
            Ok(paths::join(inner.as_slice(), name))
        },
        None => {
            let cache = default_cache();
            let ghost given = cache;
            assert(call_ensures(default_cache, (), given));
            match cache {
                Err(failure) => Err(failure),
                Ok(cache) => match paths::parent(cache.as_slice()) {
                    Some(base) => {
                        let inner = paths::join(base.as_slice(), "workspaces".as_bytes());
                        Ok(paths::join(inner.as_slice(), name))
                    },
                    None => Err(Failure::new("invalid cache base")),
                },
            }
        },
    }
}

/// The name of the cache of a member: the start of a digest of its root.
pub open spec fn member_name(root: Seq<u8>) -> Seq<char> {
    digest::hex(
        digest::blake3_digest(
            utf8::encode_utf8(store_paths::as_chars(store_paths::escaped(root))),
        ),
    ).take(CACHE_NAME as int)
}

/// Whether `result` is the cache of the root of a member: below the base that was given, else the
/// one that the root has anyway.
pub open spec fn hashed_cache<D: FnOnce() -> Result<Vec<u8>, Failure>>(
    root: Seq<u8>,
    explicit: Option<&[u8]>,
    default_cache: D,
    result: Result<Vec<u8>, Failure>,
) -> bool {
    match explicit {
        Some(base) => result is Ok && result->Ok_0@ == system::two_below(
            base@,
            "members"@,
            member_name(root),
        ),
        None => call_ensures(default_cache, (), result),
    }
}

fn hashed_member_cache<D: FnOnce() -> Result<Vec<u8>, Failure>>(
    root: &[u8],
    explicit: Option<&[u8]>,
    default_cache: D,
) -> (result: Result<Vec<u8>, Failure>)
    requires
        explicit is None ==> call_requires(default_cache, ()),
    ensures
        hashed_cache(root@, explicit, default_cache, result),
{
    match explicit {
        Some(base) => {
            let encoded = store_paths::encode_path(root);
            let hash = digest::blake3_hex(encoded.as_str().as_bytes());
            let name = shortened(hash.as_str());
            let inner = paths::join(base, "members".as_bytes());
            Ok(paths::join(inner.as_slice(), name.as_str().as_bytes()))
        },
        None => default_cache(),
    }
}

/// The cache of the effective root of a member. A linked worktree has one of its own, which
/// `worktree_cache` warms from that of its member.
pub fn member_cache<
    D: FnOnce() -> Result<Vec<u8>, Failure>,
    W: FnOnce() -> Result<Vec<u8>, Failure>,
>(
    root: &[u8],
    is_worktree: bool,
    explicit: Option<&[u8]>,
    default_cache: D,
    worktree_cache: W,
) -> (result: Result<Vec<u8>, Failure>)
    requires
        !is_worktree && explicit is None ==> call_requires(default_cache, ()),
        is_worktree ==> call_requires(worktree_cache, ()),
    ensures
        if is_worktree {
            call_ensures(worktree_cache, (), result)
        } else {
            hashed_cache(root@, explicit, default_cache, result)
        },
{
    if is_worktree {
        return worktree_cache();
    }
    hashed_member_cache(root, explicit, default_cache)
}

/// Whether a member has a name.
pub open spec fn is_member(names: Seq<String>, name: Seq<char>) -> bool {
    exists|i: int| 0 <= i < names.len() && (#[trigger] names[i])@ == name
}

fn place_of(names: &Vec<String>, name: &str) -> (at: Option<usize>)
    ensures
        match at {
            Some(at) => at < names.len() && names@[at as int]@ == name@ && forall|k: int|
                0 <= k < at ==> (#[trigger] names@[k])@ != name@,
            None => !is_member(names@, name@),
        },
{
    let mut i: usize = 0;
    while i < names.len()
        invariant
            i <= names.len(),
            forall|k: int| 0 <= k < i ==> (#[trigger] names@[k])@ != name@,
        decreases names.len() - i,
    {
        if text::same_text(names[i].as_str(), name) {
            return Some(i);
        }
        i += 1;
    }
    None
}

/// The member that a command for one owner is about: the one that was named, else the one that
/// the current root belongs to. `names` are those of the members, and `home` is the place of
/// that one.
pub fn selected_member(names: &Vec<String>, wanted: Option<&str>, home: Option<usize>) -> (result:
    Result<usize, Failure>)
    ensures
        match wanted {
            Some(name) => match result {
                Ok(at) => at < names.len() && names@[at as int]@ == name@ && forall|k: int|
                    0 <= k < at ==> (#[trigger] names@[k])@ != name@,
                Err(failure) => !is_member(names@, name@) && text::plain(
                    failure,
                    "invalid_member: member is not configured"@,
                ),
            },
            None => match home {
                Some(home) => result == Ok::<usize, Failure>(home),
                None => result is Err && text::plain(
                    result->Err_0,
                    "member_required: select --member for an owner-scoped command"@,
                ),
            },
        },
{
    match wanted {
        Some(name) => match place_of(names, name) {
            Some(at) => Ok(at),
            None => Err(Failure::new("invalid_member: member is not configured")),
        },
        None => match home {
            Some(home) => Ok(home),
            None => Err(
                Failure::new("member_required: select --member for an owner-scoped command"),
            ),
        },
    }
}

/// Where the diagnostics of a request belong.
#[derive(Debug)]
pub enum DiagnosticOwner {
    /// To a member, by its place.
    Member(usize),
    /// To the workspace as a whole.
    Workspace,
}

/// Whether a command is about the logs of one owner.
pub open spec fn owner_scoped(verb: Option<Seq<char>>) -> bool {
    verb == Some("session"@) || verb == Some("audit"@) || verb == Some("forget-logs"@)
}

/// Where the diagnostics of a request belong: for a command about the logs of one owner, to the
/// member that is selected; else to the member that the current root belongs to, or the one
/// that was named, or the workspace as a whole.
pub fn diagnostic_owner(
    verb: Option<&str>,
    names: &Vec<String>,
    wanted: Option<&str>,
    home: Option<usize>,
) -> (result: Result<DiagnosticOwner, Failure>)
    ensures
        if owner_scoped(
            match verb {
                Some(verb) => Some(verb@),
                None => None,
            },
        ) {
            match wanted {
                Some(name) => match result {
                    Ok(owner) => owner matches DiagnosticOwner::Member(at) && at < names.len()
                        && names@[at as int]@ == name@,
                    Err(failure) => !is_member(names@, name@) && text::plain(
                        failure,
                        "invalid_member: member is not configured"@,
                    ),
                },
                None => match home {
                    Some(home) => result == Ok::<DiagnosticOwner, Failure>(
                        DiagnosticOwner::Member(home),
                    ),
                    None => result is Err && text::plain(
                        result->Err_0,
                        "member_required: select --member for an owner-scoped command"@,
                    ),
                },
            }
        } else {
            match (home, wanted) {
                (Some(home), _) => result == Ok::<DiagnosticOwner, Failure>(
                    DiagnosticOwner::Member(home),
                ),
                (None, Some(name)) => match result {
                    Ok(DiagnosticOwner::Member(at)) => at < names.len() && names@[at as int]@
                        == name@,
                    Ok(DiagnosticOwner::Workspace) => !is_member(names@, name@),
                    Err(_) => false,
                },
                (None, None) => result == Ok::<DiagnosticOwner, Failure>(
                    DiagnosticOwner::Workspace,
                ),
            }
        },
{
    let scoped = match verb {
        Some(verb) => text::same_text(verb, "session") || text::same_text(verb, "audit")
            || text::same_text(verb, "forget-logs"),
        None => false,
    };
    if scoped {
        return match selected_member(names, wanted, home) {
            Ok(at) => Ok(DiagnosticOwner::Member(at)),
            Err(failure) => Err(failure),
        };
    }
    match home {
        Some(home) => Ok(DiagnosticOwner::Member(home)),
        None => match wanted {
            Some(name) => match place_of(names, name) {
                Some(at) => Ok(DiagnosticOwner::Member(at)),
                None => Ok(DiagnosticOwner::Workspace),
            },
            None => Ok(DiagnosticOwner::Workspace),
        },
    }
}

/// What a command does in a workspace.
#[derive(Clone, Copy, Debug, PartialEq, Eq, Structural)]
pub enum LocalAction {
    Semantic,
    Inspect,
    /// Show more of a result.
    More,
    /// Show a source, within the budget of a page.
    Show,
    /// Show what is around a source.
    Context,
    History,
    /// Hand the command to one member.
    Owner,
    /// Search all members.
    Search,
}

/// What a command does in a workspace, where it is one.
pub open spec fn local_action(verb: Seq<char>) -> Option<LocalAction> {
    if verb == "semantic"@ {
        Some(LocalAction::Semantic)
    } else if verb == "ws"@ {
        Some(LocalAction::Inspect)
    } else if verb == "more"@ {
        Some(LocalAction::More)
    } else if verb == "show"@ {
        Some(LocalAction::Show)
    } else if verb == "ctx"@ {
        Some(LocalAction::Context)
    } else if verb == "hist"@ || verb == "since"@ || verb == "diff"@ || verb == "blame"@ {
        Some(LocalAction::History)
    } else if verb == "index"@ || verb == "init"@ || verb == "status"@ || verb == "doctor"@ || verb
        == "hist-index"@ || verb == "hist-status"@ || verb == "session"@ || verb == "audit"@
        || verb == "forget-logs"@ || verb == "semantic-check"@ {
        Some(LocalAction::Owner)
    } else if verb == "search"@ || verb == "refs"@ || verb == "map"@ {
        Some(LocalAction::Search)
    } else {
        None
    }
}

/// Whether a command is one of a server, which no user gives.
pub open spec fn internal(verb: Seq<char>) -> bool {
    verb == "serve"@ || verb == "history-serve"@ || verb == "workspace-serve"@
}

fn find_action(verb: &str) -> (action: Option<LocalAction>)
    ensures
        action == local_action(verb@),
{
    if text::same_text(verb, "semantic") {
        Some(LocalAction::Semantic)
    } else if text::same_text(verb, "ws") {
        Some(LocalAction::Inspect)
    } else if text::same_text(verb, "more") {
        Some(LocalAction::More)
    } else if text::same_text(verb, "show") {
        Some(LocalAction::Show)
    } else if text::same_text(verb, "ctx") {
        Some(LocalAction::Context)
    } else if text::same_text(verb, "hist") || text::same_text(verb, "since") || text::same_text(
        verb,
        "diff",
    ) || text::same_text(verb, "blame") {
        Some(LocalAction::History)
    } else if text::same_text(verb, "index") || text::same_text(verb, "init") || text::same_text(
        verb,
        "status",
    ) || text::same_text(verb, "doctor") || text::same_text(verb, "hist-index") || text::same_text(
        verb,
        "hist-status",
    ) || text::same_text(verb, "session") || text::same_text(verb, "audit") || text::same_text(
        verb,
        "forget-logs",
    ) || text::same_text(verb, "semantic-check") {
        Some(LocalAction::Owner)
    } else if text::same_text(verb, "search") || text::same_text(verb, "refs") || text::same_text(
        verb,
        "map",
    ) {
        Some(LocalAction::Search)
    } else {
        None
    }
}

/// Why a command is refused.
pub open spec fn local_fault(verb: Seq<char>, words: int) -> Option<Seq<char>> {
    match local_action(verb) {
        Some(action) => if action == LocalAction::More && words < 2 {
            Some("usage: more SET@OFFSET"@)
        } else {
            None
        },
        None => if internal(verb) {
            Some("invalid_command: internal server command"@)
        } else {
            Some("invalid_command: unknown command "@ + verb + "; use search for queries"@)
        },
    }
}

/// The command of a request: its first word, or the state.
pub open spec fn verb_of(words: Seq<String>) -> Seq<char> {
    if words.len() > 0 {
        words[0]@
    } else {
        "status"@
    }
}

/// What the command of a request does in a workspace.
pub fn local(words: &Vec<String>) -> (result: Result<LocalAction, Failure>)
    ensures
        match local_fault(verb_of(words@), words.len() as int) {
            Some(fault) => result is Err && text::plain(result->Err_0, fault),
            None => result is Ok && Some(result->Ok_0) == local_action(verb_of(words@)),
        },
{
    let verb = if words.len() > 0 {
        words[0].as_str()
    } else {
        "status"
    };
    match find_action(verb) {
        Some(action) => {
            if action == LocalAction::More && words.len() < 2 {
                return Err(Failure::new("usage: more SET@OFFSET"));
            }
            Ok(action)
        },
        None => {
            if text::same_text(verb, "serve") || text::same_text(verb, "history-serve")
                || text::same_text(verb, "workspace-serve") {
                return Err(Failure::new("invalid_command: internal server command"));
            }
            let mut message = "invalid_command: unknown command ".to_owned();
            message.append(verb);
            message.append("; use search for queries");
            Err(Failure::of(message))
        },
    }
}

/// Whether a workspace is inspected with the state of its members, or only shown.
pub fn inspect_command(words: &Vec<String>) -> (result: Result<bool, Failure>)
    ensures
        ({
            let command = if words.len() > 1 {
                words@[1]@
            } else {
                "show"@
            };
            if command == "status"@ {
                result == Ok::<bool, Failure>(true)
            } else if command == "show"@ {
                result == Ok::<bool, Failure>(false)
            } else {
                result is Err && text::plain(
                    result->Err_0,
                    "usage: ws show | ws status | ws discover PATH..."@,
                )
            }
        }),
{
    let command = if words.len() > 1 {
        words[1].as_str()
    } else {
        "show"
    };
    if text::same_text(command, "status") {
        Ok(true)
    } else if text::same_text(command, "show") {
        Ok(false)
    } else {
        Err(Failure::new("usage: ws show | ws status | ws discover PATH..."))
    }
}

/// Whether the index of a member is opened while a workspace is inspected: only where its state
/// is asked for, it is still what it was configured as, and it has an index.
pub fn inspects_index(with_state: bool, identity_holds: bool, has_index: bool) -> (yes: bool)
    ensures
        yes == (with_state && identity_holds && has_index),
{
    with_state && identity_holds && has_index
}

/// What is known of a path that is proposed as a member.
#[derive(Debug)]
pub struct DiscoveredRoot {
    pub is_directory: bool,
    pub name: Option<String>,
    pub name_is_valid: bool,
    pub path: Option<String>,
}

/// Why a path cannot be a member beside others.
pub open spec fn discovery_fault(
    root: DiscoveredRoot,
    members: Seq<ProposedMember>,
) -> Option<Seq<char>> {
    if !root.is_directory {
        Some("invalid_workspace: member must be a directory"@)
    } else if root.name is None {
        Some("invalid_workspace: choose a member name explicitly"@)
    } else if !root.name_is_valid || taken(members, root.name->0@) {
        Some(
            "invalid_workspace: member name is invalid or duplicated; write named members explicitly"@,
        )
    } else if root.path is None {
        Some("invalid_workspace: config path is not UTF-8"@)
    } else {
        None
    }
}

/// Whether a name is taken.
pub open spec fn taken(members: Seq<ProposedMember>, name: Seq<char>) -> bool {
    exists|i: int| 0 <= i < members.len() && (#[trigger] members[i]).name@ == name
}

fn is_taken(members: &Vec<ProposedMember>, name: &str) -> (yes: bool)
    ensures
        yes == taken(members@, name@),
{
    let mut i: usize = 0;
    while i < members.len()
        invariant
            i <= members.len(),
            forall|k: int| 0 <= k < i ==> (#[trigger] members@[k]).name@ != name@,
        decreases members.len() - i,
    {
        if text::same_text(members[i].name.as_str(), name) {
            return true;
        }
        i += 1;
    }
    false
}

/// Whether `members` are those that paths propose, one for each, with different names.
pub open spec fn proposes(
    found: Seq<Result<DiscoveredRoot, Failure>>,
    members: Seq<ProposedMember>,
) -> bool {
    &&& members.len() == found.len()
    &&& proposal::names_differ(members)
    &&& forall|i: int|
        0 <= i < found.len() ==> {
            &&& (#[trigger] found[i]) is Ok
            &&& discovery_fault(found[i]->Ok_0, members.take(i)) is None
            &&& members[i].name@ == found[i]->Ok_0.name->0@
            &&& members[i].path@ == found[i]->Ok_0.path->0@
        }
}

/// Whether a path is the first that cannot be a member, and `failure` says why.
pub open spec fn refuses(
    found: Seq<Result<DiscoveredRoot, Failure>>,
    at: int,
    failure: Failure,
) -> bool {
    &&& 0 <= at < found.len()
    &&& exists|members: Seq<ProposedMember>| #[trigger]
        proposes(found.take(at), members) && match found[at] {
            Err(given) => failure == given,
            Ok(root) => discovery_fault(root, members) matches Some(fault) && text::plain(
                failure,
                fault,
            ),
        }
}

/// Whether a path cannot be a member, and `failure` says why.
pub open spec fn refused(found: Seq<Result<DiscoveredRoot, Failure>>, failure: Failure) -> bool {
    exists|at: int| #[trigger] refuses(found, at, failure)
}

/// Whether `result` is the configuration that some paths propose.
pub open spec fn discovered(
    found: Seq<Result<DiscoveredRoot, Failure>>,
    result: Result<String, Failure>,
) -> bool {
    if found.len() == 0 {
        result is Err && text::plain(result->Err_0, "usage: ws discover PATH..."@)
    } else if found.len() > MAX_MEMBERS {
        result is Err && text::plain(result->Err_0, "invalid_workspace: maximum 32 members"@)
    } else {
        ||| exists|members: Seq<ProposedMember>| #[trigger]
            proposes(found, members) && match proposal::toml_rendered(
                proposal::proposal(members),
            ) {
                Ok(text) => result is Ok && result->Ok_0@ == text,
                Err(message) => result is Err && text::plain(result->Err_0, message),
            }
        ||| result is Err && refused(found, result->Err_0)
    }
}

/// The configuration that some paths propose; nothing is written anywhere.
pub fn discover_paths(found: Vec<Result<DiscoveredRoot, Failure>>) -> (result: Result<
    String,
    Failure,
>)
    ensures
        discovered(found@, result),
{
    if found.len() == 0 {
        return Err(Failure::new("usage: ws discover PATH..."));
    }
    if found.len() > MAX_MEMBERS {
        return Err(Failure::new("invalid_workspace: maximum 32 members"));
    }
    let ghost all = found@;
    let mut members: Vec<ProposedMember> = Vec::new();
    let mut i: usize = 0;
    for entry in it: found
        invariant
            i == it.index(),
            it.seq() == all,
            all == found@,
            i <= all.len(),
            0 < all.len() <= MAX_MEMBERS,
            proposes(all.take(i as int), members@),
    {
        let ghost before = members@;
        assert(entry == all[i as int]);
        let root = match entry {
            Ok(root) => root,
            Err(failure) => {
                assert(refuses(all, i as int, failure)) by {
                    assert(proposes(all.take(i as int), before));
                }
                assert(refused(all, failure));
                return Err(failure);
            },
        };
        let fault = if !root.is_directory {
            Some("invalid_workspace: member must be a directory")
        } else {
            match &root.name {
                None => Some("invalid_workspace: choose a member name explicitly"),
                Some(name) => {
                    if !root.name_is_valid || is_taken(&members, name.as_str()) {
                        Some(
                            "invalid_workspace: member name is invalid or duplicated; write named members explicitly",
                        )
                    } else if root.path.is_none() {
                        Some("invalid_workspace: config path is not UTF-8")
                    } else {
                        None
                    }
                },
            }
        };
        match fault {
            Some(fault) => {
                let failure = Failure::new(fault);
                assert(refuses(all, i as int, failure)) by {
                    assert(proposes(all.take(i as int), before));
                }
                assert(refused(all, failure));
                return Err(failure);
            },
            None => {},
        }
        match (root.name, root.path) {
            (Some(name), Some(path)) => {
                members.push(ProposedMember { name, path });
                proof {
                    lemma_proposed(all, i as int, before, members@[i as int]);
                    assert(members@ =~= before.push(members@[i as int]));
                }
            },
            _ => {
                assert(false);
            },
        }
        i += 1;
    }
    assert(all.take(i as int) =~= all);
    let ghost proposed = members@;
    assert(proposes(all, proposed));
    proposal::propose(members)
}

proof fn lemma_proposed(
    found: Seq<Result<DiscoveredRoot, Failure>>,
    at: int,
    members: Seq<ProposedMember>,
    member: ProposedMember,
)
    requires
        0 <= at < found.len(),
        proposes(found.take(at), members),
        found[at] is Ok,
        discovery_fault(found[at]->Ok_0, members) is None,
        member.name@ == found[at]->Ok_0.name->0@,
        member.path@ == found[at]->Ok_0.path->0@,
    ensures
        proposes(found.take(at + 1), members.push(member)),
{
    let more = members.push(member);
    let longer = found.take(at + 1);
    let shorter = found.take(at);
    assert forall|i: int, j: int| 0 <= i < j < more.len() implies (#[trigger] more[i]).name@ != (
    #[trigger] more[j]).name@ by {
        if j == at {
            assert(more[i] == members[i]);
            if members[i].name@ == member.name@ {
                assert(taken(members, member.name@));
            }
        } else {
            assert(more[i] == members[i] && more[j] == members[j]);
        }
    }
    assert forall|i: int| 0 <= i < longer.len() implies {
        &&& (#[trigger] longer[i]) is Ok
        &&& discovery_fault(longer[i]->Ok_0, more.take(i)) is None
        &&& more[i].name@ == longer[i]->Ok_0.name->0@
        &&& more[i].path@ == longer[i]->Ok_0.path->0@
    } by {
        if i < at {
            assert(shorter[i] == longer[i]);
            assert(more.take(i) =~= members.take(i));
        } else {
            assert(more.take(i) =~= members);
        }
    }
}

} // verus!
