//! The router of one user, which hands requests to the daemon that owns a workspace or a root.
//!
//! Times are nanoseconds on a clock that never goes back.

pub mod routing_laws;
pub mod sweep;

use crate::paths;
use crate::text;
use crate::text::Failure;
use vstd::prelude::*;
use vstd::string::StringExecFns;
use vstd::utf8;

verus! {

/// How long a daemon may take to start.
pub const START_DEADLINE: u64 = 3_000_000_000;

/// How long to wait before a daemon that is starting is asked again.
pub const START_POLL: u64 = 25_000_000;

/// A path below a base, by two names.
pub open spec fn two_below(base: Seq<u8>, first: Seq<char>, second: Seq<char>) -> Seq<u8> {
    paths::joined(
        paths::joined(base, utf8::encode_utf8(first)),
        utf8::encode_utf8(second),
    )
}

/// What a variable is set to, as it is seen.
pub open spec fn value_of(value: Option<Vec<u8>>) -> Option<Seq<u8>> {
    match value {
        Some(value) => Some(value@),
        None => None,
    }
}

/// The directory of the router: the one that is set, else one below the runtime directory, else
/// below the cache directory, else below that of the home directory.
pub open spec fn router_dir(
    system: Option<Seq<u8>>,
    runtime: Option<Seq<u8>>,
    cache: Option<Seq<u8>>,
    home: Option<Seq<u8>>,
) -> Option<Seq<u8>> {
    match (system, runtime, cache, home) {
        (Some(system), _, _, _) => Some(system),
        (None, Some(runtime), _, _) => Some(two_below(runtime, "trufflepig"@, "system"@)),
        (None, None, Some(cache), _) => Some(two_below(cache, "trufflepig"@, "system"@)),
        (None, None, None, Some(home)) => Some(
            two_below(
                paths::joined(home, utf8::encode_utf8(".cache"@)),
                "trufflepig"@,
                "system"@,
            ),
        ),
        _ => None,
    }
}

fn join_two(base: &[u8], first: &str, second: &str) -> (path: Vec<u8>)
    ensures
        path@ == two_below(base@, first@, second@),
{
    let inner = paths::join(base, first.as_bytes());
    paths::join(inner.as_slice(), second.as_bytes())
}

/// Whether a variable of the environment may be unset.
pub open spec fn may_lack<F: Fn(&str) -> Option<Vec<u8>>>(get: F, name: &str) -> bool {
    call_ensures(get, (name,), None::<Vec<u8>>)
}

/// The directory of the router, where `get` gives the variables of the environment. Each is read
/// only where those before it are unset.
pub fn dir_from<F: Fn(&str) -> Option<Vec<u8>>>(get: F) -> (dir: Option<Vec<u8>>)
    requires
        call_requires(get, ("TRUFFLEPIG_SYSTEM_DIR",)),
        may_lack(get, "TRUFFLEPIG_SYSTEM_DIR") ==> call_requires(get, ("XDG_RUNTIME_DIR",)),
        may_lack(get, "TRUFFLEPIG_SYSTEM_DIR") && may_lack(get, "XDG_RUNTIME_DIR")
            ==> call_requires(get, ("XDG_CACHE_HOME",)),
        may_lack(get, "TRUFFLEPIG_SYSTEM_DIR") && may_lack(get, "XDG_RUNTIME_DIR") && may_lack(
            get,
            "XDG_CACHE_HOME",
        ) ==> call_requires(get, ("HOME",)),
    ensures
        exists|
            system: Option<Vec<u8>>,
            runtime: Option<Vec<u8>>,
            cache: Option<Vec<u8>>,
            home: Option<Vec<u8>>,
        |
            {
                &&& #[trigger] call_ensures(get, ("TRUFFLEPIG_SYSTEM_DIR",), system)
                &&& system is None ==> call_ensures(get, ("XDG_RUNTIME_DIR",), runtime)
                &&& system is None && runtime is None ==> call_ensures(
                    get,
                    ("XDG_CACHE_HOME",),
                    cache,
                )
                &&& system is None && runtime is None && cache is None ==> call_ensures(
                    get,
                    ("HOME",),
                    home,
                )
                &&& value_of(dir) == #[trigger] router_dir(
                    value_of(system),
                    value_of(runtime),
                    value_of(cache),
                    value_of(home),
                )
            },
{
    let ghost unset = None::<Vec<u8>>;
    let system = get("TRUFFLEPIG_SYSTEM_DIR");
    assert(call_ensures(get, ("TRUFFLEPIG_SYSTEM_DIR",), system));
    if let Some(dir) = &system {
        assert(value_of(system) == router_dir(
            value_of(system),
            value_of(unset),
            value_of(unset),
            value_of(unset),
        ));
        return Some(dir.clone());
    }
    let runtime = get("XDG_RUNTIME_DIR");
    if let Some(base) = &runtime {
        let dir = Some(join_two(base.as_slice(), "trufflepig", "system"));
        assert(value_of(dir) == router_dir(
            value_of(system),
            value_of(runtime),
            value_of(unset),
            value_of(unset),
        ));
        return dir;
    }
    let cache = get("XDG_CACHE_HOME");
    if let Some(base) = &cache {
        let dir = Some(join_two(base.as_slice(), "trufflepig", "system"));
        assert(value_of(dir) == router_dir(
            value_of(system),
            value_of(runtime),
            value_of(cache),
            value_of(unset),
        ));
        return dir;
    }
    let home = get("HOME");
    let dir = match &home {
        Some(home) => {
            let base = paths::join(home.as_slice(), ".cache".as_bytes());
            Some(join_two(base.as_slice(), "trufflepig", "system"))
        },
        None => None,
    };
    assert(value_of(dir) == router_dir(
        value_of(system),
        value_of(runtime),
        value_of(cache),
        value_of(home),
    ));
    dir
}

/// The directory for spooled files of a user.
pub open spec fn spool_dir(spool: Option<Seq<u8>>, uid: u32) -> Seq<u8> {
    match spool {
        Some(spool) => spool,
        None => utf8::encode_utf8(
            "/tmp/trufflepig-"@ + text::decimal(uid as nat) + "/spool"@,
        ),
    }
}

/// The directory for spooled files of a user, where `get` gives the variables of the
/// environment.
pub fn spool_dir_from<F: Fn(&str) -> Option<Vec<u8>>>(get: F, uid: u32) -> (dir: Vec<u8>)
    requires
        call_requires(get, ("TRUFFLEPIG_SPOOL_DIR",)),
    ensures
        exists|spool: Option<Vec<u8>>| #[trigger]
            call_ensures(get, ("TRUFFLEPIG_SPOOL_DIR",), spool) && dir@ == spool_dir(
                value_of(spool),
                uid,
            ),
{
    let spool = get("TRUFFLEPIG_SPOOL_DIR");
    assert(call_ensures(get, ("TRUFFLEPIG_SPOOL_DIR",), spool));
    match &spool {
        Some(dir) => dir.clone(),
        None => {
            let mut dir = "/tmp/trufflepig-".to_owned();
            dir.append(text::decimal_text(uid as u64).as_str());
            dir.append("/spool");
            vstd::slice::slice_to_vec(dir.as_str().as_bytes())
        },
    }
}

/// What is said where the router has no directory.
pub open spec fn no_runtime_dir(failure: Failure) -> bool {
    text::plain(failure, "system_unavailable: no runtime dir"@)
}

/// Stops the router, if it has a directory; `halt` talks to its socket.
pub fn stop<H: FnOnce(Vec<u8>) -> Result<String, Failure>>(dir: Option<Vec<u8>>, halt: H) -> (result:
    Result<String, Failure>)
    requires
        dir matches Some(dir) ==> call_requires(halt, (dir,)),
    ensures
        match dir {
            Some(dir) => call_ensures(halt, (dir,), result),
            None => result is Err && no_runtime_dir(result->Err_0),
        },
{
    match dir {
        Some(dir) => halt(dir),
        None => Err(Failure::new("system_unavailable: no runtime dir")),
    }
}

/// Sends a request to the router; without a directory none listens.
pub fn request<A: FnOnce(Vec<u8>) -> Result<Option<String>, Failure>>(
    dir: Option<Vec<u8>>,
    ask: A,
) -> (result: Result<Option<String>, Failure>)
    requires
        dir matches Some(dir) ==> call_requires(ask, (dir,)),
    ensures
        match dir {
            Some(dir) => call_ensures(ask, (dir,), result),
            None => result == Ok::<Option<String>, Failure>(None),
        },
{
    match dir {
        Some(dir) => ask(dir),
        None => Ok(None),
    }
}

/// Runs the router, if it has a directory.
pub fn serve<S: FnOnce(Vec<u8>) -> Result<(), Failure>>(dir: Option<Vec<u8>>, run: S) -> (result: Result<
    (),
    Failure,
>)
    requires
        dir matches Some(dir) ==> call_requires(run, (dir,)),
    ensures
        match dir {
            Some(dir) => call_ensures(run, (dir,), result),
            None => result is Err && no_runtime_dir(result->Err_0),
        },
{
    match dir {
        Some(dir) => run(dir),
        None => Err(Failure::new("system_unavailable: no runtime dir")),
    }
}

/// What to do while something is starting.
#[derive(Debug)]
pub enum StartStep {
    /// It answered.
    Done(String),
    /// Wait, and ask again.
    Wait,
    /// Give up.
    Fail(Failure),
}

/// What to do while a router is starting: until the deadline is over it is asked, and `ask`
/// gives what it answers.
pub fn ensure_step<A: FnOnce() -> Result<Option<String>, Failure>>(
    now: u64,
    deadline: u64,
    ask: A,
) -> (step: StartStep)
    requires
        now < deadline ==> call_requires(ask, ()),
    ensures
        if now < deadline {
            exists|answer: Result<Option<String>, Failure>| #[trigger]
                call_ensures(ask, (), answer) && match answer {
                    Err(failure) => step == StartStep::Fail(failure),
                    Ok(Some(reply)) => step == StartStep::Done(reply),
                    Ok(None) => step is Wait,
                }
        } else {
            step matches StartStep::Fail(failure) && text::plain(
                failure,
                "system_unavailable: daemon did not start"@,
            )
        },
{
    if now >= deadline {
        return StartStep::Fail(Failure::new("system_unavailable: daemon did not start"));
    }
    match ask() {
        Err(failure) => StartStep::Fail(failure),
        Ok(Some(reply)) => StartStep::Done(reply),
        Ok(None) => StartStep::Wait,
    }
}

/// Whether `step` follows when a daemon did not answer: one that ended will not.
pub open spec fn unanswered(ended: Result<bool, Failure>, step: StartStep) -> bool {
    match ended {
        Err(failure) => step == StartStep::Fail(failure),
        Ok(true) => step matches StartStep::Fail(failure) && text::plain(
            failure,
            "daemon_unavailable: target did not start"@,
        ),
        Ok(false) => step is Wait,
    }
}

/// What to do while a daemon that was started for a request is starting: until the deadline is
/// over it is asked, and `ask` gives what it answers; where it does not, `ended` tells whether
/// it still runs.
pub fn forward_step<
    A: FnOnce() -> Result<Option<String>, Failure>,
    E: FnOnce() -> Result<bool, Failure>,
>(now: u64, deadline: u64, ask: A, ended: E) -> (step: StartStep)
    requires
        now < deadline ==> {
            &&& call_requires(ask, ())
            &&& call_ensures(ask, (), Ok::<Option<String>, Failure>(None)) ==> call_requires(
                ended,
                (),
            )
        },
    ensures
        if now < deadline {
            exists|answer: Result<Option<String>, Failure>| #[trigger]
                call_ensures(ask, (), answer) && match answer {
                    Err(failure) => step == StartStep::Fail(failure),
                    Ok(Some(reply)) => step == StartStep::Done(reply),
                    Ok(None) => exists|over: Result<bool, Failure>| #[trigger]
                        call_ensures(ended, (), over) && unanswered(over, step),
                }
        } else {
            step matches StartStep::Fail(failure) && text::plain(
                failure,
                "daemon_unavailable: target did not start"@,
            )
        },
{
    if now >= deadline {
        return StartStep::Fail(Failure::new("daemon_unavailable: target did not start"));
    }
    let answer = ask();
    let ghost given = answer;
    assert(call_ensures(ask, (), given));
    match answer {
        Err(failure) => StartStep::Fail(failure),
        Ok(Some(reply)) => StartStep::Done(reply),
        Ok(None) => match ended() {
            Err(failure) => StartStep::Fail(failure),
            Ok(over) => {
                if over {
                    StartStep::Fail(Failure::new("daemon_unavailable: target did not start"))
                } else {
                    StartStep::Wait
                }
            },
        },
    }
}

/// What the router does with a request.
#[derive(Debug)]
pub enum Route {
    /// Answer it itself.
    Answer(String),
    /// Stop the daemon that owns it.
    Stop,
    /// Ask the daemon that owns it, and start that one if it does not run.
    Ask,
}

/// Whether `result` is what the router does with a request for the daemon with a cache.
pub open spec fn routed(
    verb: Option<Seq<char>>,
    cache: Seq<u8>,
    router: Option<Seq<u8>>,
    result: Result<Route, Failure>,
) -> bool {
    if verb == Some("system"@) {
        result matches Ok(Route::Answer(reply)) && reply@ == "{\"status\":\"ok\"}"@
    } else if verb == Some("stop"@) {
        if router is Some && paths::same_components(router->0, cache) {
            result is Err && text::plain(
                result->Err_0,
                "invalid_cache: cannot stop the system router"@,
            )
        } else {
            result matches Ok(Route::Stop)
        }
    } else {
        result matches Ok(Route::Ask)
    }
}

/// What the router does with a request: `cache` is that of the daemon that owns it, and
/// `router` is its own directory, which it does not stop.
pub fn route(verb: Option<&str>, cache: &[u8], router: Option<&[u8]>) -> (result: Result<
    Route,
    Failure,
>)
    ensures
        routed(
            match verb {
                Some(verb) => Some(verb@),
                None => None,
            },
            cache@,
            match router {
                Some(router) => Some(router@),
                None => None,
            },
            result,
        ),
{
    let verb = match verb {
        Some(verb) => verb,
        None => {
            return Ok(Route::Ask);
        },
    };
    if text::same_text(verb, "system") {
        return Ok(Route::Answer("{\"status\":\"ok\"}".to_owned()));
    }
    if text::same_text(verb, "stop") {
        match router {
            Some(router) => {
                if paths::same_path(router, cache) {
                    return Err(Failure::new("invalid_cache: cannot stop the system router"));
                }
            },
            None => {},
        }
        return Ok(Route::Stop);
    }
    Ok(Route::Ask)
}

/// Arguments as they are seen.
pub open spec fn arguments(list: Seq<Vec<u8>>) -> Seq<Seq<u8>> {
    paths::byte_views(list)
}

/// The arguments that start the daemon of a root.
pub open spec fn root_daemon(
    history_cache: Option<Seq<u8>>,
    diagnostics: Seq<char>,
    root: Seq<u8>,
    cache: Seq<u8>,
) -> Seq<Seq<u8>> {
    (match history_cache {
        Some(history_cache) => seq![
            utf8::encode_utf8("--resolved-history-cache"@),
            history_cache,
        ],
        None => Seq::empty(),
    }) + seq![
        utf8::encode_utf8("--no-workspace"@),
        utf8::encode_utf8("--diagnostics"@),
        utf8::encode_utf8(diagnostics),
        utf8::encode_utf8("--root"@),
        root,
        utf8::encode_utf8("--cache"@),
        cache,
        utf8::encode_utf8("serve"@),
    ]
}

fn push_text(list: &mut Vec<Vec<u8>>, text: &str)
    ensures
        arguments(final(list)@) == arguments(old(list)@).push(utf8::encode_utf8(text@)),
{
    list.push(vstd::slice::slice_to_vec(text.as_bytes()));
    assert(arguments(list@) =~= arguments(old(list)@).push(utf8::encode_utf8(text@)));
}

fn push_bytes(list: &mut Vec<Vec<u8>>, bytes: &[u8])
    ensures
        arguments(final(list)@) == arguments(old(list)@).push(bytes@),
{
    list.push(vstd::slice::slice_to_vec(bytes));
    assert(arguments(list@) =~= arguments(old(list)@).push(bytes@));
}

/// The arguments that start the daemon of a root.
pub fn root_daemon_args(
    history_cache: Option<&[u8]>,
    diagnostics: &str,
    root: &[u8],
    cache: &[u8],
) -> (list: Vec<Vec<u8>>)
    ensures
        arguments(list@) == root_daemon(
            match history_cache {
                Some(history_cache) => Some(history_cache@),
                None => None,
            },
            diagnostics@,
            root@,
            cache@,
        ),
{
    let mut list: Vec<Vec<u8>> = Vec::new();
    match history_cache {
        Some(history_cache) => {
            push_text(&mut list, "--resolved-history-cache");
            push_bytes(&mut list, history_cache);
        },
        None => {},
    }
    push_text(&mut list, "--no-workspace");
    push_text(&mut list, "--diagnostics");
    push_text(&mut list, diagnostics);
    push_text(&mut list, "--root");
    push_bytes(&mut list, root);
    push_text(&mut list, "--cache");
    push_bytes(&mut list, cache);
    push_text(&mut list, "serve");
    assert(arguments(list@) =~= root_daemon(
        match history_cache {
            Some(history_cache) => Some(history_cache@),
            None => None,
        },
        diagnostics@,
        root@,
        cache@,
    ));
    list
}

} // verus!
