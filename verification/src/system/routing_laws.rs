//! What holds of where the router is, and of what it does with requests.

use crate::path_laws;
use crate::paths;
use crate::store::paths as store_paths;
use crate::system;
use crate::system::sweep;
use crate::system::sweep::CacheSurvey;
use crate::system::Route;
use crate::text;
use crate::text::Failure;
use crate::text_laws;
use vstd::prelude::*;
use vstd::utf8;

verus! {

/// A path below another one, by two names.
pub open spec fn below_by(base: Seq<u8>, first: Seq<char>, second: Seq<char>) -> Seq<u8> {
    path_laws::on_to(
        path_laws::on_to(base, utf8::encode_utf8(first)),
        utf8::encode_utf8(second),
    )
}

/// Whether a path may be continued: it is not empty, and does not end with a slash.
pub open spec fn goes_on(path: Seq<u8>) -> bool {
    path.len() > 0 && path.last() != 47
}

/// A name that is no path of its own.
pub proof fn lemma_plain_name(name: Seq<char>)
    requires
        utf8::is_ascii_chars(name),
        name.len() > 0,
        name[0] != '/',
        name.last() != '/',
    ensures
        utf8::encode_utf8(name).len() > 0,
        utf8::encode_utf8(name)[0] != 47,
        utf8::encode_utf8(name).last() != 47,
{
    utf8::is_ascii_chars_encode_utf8(name);
    let bytes = utf8::encode_utf8(name);
    assert(bytes.len() == name.len());
    assert(bytes[0] == name[0] as u8);
    assert(bytes[bytes.len() - 1] == name[name.len() - 1] as u8);
}

proof fn lemma_below(base: Seq<u8>, first: Seq<char>, second: Seq<char>)
    requires
        goes_on(base),
        utf8::is_ascii_chars(first),
        utf8::is_ascii_chars(second),
        first.len() > 0,
        second.len() > 0,
        first[0] != '/',
        first.last() != '/',
        second[0] != '/',
        second.last() != '/',
    ensures
        system::two_below(base, first, second) == below_by(base, first, second),
{
    lemma_plain_name(first);
    lemma_plain_name(second);
    let one = utf8::encode_utf8(first);
    let inner = paths::joined(base, one);
    assert(inner =~= path_laws::on_to(base, one));
    assert(inner.last() == one.last());
    assert(system::two_below(base, first, second) =~= below_by(base, first, second));
}

/// The router is where it is set to be; else in `trufflepig/system` below the runtime directory,
/// or else below that of caches, or else below `.cache` of the home directory: the first of these
/// that is set. Without any it has no place.
pub proof fn law_routers_are_in_the_first_place_that_is_set(
    set: Seq<u8>,
    runtime: Option<Seq<u8>>,
    cache: Option<Seq<u8>>,
    home: Option<Seq<u8>>,
)
    ensures
        system::router_dir(Some(set), runtime, cache, home) == Some(set),
        goes_on(set) ==> system::router_dir(None, Some(set), cache, home) == Some(
            below_by(set, "trufflepig"@, "system"@),
        ),
        goes_on(set) ==> system::router_dir(None, None, Some(set), home) == Some(
            below_by(set, "trufflepig"@, "system"@),
        ),
        goes_on(set) ==> system::router_dir(None, None, None, Some(set)) == Some(
            below_by(
                path_laws::on_to(set, utf8::encode_utf8(".cache"@)),
                "trufflepig"@,
                "system"@,
            ),
        ),
        system::router_dir(None, None, None, None) is None,
{
    reveal_strlit("trufflepig");
    reveal_strlit("system");
    reveal_strlit(".cache");
    if goes_on(set) {
        lemma_below(set, "trufflepig"@, "system"@);
        lemma_plain_name(".cache"@);
        let inner = paths::joined(set, utf8::encode_utf8(".cache"@));
        assert(inner =~= path_laws::on_to(set, utf8::encode_utf8(".cache"@)));
        assert(inner.last() == utf8::encode_utf8(".cache"@).last());
        lemma_below(inner, "trufflepig"@, "system"@);
    }
}

/// Users have different directories for spooled files, unless these are set.
pub proof fn law_users_do_not_share_spooled_files(a: u32, b: u32, set: Seq<u8>)
    ensures
        a != b ==> system::spool_dir(None, a) != system::spool_dir(None, b),
        system::spool_dir(Some(set), a) == set,
{
    let front = "/tmp/trufflepig-"@;
    let back = "/spool"@;
    let first = front + text::decimal(a as nat) + back;
    let second = front + text::decimal(b as nat) + back;
    if a != b && system::spool_dir(None, a) == system::spool_dir(None, b) {
        utf8::encode_utf8_decode_utf8(first);
        utf8::encode_utf8_decode_utf8(second);
        assert(first == second);
        assert(first.len() == second.len());
        let n = text::decimal(a as nat).len() as int;
        assert(first.subrange(front.len() as int, front.len() + n) =~= text::decimal(a as nat));
        assert(second.subrange(front.len() as int, front.len() + n) =~= text::decimal(b as nat));
        text_laws::law_unsigned_numbers_are_read_back(a as nat, u32::MAX as nat);
        text_laws::law_unsigned_numbers_are_read_back(b as nat, u32::MAX as nat);
    }
}

/// Whether an argument stands in a list, with a value behind it.
pub open spec fn is_given(list: Seq<Seq<u8>>, name: Seq<char>, value: Seq<u8>) -> bool {
    exists|i: int|
        0 <= i && i + 1 < list.len() && #[trigger] list[i] == utf8::encode_utf8(name) && list[i
            + 1] == value
}

/// The daemon of a root is started to serve that root with its cache, with the diagnostics that
/// were asked for, without a workspace, and with the cache for history where there is one.
pub proof fn law_daemons_are_started_for_their_root(
    history: Option<Seq<u8>>,
    diagnostics: Seq<char>,
    root: Seq<u8>,
    cache: Seq<u8>,
)
    ensures
        ({
            let list = system::root_daemon(history, diagnostics, root, cache);
            &&& is_given(list, "--root"@, root)
            &&& is_given(list, "--cache"@, cache)
            &&& is_given(list, "--diagnostics"@, utf8::encode_utf8(diagnostics))
            &&& list.contains(utf8::encode_utf8("--no-workspace"@))
            &&& list.last() == utf8::encode_utf8("serve"@)
            &&& history matches Some(history) ==> is_given(
                list,
                "--resolved-history-cache"@,
                history,
            )
        }),
{
    let list = system::root_daemon(history, diagnostics, root, cache);
    let n = list.len() - 8;
    assert(list[n] == utf8::encode_utf8("--no-workspace"@));
    assert(list[n + 1] == utf8::encode_utf8("--diagnostics"@));
    assert(list[n + 3] == utf8::encode_utf8("--root"@));
    assert(list[n + 5] == utf8::encode_utf8("--cache"@));
    assert(list[n + 1 + 1] == utf8::encode_utf8(diagnostics));
    assert(list[n + 3 + 1] == root);
    assert(list[n + 5 + 1] == cache);
    if history is Some {
        assert(list[0] == utf8::encode_utf8("--resolved-history-cache"@));
        assert(list[1] == history->0);
    }
}

/// The router answers for itself, never stops itself, stops any other daemon where that is asked
/// for, and asks the daemon for all else.
pub proof fn law_requests_go_where_they_belong(
    verb: Option<Seq<char>>,
    cache: Seq<u8>,
    router: Option<Seq<u8>>,
    result: Result<Route, Failure>,
)
    requires
        system::routed(verb, cache, router, result),
    ensures
        result is Ok && result->Ok_0 is Stop <==> verb == Some("stop"@) && !(router is Some
            && paths::components(router->0) == paths::components(cache)),
        result is Ok && result->Ok_0 is Ask <==> verb != Some("stop"@) && verb != Some(
            "system"@,
        ),
        verb == Some("system"@) ==> result is Ok && result->Ok_0 is Answer,
        result is Err ==> verb == Some("stop"@),
{
    reveal_strlit("stop");
    reveal_strlit("system");
    assert("stop"@.len() != "system"@.len());
}

/// A cache is evicted where it has an index, neither was changed for the time of grace, and its
/// root is gone while what that was in is there.
pub proof fn law_vanished_roots_are_swept(
    survey: CacheSurvey,
    now: u64,
    grace: u64,
    changed: u64,
    written: u64,
    root: Seq<u8>,
)
    requires
        survey.directory matches Some(directory) && directory.modified == Some(changed),
        survey.index matches Some(index) && index.modified == Some(written),
        changed + grace <= now,
        written + grace <= now,
        survey.recorded_root matches Some(recorded) && store_paths::path_of(
            utf8::encode_utf8(recorded@),
        ) == Ok::<Seq<u8>, Seq<char>>(root),
        !survey.root_is_directory,
        survey.parent_is_directory,
    ensures
        sweep::vanished(survey, now, grace) == Some(root),
{
}

} // verus!
