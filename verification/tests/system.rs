use trufflepig::system::sweep::{
    lock_step, modified_within, sweep_entry, was_stopped, CacheSurvey, Changed, LockStep,
    SWEEP_GRACE,
};
use trufflepig::system::{
    dir_from, ensure_step, forward_step, request, root_daemon_args, route, serve, spool_dir_from,
    stop, Route, StartStep,
};
use trufflepig::text::Failure;
use trufflepig::workspace::proposal::{propose, ProposedMember};
use trufflepig::workspace::{
    cache_path, check_cache_base, diagnostic_owner, discover_paths, inspect_command,
    inspects_index, local, member_cache, selected_member, DiagnosticOwner, DiscoveredRoot,
    LocalAction, CACHE_NAME, MAX_MEMBERS,
};

fn lookup<'a>(pairs: &'a [(&'a str, &'a str)]) -> impl Fn(&str) -> Option<Vec<u8>> + 'a {
    move |name| {
        pairs.iter().find(|(key, _)| *key == name).map(|(_, value)| value.as_bytes().to_vec())
    }
}

#[test]
fn system_dir_override_wins() {
    let dir = dir_from(lookup(&[
        ("TRUFFLEPIG_SYSTEM_DIR", "/override"),
        ("XDG_RUNTIME_DIR", "/run/user"),
        ("XDG_CACHE_HOME", "/xdg-cache"),
        ("HOME", "/home"),
    ]));
    assert_eq!(dir, Some(b"/override".to_vec()));
}

#[test]
fn runtime_dir_beats_cache_and_home() {
    let dir = dir_from(lookup(&[
        ("XDG_RUNTIME_DIR", "/run/user"),
        ("XDG_CACHE_HOME", "/xdg-cache"),
        ("HOME", "/home"),
    ]));
    assert_eq!(dir, Some(b"/run/user/trufflepig/system".to_vec()));
}

#[test]
fn cache_home_beats_home() {
    let dir = dir_from(lookup(&[("XDG_CACHE_HOME", "/xdg-cache"), ("HOME", "/home")]));
    assert_eq!(dir, Some(b"/xdg-cache/trufflepig/system".to_vec()));
}

#[test]
fn home_falls_back_to_dot_cache() {
    let dir = dir_from(lookup(&[("HOME", "/home")]));
    assert_eq!(dir, Some(b"/home/.cache/trufflepig/system".to_vec()));
}

#[test]
fn no_base_directory_yields_none() {
    assert_eq!(dir_from(lookup(&[])), None);
}

#[test]
fn spool_dir_override_wins() {
    let dir = spool_dir_from(lookup(&[("TRUFFLEPIG_SPOOL_DIR", "/override")]), 1000);
    assert_eq!(dir, b"/override".to_vec());
}

#[test]
fn spool_dir_defaults_to_per_user_tmp() {
    let dir = spool_dir_from(lookup(&[("XDG_RUNTIME_DIR", "/run/user")]), 1000);
    assert_eq!(dir, b"/tmp/trufflepig-1000/spool".to_vec());
}

#[test]
fn the_router_needs_a_directory() {
    assert_eq!(stop(Some(b"/d".to_vec()), |_| Ok("stopped".into())).unwrap(), "stopped");
    assert!(stop(None, |_| Ok("stopped".into())).is_err());
    assert_eq!(request(None, |_| Ok(Some("x".into()))).unwrap(), None);
    assert!(serve(None, |_| Ok(())).is_err());
    assert!(serve(Some(b"/d".to_vec()), |dir| {
        assert_eq!(dir, b"/d");
        Ok(())
    })
    .is_ok());
}

#[test]
fn starting_waits_until_its_deadline() {
    let up = || Ok(Some("up".to_string()));
    let silent = || Ok(None);
    let broken = || Err(Failure::new("broken"));
    let runs = || Ok(false);
    let over = || Ok(true);
    assert!(matches!(ensure_step(2, 3, up), StartStep::Done(reply) if reply == "up"));
    assert!(matches!(ensure_step(2, 3, silent), StartStep::Wait));
    assert!(matches!(ensure_step(2, 3, broken), StartStep::Fail(failure) if failure.message == "broken"));
    assert!(matches!(
        ensure_step(3, 3, || panic!("not asked")),
        StartStep::Fail(failure) if failure.message == "system_unavailable: daemon did not start"
    ));
    assert!(matches!(forward_step(2, 3, up, || panic!("not looked at")), StartStep::Done(_)));
    assert!(matches!(forward_step(2, 3, silent, runs), StartStep::Wait));
    assert!(matches!(
        forward_step(2, 3, silent, over),
        StartStep::Fail(failure) if failure.message == "daemon_unavailable: target did not start"
    ));
    assert!(matches!(
        forward_step(3, 3, || panic!("not asked"), runs),
        StartStep::Fail(failure) if failure.message == "daemon_unavailable: target did not start"
    ));
}

#[test]
fn requests_are_routed_by_their_verb() {
    assert!(matches!(route(Some("stop"), b"/c", Some(b"/r")).unwrap(), Route::Stop));
    assert!(route(Some("stop"), b"/c", Some(b"/c")).is_err());
    assert!(route(Some("stop"), b"/", Some(b"//")).is_err());
    assert!(route(Some("stop"), b"/run/system", Some(b"/run/./system/")).is_err());
    assert!(matches!(route(Some("stop"), b"a", Some(b"./a")), Ok(Route::Stop)));
    assert!(matches!(route(Some("search"), b"/c", None), Ok(Route::Ask)));
    let arguments = root_daemon_args(Some(b"/h"), "off", b"/root", b"/cache");
    assert!(arguments.contains(&b"/root".to_vec()) && arguments.contains(&b"/cache".to_vec()));
    assert!(arguments.contains(&b"/h".to_vec()));
    assert!(!root_daemon_args(None, "off", b"/root", b"/cache").contains(&b"/h".to_vec()));
}

const NOW: u64 = 10 * SWEEP_GRACE;

fn old_cache(recorded: &str) -> CacheSurvey {
    let aged = Some(Changed { modified: Some(NOW - 2 * SWEEP_GRACE) });
    CacheSurvey {
        directory: aged,
        index: aged,
        recorded_root: Some(recorded.into()),
        root_is_directory: false,
        parent_is_directory: true,
    }
}

#[test]
fn sweep_evicts_vanished_root_and_keeps_live_root() {
    let live = CacheSurvey { root_is_directory: true, ..old_cache("/roots/live") };
    assert_eq!(sweep_entry(&live, NOW, SWEEP_GRACE), None);
    let gone = old_cache("/roots/gone");
    assert_eq!(sweep_entry(&gone, NOW, SWEEP_GRACE), Some(b"/roots/gone".to_vec()));
}

#[test]
fn sweep_respects_grace_period() {
    let mut gone = old_cache("/roots/gone");
    gone.index = Some(Changed { modified: Some(NOW) });
    assert_eq!(sweep_entry(&gone, NOW, SWEEP_GRACE), None);
    gone.index = Some(Changed { modified: Some(NOW - 2 * SWEEP_GRACE) });
    gone.directory = Some(Changed { modified: Some(NOW) });
    assert_eq!(sweep_entry(&gone, NOW, SWEEP_GRACE), None);
    assert!(modified_within(Changed { modified: Some(NOW) }, NOW, SWEEP_GRACE));
}

#[test]
fn sweep_ignores_dirs_without_index() {
    let mut survey = old_cache("/roots/gone");
    survey.index = None;
    assert_eq!(sweep_entry(&survey, NOW, SWEEP_GRACE), None);
    let mut survey = old_cache("/roots/gone");
    survey.recorded_root = None;
    assert_eq!(sweep_entry(&survey, NOW, SWEEP_GRACE), None);
}

#[test]
fn sweep_skips_root_whose_parent_is_missing() {
    let survey = CacheSurvey { parent_is_directory: false, ..old_cache("/roots/gone") };
    assert_eq!(sweep_entry(&survey, NOW, SWEEP_GRACE), None);
}

#[test]
fn sweeping_defers_to_daemons_that_hold_the_lock() {
    assert!(matches!(lock_step(true, 9, 5), LockStep::Taken));
    assert!(matches!(lock_step(false, 4, 5), LockStep::Wait));
    assert!(matches!(lock_step(false, 5, 5), LockStep::Defer));
    assert!(!was_stopped(false, None));
}

fn words(list: &[&str]) -> Vec<String> {
    list.iter().map(|word| word.to_string()).collect()
}

#[test]
fn caches_stay_out_of_the_roots() {
    let roots = vec![b"/w/a".to_vec(), b"/w/b".to_vec()];
    assert!(check_cache_base(b"/cache", &roots).is_ok());
    assert!(check_cache_base(b"/w/a/cache", &roots).is_err());
    let default = || Ok(b"/default".to_vec());
    let id = "0123456789abcdef0123456789abcdef";
    let derived = cache_path(id, Some(b"/explicit"), default).unwrap();
    assert_eq!(derived, [b"/explicit/workspace/", &id.as_bytes()[..CACHE_NAME]].concat());
    let beside = cache_path(id, None, || Ok(b"/caches/root".to_vec())).unwrap();
    assert_eq!(beside, [b"/caches/workspaces/", &id.as_bytes()[..CACHE_NAME]].concat());
    assert!(cache_path(id, None, || Err(Failure::new("none"))).is_err());
    let worktree = || Ok(b"/worktree".to_vec());
    let own = member_cache(b"/w/a", true, None, default, worktree).unwrap();
    assert_eq!(own, b"/worktree");
    assert_ne!(member_cache(b"/w/a", false, None, default, worktree).unwrap(), b"/worktree");
}

#[test]
fn members_are_selected_by_name_or_place() {
    let names = words(&["a", "b"]);
    assert_eq!(selected_member(&names, Some("b"), None).unwrap(), 1);
    assert_eq!(selected_member(&names, None, Some(0)).unwrap(), 0);
    assert!(selected_member(&names, None, None).is_err());
    assert!(selected_member(&names, Some("c"), None).is_err());
    let owner = diagnostic_owner(Some("show"), &names, Some("b"), None).unwrap();
    assert!(matches!(owner, DiagnosticOwner::Member(1)));
}

#[test]
fn commands_are_read_by_their_words() {
    assert!(matches!(local(&words(&["show", "x"])), Ok(LocalAction::Show)));
    assert!(matches!(local(&words(&["more", "x"])), Ok(LocalAction::More)));
    assert!(matches!(local(&words(&["semantic", "status"])), Ok(LocalAction::Semantic)));
    assert!(inspect_command(&words(&["inspect", "nonsense"])).is_err());
    assert!(inspects_index(true, true, true));
    assert!(!inspects_index(true, true, false));
}

fn found(name: &str, path: &str) -> Result<DiscoveredRoot, Failure> {
    Ok(DiscoveredRoot {
        is_directory: true,
        name: Some(name.into()),
        name_is_valid: true,
        path: Some(path.into()),
    })
}

#[test]
fn discovered_roots_become_a_proposal() {
    let proposal = discover_paths(vec![found("a", "/w/a"), found("b", "/w/b")]).unwrap();
    assert!(proposal.contains("path = \"/w/a\""), "{proposal}");
    assert!(proposal.contains("path = \"/w/b\""), "{proposal}");
    assert!(discover_paths(vec![Err(Failure::new("unreadable"))]).is_err());
    let many = (0..MAX_MEMBERS + 1).map(|i| found(&format!("m{i}"), &format!("/w/{i}")));
    assert!(discover_paths(many.collect()).is_err());
    let quoted = propose(vec![ProposedMember { name: "a".into(), path: "/w/\"a".into() }]).unwrap();
    assert!(quoted.contains("/w/") && !quoted.contains("\"/w/\"a\""), "{quoted}");
}
