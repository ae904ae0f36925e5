use trufflepig::paths;
use trufflepig::store::json::{
    candidates_json, json_with_comments, without_comments, without_trailing_commas,
};
use trufflepig::store::module_config::{luau, rojo, typescript, FileIndex, IndexedFile};
use trufflepig::store::module_resolver::{
    resolve, resolve_occurrence, ModuleOccurrence, Resolution,
};
use trufflepig::store::paths::{decode_path, encode_path};
use trufflepig::store::publish::{
    change_kind, changed_files, observations_since, FileState, Journal, Observation, Presence,
    Publication, MAX_OBSERVATIONS, MAX_WINDOWS,
};
use trufflepig::store::regions::{region_rows, Definition, RegionRow};
use trufflepig::store::resolve::{references, NameOccurrence, NamedDefinition};
use trufflepig::store::scan::{
    cache_version, cached_extraction, grammar, occurrence_rows, read_source, relationship_rows,
    walks_to, Coverage, Extraction, Occurrence, Relationship, SourceReading, Stage, WalkEntry,
    MAX_SOURCE_BYTES,
};
use trufflepig::store::seed::{
    ensure_seeded, ensure_seeded_with_limit, seed_name, SeedOutcome, SeedSizes, SeedSurvey,
    EMBEDDINGS_NAME, INDEX_NAME,
};
use trufflepig::store::worktree_seed_source::linked_worktree_main_checkout;
use trufflepig::store::{
    is_abandoned_stage, IndexedRegion, SavedIndex, Scan, Snapshot, Store, Written,
};
use trufflepig::tables::KeyTable;
use trufflepig::text::Failure;

// Paths.

#[test]
fn paths_round_trip_literal_percent_control_and_non_utf8() {
    let path = b"space name/%0A\n\xff.rs".to_vec();
    let encoded = encode_path(&path);
    assert!(!encoded.contains('\n'));
    assert_eq!(decode_path(&encoded).unwrap(), path);
    assert!(decode_path("bad%XX").is_err());
    assert!(decode_path("nul%00").is_err());
    assert_eq!(encode_path(b"a:1-2@3"), "a%3A1-2%403");
}

#[test]
fn normal_paths_stay_inside() {
    assert_eq!(paths::normalized(b"a/./b/../c"), Some(b"a/c".to_vec()));
    assert_eq!(paths::normalized(b"../x"), None);
    assert_eq!(paths::join(b"/a", b"b"), b"/a/b");
    assert_eq!(paths::join(b"/a", b"/b"), b"/b");
    assert_eq!(paths::parent(b"/a/b"), Some(b"/a".to_vec()));
    assert_eq!(paths::parent(b"/a/b/"), Some(b"/a".to_vec()));
    assert_eq!(paths::parent(b"/a/./b/."), Some(b"/a".to_vec()));
    assert_eq!(paths::parent(b"a//b"), Some(b"a".to_vec()));
    assert_eq!(paths::parent(b"//a"), Some(b"/".to_vec()));
    assert_eq!(paths::parent(b"./a"), Some(b".".to_vec()));
    assert_eq!(paths::parent(b"."), Some(Vec::new()));
    assert_eq!(paths::parent(b"a/.."), Some(b"a".to_vec()));
    assert_eq!(paths::parent(b"/."), None);
    assert_eq!(paths::parent(b"//"), None);
    assert_eq!(paths::parent(b""), None);
    assert_eq!(paths::last_piece(b"/a/.git/./"), b".git");
    assert!(paths::starts_with(b"/a//b/c", b"/a/b/"));
    assert!(!paths::starts_with(b"/ab", b"/a"));
    assert!(!paths::starts_with(b"./a", b"a"));
    assert!(paths::starts_with(b"././a/b", b"./a"));
    assert!(paths::same_path(b"/a/./b/", b"//a/b"));
    assert!(!paths::same_path(b"./a", b"a"));
    assert!(!paths::same_path(b"/a", b"a"));
    assert_eq!(paths::with_extension(b"a/b.ts", b"js"), b"a/b.js");
    assert_eq!(paths::with_extension(b"a/b.ts/", b"js"), b"a/b.js");
    assert_eq!(paths::with_extension(b"a/.b", b"js"), b"a/.b.js");
    assert_eq!(paths::with_extension(b"a.b/c", b""), b"a.b/c");
    assert_eq!(paths::with_extension(b"a/..", b"js"), b"a/..");
    assert_eq!(paths::with_extension(b"", b"js"), b"");
    assert_eq!(paths::extension(b"a/b.ts/."), Some(b"ts".to_vec()));
    assert_eq!(paths::extension(b"a/.ts"), None);
    assert_eq!(paths::extension(b"a.b/c"), None);
}

// The index.

fn empty_index() -> SavedIndex {
    SavedIndex {
        root: None,
        index_epoch: "epoch".into(),
        generation: 0,
        coverage: Coverage::default(),
        fingerprint: None,
        publication: None,
        journal: Journal::new(),
        snapshot: Snapshot { files: Vec::new(), regions: Vec::new(), contents: KeyTable::new() },
    }
}

/// What a database holds of an index that is open.
fn saved(store: Store) -> SavedIndex {
    SavedIndex {
        root: Some(encode_path(&store.root)),
        index_epoch: store.index_epoch,
        generation: store.saved_generation,
        coverage: store.saved_coverage,
        fingerprint: store.fingerprint,
        publication: store.published,
        journal: store.journal,
        snapshot: store.snapshot,
    }
}

fn open() -> Store {
    Store::open(b"/root", true, b"/cache", empty_index()).unwrap()
}

fn extraction(language: &str) -> Extraction {
    Extraction {
        language: language.into(),
        status: "lexical".into(),
        definitions: Vec::new(),
        occurrences: Vec::new(),
        relationships: Vec::new(),
    }
}

fn read(path: &str, source: &str) -> WalkEntry {
    WalkEntry::Read {
        path: path.as_bytes().to_vec(),
        source: source.as_bytes().to_vec(),
        extraction: extraction("text"),
    }
}

fn scan(entries: &[WalkEntry]) -> Scan {
    let mut stage = Stage::new(b"lock");
    let mut staged = Snapshot { files: Vec::new(), regions: Vec::new(), contents: KeyTable::new() };
    for entry in entries {
        let Some(row) = stage.stage(entry) else { continue };
        if let (WalkEntry::Read { source, extraction, .. }, Some(revision)) =
            (entry, &row.revision)
        {
            staged.contents.insert_new(revision.clone(), source.clone());
            for region in region_rows(&row.path, source, &extraction.definitions) {
                staged.regions.push(IndexedRegion { path: row.path.clone(), region });
            }
        }
        let (path, revision, status, bytes) = (row.path, row.revision, row.status, row.bytes);
        staged.files.push(FileState { path, revision, status, bytes });
    }
    let (coverage, fingerprint) = stage.finish();
    Scan { coverage, fingerprint, staged, started_ms: 5 }
}

fn staged(entries: &[WalkEntry]) -> (Coverage, String) {
    let scan = scan(entries);
    (scan.coverage, scan.fingerprint)
}

fn written(before: &Snapshot, after: &Snapshot, _: i64) -> Result<Written, Failure> {
    Ok(Written { observations: observe(&before.files, &after.files, &[]), completed_ms: 9 })
}

fn index(store: &mut Store, entries: &[WalkEntry]) -> Result<Coverage, Failure> {
    store.index(scan(entries), written)
}

fn fails(_: &Snapshot, _: &Snapshot, _: i64) -> Result<Written, Failure> {
    Err(Failure::new("injected"))
}

/// The regions of everything that is published.
fn regions(store: &Store) -> Vec<RegionRow> {
    store.snapshot.regions.iter().map(|found| found.region.clone()).collect()
}

/// How many documents have a word.
fn hits(store: &Store, word: &str) -> usize {
    let has = |text: &str| text.split_whitespace().any(|found| found == word);
    store.snapshot.regions.iter().filter(|found| has(&found.region.expanded)).count()
}

#[test]
fn identical_index_preserves_generation_and_prunes_content() {
    let mut store = open();
    index(&mut store, &[read("README.md", "first content")]).unwrap();
    let generation = store.generation();
    index(&mut store, &[read("README.md", "first content")]).unwrap();
    assert_eq!(store.generation(), generation);
    index(&mut store, &[read("README.md", "second content")]).unwrap();
    assert_eq!(store.generation(), generation + 1);
    assert_eq!(store.snapshot.contents.len(), 1);
}

#[test]
fn failed_publication_keeps_complete_previous_snapshot() {
    let mut store = open();
    index(&mut store, &[read("README.md", "original")]).unwrap();
    let generation = store.generation();
    let before = store.coverage();
    assert!(store.index(scan(&[read("README.md", "replacement")]), fails).is_err());
    assert_eq!(store.generation(), generation);
    assert_eq!(store.coverage(), before);
    let found = regions(&store);
    assert_eq!(found.len(), 1);
    assert_eq!(found[0].body, "original");
    assert_eq!(hits(&store, "original"), 1);
    index(&mut store, &[read("README.md", "replacement")]).unwrap();
    assert_eq!(store.generation(), generation + 1);
    assert_eq!(regions(&store)[0].body, "replacement");
    assert_eq!(hits(&store, "original"), 0);
    assert_eq!(store.snapshot.regions[0].path, "README.md");
}

#[test]
fn states_of_trees_follow_the_content_of_files() {
    let first = scan(&[read("a", "one"), read("b", "two")]);
    let again = scan(&[read("a", "one"), read("b", "two")]);
    let changed = scan(&[read("a", "one"), read("b", "tow")]);
    assert_eq!(first.fingerprint, again.fingerprint);
    assert_eq!(first.coverage, again.coverage);
    assert_ne!(first.fingerprint, changed.fingerprint);
    let mut store = open();
    store.index(first, written).unwrap();
    store.index(again, fails).unwrap();
    assert_eq!(store.generation(), 1);
    store.index(changed, written).unwrap();
    assert_eq!(store.generation(), 2);
}

#[test]
fn published_content_is_never_replaced() {
    let mut store = open();
    let mut first = scan(&[read("a", "same"), read("b", "same")]);
    assert_eq!(first.staged.contents.len(), 1);
    let revision = first.staged.files[0].revision.clone().unwrap();
    store.index(first, written).unwrap();
    first = scan(&[read("a", "same")]);
    first.staged.contents.set(revision.clone(), b"other".to_vec());
    first.staged.contents.set("stray".into(), b"stray".to_vec());
    store.index(first, written).unwrap();
    assert_eq!(store.snapshot.contents.get(&revision).unwrap(), b"same");
    assert_eq!(store.snapshot.contents.len(), 1);
}

#[test]
fn configuration_changes_and_resource_exclusions_are_visible() {
    let huge = || match read_source(Some(3 * 1024 * 1024), || panic!("not read")) {
        SourceReading::Unread { status, length } => {
            assert_eq!(status, "resource_excluded");
            WalkEntry::Unread {
                path: b"huge.rs".to_vec(),
                status,
                length,
                language: "rust".into(),
            }
        }
        other => panic!("{other:?}"),
    };
    let mut store = open();
    let coverage = index(&mut store, &[read(".luaurc", "{}"), huge()]).unwrap();
    assert_eq!(coverage.indexed_files, 1);
    assert_eq!(coverage.excluded_files, 1);
    let generation = store.generation();
    index(&mut store, &[read(".luaurc", "{\"aliases\":{}}"), huge()]).unwrap();
    assert_eq!(store.generation(), generation + 1);
    let excluded =
        store.snapshot.files.iter().filter(|file| file.status == "resource_excluded").count();
    assert_eq!(excluded, 1);
    assert!(regions(&store).iter().all(|region| region.start != region.end));
}

#[test]
fn interrupted_staging_is_discarded_without_replacing_snapshot() {
    let entries = [read("lib.rs", "fn intact() {}\n")];
    let mut store = open();
    index(&mut store, &entries).unwrap();
    let generation = store.generation();
    assert!(is_abandoned_stage("stage-x1", true));
    assert!(!is_abandoned_stage("stage-x1", false));
    assert!(!is_abandoned_stage("index.sqlite3", true));
    index(&mut store, &entries).unwrap();
    assert_eq!(store.generation(), generation);
    assert_eq!(regions(&store)[0].body, "fn intact() {}\n");
    assert!(Store::open(b"/root", true, b"/root", empty_index()).is_err());
    assert!(Store::open(b"/root", false, b"/cache", empty_index()).is_err());
    let moved = SavedIndex { root: Some("/elsewhere".into()), ..empty_index() };
    assert!(Store::open(b"/root", true, b"/cache", moved).is_err());
}

#[test]
fn linked_worktree_git_file_is_not_indexed() {
    assert!(!walks_to(b"/root/.git", b".git", false, b"/cache"));
    assert!(!walks_to(b"/root/.git", b".git", true, b"/cache"));
    assert!(walks_to(b"/root/lib.rs", b"lib.rs", false, b"/cache"));
    assert!(!walks_to(b"/root/cache", b"cache", true, b"/root/cache"));
    let (coverage, _) = staged(&[read("lib.rs", "fn indexed() {}\n")]);
    assert_eq!(coverage.total_files, 1);
}

#[test]
fn coverage_counts_every_entry_once() {
    let unread = WalkEntry::Unread {
        path: b"x".to_vec(),
        status: "unreadable".into(),
        length: 3,
        language: "text".into(),
    };
    let (coverage, _) = staged(&[read("a", "12"), WalkEntry::Failed, WalkEntry::Other, unread]);
    assert_eq!(coverage.indexed_files + coverage.excluded_files, coverage.total_files);
    assert_eq!(coverage.walk_failures, 1);
    assert_eq!(coverage.indexed_bytes, 2);
    assert_eq!(cache_version(b"lock"), cache_version(b"lock"));
    assert!(matches!(read_source(Some(2), || Ok(vec![1, 2])), SourceReading::Read(_)));
    assert!(matches!(read_source(None, || Ok(vec![1])), SourceReading::Unread { .. }));
    let grown = read_source(Some(2), || Ok(vec![0; MAX_SOURCE_BYTES as usize + 1]));
    assert!(matches!(grown, SourceReading::Unread { .. }));
}

#[test]
fn extractions_come_from_the_cache_where_it_holds_them() {
    let (found, kept) = cached_extraction(Some(extraction("a")), || panic!("not extracted"));
    assert_eq!((found.language.as_str(), kept), ("a", true));
    let (found, kept) = cached_extraction(None, || extraction("b"));
    assert_eq!((found.language.as_str(), kept), ("b", true));
    let cancelled = |language: &str| Extraction { status: "cancelled".into(), ..extraction(language) };
    let (found, kept) = cached_extraction(Some(cancelled("a")), || cancelled("b"));
    assert_eq!((found.language.as_str(), kept), ("b", false));
    assert_eq!(grammar("src/lib.rs"), "rs");
    let occurrence = Occurrence {
        name: "f".into(),
        start: 0,
        end: 1,
        role: "call".into(),
        target: Some(1),
        candidates: vec![0, 1, 9],
        provenance: "p".into(),
    };
    assert_eq!(occurrence_rows(&occurrence, &[10, 11]), (Some(11), "[10,11]".into()));
    let edge = Relationship {
        source: 0,
        target: Some(1),
        kind: "calls".into(),
        evidence_start: 0,
        evidence_end: 1,
        provenance: "p".into(),
    };
    assert_eq!(relationship_rows(&edge, &[10, 11]), Some((10, Some(11))));
    assert_eq!(relationship_rows(&edge, &[]), None);
}

#[test]
fn global_candidates_refresh_for_unchanged_callers() {
    let call = NameOccurrence {
        name: "target".into(),
        language: "rust".into(),
        role: "call".into(),
        target: None,
        candidates: Vec::new(),
        provenance: "extracted".into(),
    };
    let defined = |name: &str| NamedDefinition { id: 4, name: name.into(), language: "rust".into() };
    let (candidates, _) = references(&call, &vec![defined("target")]).unwrap();
    assert_ne!(candidates_json(&candidates), "[]");
    assert!(call.target.is_none());
    // The caller is staged anew, with what was extracted of it alone.
    let candidates = match references(&call, &vec![defined("replacement")]) {
        Some((candidates, _)) => candidates,
        None => call.candidates,
    };
    assert_eq!(candidates_json(&candidates), "[]");
}

#[test]
fn global_candidates_are_the_first_in_the_order_of_their_rows() {
    let call = NameOccurrence {
        name: "target".into(),
        language: "typescript".into(),
        role: "call".into(),
        target: None,
        candidates: Vec::new(),
        provenance: "extracted".into(),
    };
    let defined = |id: i64| NamedDefinition {
        id,
        name: "target".into(),
        language: if id % 2 == 0 { "typescript".into() } else { "javascript".into() },
    };
    let (few, provenance) = references(&call, &[9, 3, 7].map(defined).into()).unwrap();
    assert_eq!(few, [3, 7, 9]);
    assert_eq!(provenance, "extracted;global_name_candidates");
    let (many, _) = references(&call, &(0..100).rev().map(defined).collect()).unwrap();
    assert_eq!(many, (0..64).collect::<Vec<_>>());
}

// Modules.

fn files(list: &[(&str, &str)]) -> FileIndex {
    let mut files = KeyTable::new();
    for (i, (path, text)) in list.iter().enumerate() {
        files.insert_new(
            encode_path(path.as_bytes()),
            IndexedFile { bytes: Some(text.as_bytes().to_vec()), module: Some(i as i64 + 1) },
        );
    }
    FileIndex { files }
}

fn occurrence(name: &str, source: &str, language: &str, role: &str) -> ModuleOccurrence {
    ModuleOccurrence {
        id: 1,
        name: name.into(),
        source: source.into(),
        language: language.into(),
        provenance: "tree_sitter".into(),
        role: role.into(),
    }
}

fn resolved(index: &FileIndex, occurrence: ModuleOccurrence) -> Resolution {
    resolve_occurrence(index, &occurrence).unwrap().unwrap()
}

#[test]
fn modules_preserve_require_uncertainty_and_resolve_static_relative_imports() {
    let index = files(&[("util.ts", ""), ("caller.ts", "")]);
    let import = resolved(&index, occurrence("./util.ts", "caller.ts", "typescript", "import_path"));
    let require = resolved(&index, occurrence("./util", "caller.ts", "typescript", "require"));
    assert!(import.target.is_some());
    assert!(require.target.is_none());
    assert!(!require.candidates.is_empty());
    assert!(require.kind.contains("import_candidate"));
}

#[test]
fn configuration_alias_changes_refresh_module_candidates() {
    let with_config = |config: &str| {
        files(&[
            ("first/util.ts", "export const util = 1;"),
            ("second/util.ts", "export const util = 2;"),
            ("caller.ts", "import { util } from '@lib/util';"),
            ("tsconfig.json", config),
        ])
    };
    let import = || occurrence("@lib/util", "caller.ts", "typescript", "import_path");
    let first = with_config(
        "{\"compilerOptions\": {\"paths\": {\"@lib/*\": [\"first/*\"], // comment\n},},}",
    );
    assert_eq!(resolved(&first, import()).candidates[0], 1);
    let second = with_config("{\"compilerOptions\":{\"paths\":{\"@lib/*\":[\"second/*\"]}}}");
    assert_eq!(resolved(&second, import()).candidates[0], 2);
}

#[test]
fn luau_alias_rojo_and_conditional_dm_include_have_candidate_edges() {
    let index = files(&[
        ("shared/module.luau", "return {}\n"),
        (".luaurc", "{\"aliases\":{\"shared\":\"shared\"}}"),
        ("trufflepig.json", "{\"rojo_project\":\"default.project.json\"}"),
        ("default.project.json", "{\"tree\":{\"ReplicatedStorage\":{\"$path\":\"shared\"}}}"),
        ("caller.luau", ""),
        ("world.dme", ""),
        ("feature.dm", "/obj/feature\n"),
    ]);
    let occurrences = vec![
        occurrence("@shared/module", "caller.luau", "luau", "require"),
        occurrence("game.ReplicatedStorage.module", "caller.luau", "luau", "require"),
        occurrence("feature.dm", "world.dme", "dm", "include"),
    ];
    let found = resolve(&index, &occurrences).unwrap();
    assert_eq!(found.len(), 3);
    for resolution in &found {
        let resolution = resolution.as_ref().unwrap();
        assert!(resolution.target.is_none());
        assert!(!resolution.candidates.is_empty());
    }
    assert_eq!(found[2].as_ref().unwrap().kind, "include_candidate");
    assert_eq!(found[2].as_ref().unwrap().candidates_json(), "[7]");
    assert_eq!(found[0].as_ref().unwrap().candidates, [1]);
    assert_eq!(found[1].as_ref().unwrap().candidates, [1]);
    assert_eq!(found[2].as_ref().unwrap().candidates, [7]);
    assert_eq!(luau(&index, b"", "@shared/module"), [b"shared/module".to_vec()]);
    assert!(!rojo(&index, "game.ReplicatedStorage.module").is_empty());
    assert!(typescript(&index, b"", "@shared/module").is_empty());
}

#[test]
fn configurations_may_hold_comments_and_trailing_commas() {
    let text = b"{\"a\": \"// kept /* kept */\", /* gone */ \"b\": [1, 2,], // gone\n}";
    let value = json_with_comments(text).unwrap();
    assert_eq!(value["a"].as_str(), Some("// kept /* kept */"));
    assert_eq!(value["b"].as_array().unwrap().len(), 2);
    assert!(json_with_comments(b"{").is_none());
    assert!(json_with_comments(b"{} /* open").is_none());
    let clean = without_comments(b"1 // x\n2").unwrap();
    assert_eq!(clean.len(), 8);
    assert_eq!(without_trailing_commas(b"[1,]"), b"[1 ]");
    assert_eq!(candidates_json(&vec![-3, 0, i64::MAX]), "[-3,0,9223372036854775807]");
    assert_eq!(candidates_json(&Vec::new()), "[]");
}

// Publication.

fn state(path: &str, revision: &str) -> FileState {
    FileState {
        path: path.into(),
        revision: Some(revision.into()),
        status: "indexed".into(),
        bytes: 6,
    }
}

fn observe(
    before: &Vec<FileState>,
    after: &Vec<FileState>,
    missing: &[&str],
) -> Vec<Observation> {
    changed_files(before, after, MAX_OBSERVATIONS)
        .into_iter()
        .map(|change| {
            let old = change.before.map(|i| &before[i]);
            let new = change.after.map(|i| &after[i]);
            let path = old.or(new).unwrap().path.clone();
            let presence = if missing.contains(&path.as_str()) {
                Presence::Missing
            } else {
                Presence::Present
            };
            let kind = change_kind(old, new, presence);
            let revision = |state: Option<&FileState>| {
                state.and_then(|state| state.revision.clone()).unwrap_or_default()
            };
            let value = format!("{kind} {} {}", revision(old), revision(new));
            Observation { path, value }
        })
        .collect()
}

#[test]
fn publication_observations_distinguish_ignore_delete_and_net_revert() {
    let first =
        vec![state("deleted.txt", "r0"), state("ignored.txt", "r0"), state("reverted.txt", "r0")];
    let second = vec![state("reverted.txt", "r1")];
    let third = vec![state("reverted.txt", "r0")];
    let baseline = 1;
    let mut journal = Journal::new();
    journal.append_observations(baseline, observe(&Vec::new(), &first, &[]));
    journal.append_observations(baseline + 1, observe(&first, &second, &["deleted.txt"]));
    journal.append_observations(baseline + 2, observe(&second, &third, &[]));
    let observations = observations_since(&journal, baseline, baseline + 2).unwrap();
    assert!(observations.complete);
    let ignored =
        observations.changes.iter().find(|change| change.path == "ignored.txt").unwrap();
    assert!(ignored.value.starts_with("ignored_or_excluded"));
    let deleted =
        observations.changes.iter().find(|change| change.path == "deleted.txt").unwrap();
    assert!(deleted.value.starts_with("deleted"));
    let reverted: Vec<_> =
        observations.changes.iter().filter(|change| change.path == "reverted.txt").collect();
    assert_eq!(reverted.len(), 2);
    let revisions = |i: usize| {
        let parts: Vec<&str> = reverted[i].value.split(' ').collect();
        (parts[1].to_string(), parts[2].to_string())
    };
    assert_eq!(revisions(0).0, revisions(1).1);
    journal.windows.retain(|window| window.generation != baseline + 1);
    assert!(!observations_since(&journal, baseline, baseline + 2).unwrap().complete);
}

#[test]
fn journals_keep_a_bounded_number_of_windows() {
    let mut journal = Journal::new();
    for generation in 1..MAX_WINDOWS + 10 {
        journal.append_observations(generation, Vec::new());
    }
    assert_eq!(journal.windows.len(), MAX_WINDOWS as usize);
    let to = MAX_WINDOWS + 9;
    assert!(!observations_since(&journal, 1, to).unwrap().complete);
    assert!(observations_since(&journal, to - 5, to).unwrap().complete);
    assert!(observations_since(&journal, to + 1, to).is_err());
    let many = (0..MAX_OBSERVATIONS + 1)
        .map(|i| Observation { path: format!("p{i}"), value: "x".into() })
        .collect();
    journal.append_observations(to + 1, many);
    assert!(!observations_since(&journal, to, to + 1).unwrap().complete);
}

#[test]
fn publication_interval_survives_restart_and_failed_publication() {
    let shown = |store: &Store| format!("{:?}", store.publication().unwrap());
    let mut store = open();
    assert!(store.publication().is_none());
    index(&mut store, &[read("file.txt", "before")]).unwrap();
    let first = shown(&store);
    let publication = store.publication().unwrap();
    let generation = publication.generation;
    assert_eq!(generation, store.generation());
    assert!(publication.capture_started_ms <= publication.capture_completed_ms);
    assert_eq!(decode_path(&publication.root).unwrap(), store.root);
    let mut store = Store::open(b"/root", true, b"/cache", saved(store)).unwrap();
    assert_eq!(shown(&store), first);
    index(&mut store, &[read("file.txt", "before")]).unwrap();
    assert_eq!(shown(&store), first);
    assert!(store.index(scan(&[read("file.txt", "after")]), fails).is_err());
    assert_eq!(shown(&store), first);
    let since = observations_since(&store.journal, generation, store.generation()).unwrap();
    assert!(since.changes.is_empty());
}

#[test]
fn captures_end_after_they_begin() {
    let mut publication = Publication {
        generation: 1,
        root: encode_path(b"/root"),
        index_epoch: "epoch".into(),
        capture_started_ms: 5,
        capture_completed_ms: 0,
    };
    publication.complete(3);
    assert_eq!(publication.capture_completed_ms, 5);
    publication.complete(9);
    assert_eq!(publication.capture_completed_ms, 9);
}

#[test]
fn publication_epoch_changes_only_when_index_database_is_recreated() {
    let mut store = open();
    index(&mut store, &[read("file.txt", "before")]).unwrap();
    let first = store.publication().unwrap().generation;
    let epoch = store.publication().unwrap().index_epoch.clone();
    let mut store = Store::open(b"/root", true, b"/cache", saved(store)).unwrap();
    index(&mut store, &[read("file.txt", "after")]).unwrap();
    assert_eq!(store.publication().unwrap().index_epoch, epoch);
    let recreated = SavedIndex { index_epoch: "another".into(), ..empty_index() };
    let mut store = Store::open(b"/root", true, b"/cache", recreated).unwrap();
    index(&mut store, &[read("file.txt", "after")]).unwrap();
    assert_eq!(store.publication().unwrap().generation, first);
    assert_ne!(store.publication().unwrap().index_epoch, epoch);
}

#[test]
fn journals_out_of_order_are_not_sound() {
    let mut store = open();
    assert!(store.is_well_formed());
    index(&mut store, &[read("a", "1")]).unwrap();
    index(&mut store, &[read("a", "2")]).unwrap();
    assert!(store.is_well_formed());
    store.journal.windows.swap(0, 1);
    assert!(!store.is_well_formed());
    store.journal.windows.swap(0, 1);
    store.saved_generation = 1;
    assert!(!store.is_well_formed());
}

// Seeding.

fn survey() -> SeedSurvey {
    SeedSurvey { prepared: Ok(()), source_present: true }
}

fn sizes() -> SeedSizes {
    SeedSizes { index_bytes: Ok(4096), wal_bytes: Ok(0), available: Ok(1 << 40) }
}

fn cache_files(names: &[&str]) -> KeyTable<()> {
    let mut files = KeyTable::new();
    for name in names {
        files.set((*name).into(), ());
    }
    files
}

fn names_of(files: &KeyTable<()>) -> Vec<String> {
    (0..files.len()).map(|i| files.at(i).0.clone()).collect()
}

fn nothing_removed(names: Vec<String>) {
    panic!("{names:?} need not be removed")
}

fn not_locked() -> Result<KeyTable<()>, Failure> {
    panic!("not locked")
}

fn not_measured() -> SeedSizes {
    panic!("not measured")
}

fn no_facts() -> Result<u64, Failure> {
    panic!("not copied")
}

fn no_vectors() -> Result<bool, Failure> {
    panic!("not copied")
}

const PARTIAL: [&str; 4] = [
    "index.sqlite3.seed-journal",
    "index.sqlite3.seed",
    "embeddings.sqlite.seed-journal",
    "embeddings.sqlite.seed",
];

#[test]
fn seed_skips_oversize_source_and_is_idempotent() {
    let mut files = cache_files(&["index.lock"]);
    let skipped = ensure_seeded_with_limit(
        &survey(),
        &mut files,
        1,
        || Ok(cache_files(&["index.lock"])),
        sizes,
        no_facts,
        no_vectors,
        nothing_removed,
    );
    assert_eq!(skipped, SeedOutcome::Skipped("source index exceeds seed limit"));
    assert!(files.get(INDEX_NAME).is_none());
    let seeded = ensure_seeded(
        &survey(),
        &mut files,
        || Ok(cache_files(&["index.lock"])),
        sizes,
        || Ok(2),
        || Ok(false),
        nothing_removed,
    );
    assert!(matches!(seeded, SeedOutcome::Seeded { extraction_rows: 2, embeddings: false }));
    assert_eq!(names_of(&files), ["index.lock", INDEX_NAME]);
    let again = ensure_seeded(
        &survey(),
        &mut files,
        not_locked,
        not_measured,
        no_facts,
        no_vectors,
        nothing_removed,
    );
    assert_eq!(again, SeedOutcome::Present);
    assert_eq!(names_of(&files), ["index.lock", INDEX_NAME]);
}

#[test]
fn seeded_store_has_no_publication_until_indexed() {
    let source_rows = 3;
    let mut files = cache_files(&[]);
    let outcome = ensure_seeded(
        &survey(),
        &mut files,
        || Ok(cache_files(&[])),
        sizes,
        || Ok(source_rows),
        || Ok(true),
        nothing_removed,
    );
    assert_eq!(
        outcome,
        SeedOutcome::Seeded { extraction_rows: source_rows, embeddings: true }
    );
    assert_eq!(names_of(&files), [INDEX_NAME, EMBEDDINGS_NAME]);
    assert!(files.get("preparation.sqlite3").is_none());
    let seeded = SavedIndex { root: Some(encode_path(b"/root")), ..empty_index() };
    let store = Store::open(b"/root", true, b"/cache", seeded).unwrap();
    assert_eq!(store.generation(), 0);
    assert!(store.publication().is_none());
    assert_eq!(store.snapshot.files.len(), 0);
}

#[test]
fn seeded_identical_tree_reuses_extraction_facts() {
    let marker = Definition {
        name: "seeded_marker".into(),
        kind: "function".into(),
        start: 0,
        end: 4,
        container: None,
    };
    let facts = Extraction { definitions: vec![marker], ..extraction("rust") };
    let (extraction, _) = cached_extraction(Some(facts), || panic!("not extracted"));
    let marked = |definition: &&Definition| definition.name == "seeded_marker";
    assert_eq!(extraction.definitions.iter().filter(marked).count(), 1);
    let mut store = open();
    let path = b"lib.rs".to_vec();
    let source = b"fn seeded_value() {}\n".to_vec();
    index(&mut store, &[WalkEntry::Read { path, source, extraction }]).unwrap();
    let publication = store.publication().unwrap();
    assert_eq!(publication.generation, 1);
    assert_eq!(publication.root, encode_path(b"/root"));
}

#[test]
fn seeding_skips_what_it_cannot_copy() {
    let mut files = cache_files(&[]);
    let absent = SeedSurvey { source_present: false, ..survey() };
    let skipped = ensure_seeded(
        &absent,
        &mut files,
        not_locked,
        not_measured,
        no_facts,
        no_vectors,
        nothing_removed,
    );
    assert_eq!(skipped, SeedOutcome::Skipped("member cache has no index"));
    let full = || SeedSizes { available: Ok(1), ..sizes() };
    let skipped = ensure_seeded(
        &survey(),
        &mut files,
        || Ok(cache_files(&[])),
        full,
        no_facts,
        no_vectors,
        nothing_removed,
    );
    assert_eq!(skipped, SeedOutcome::Skipped("insufficient free space"));
    assert_eq!(files.len(), 0);
    let raced = ensure_seeded(
        &survey(),
        &mut files,
        || Ok(cache_files(&[INDEX_NAME])),
        not_measured,
        no_facts,
        no_vectors,
        nothing_removed,
    );
    assert_eq!(raced, SeedOutcome::Present);
    assert_eq!(names_of(&files), [INDEX_NAME]);
    assert_eq!(seed_name("index.sqlite3"), "index.sqlite3.seed");
}

#[test]
fn failed_seedings_remove_what_they_left() {
    let removed = std::cell::RefCell::new(Vec::new());
    let remove = |names: Vec<String>| removed.borrow_mut().extend(names);
    let io = || Failure::new("io");
    let mut files = cache_files(&["index.sqlite3.seed", "index.lock"]);
    let failed = ensure_seeded(
        &survey(),
        &mut files,
        || Ok(cache_files(&["index.sqlite3.seed", "index.lock"])),
        sizes,
        || Err(io()),
        no_vectors,
        remove,
    );
    assert_eq!(failed, SeedOutcome::Skipped("seed failed"));
    assert_eq!(*removed.borrow(), PARTIAL);
    assert_eq!(names_of(&files), ["index.lock"]);
    removed.borrow_mut().clear();
    let failed = ensure_seeded(
        &survey(),
        &mut files,
        || Err(io()),
        not_measured,
        no_facts,
        no_vectors,
        remove,
    );
    assert_eq!(failed, SeedOutcome::Skipped("seed failed"));
    assert_eq!(*removed.borrow(), PARTIAL);
    removed.borrow_mut().clear();
    let unmeasured = || SeedSizes { wal_bytes: Err(io()), ..sizes() };
    let failed = ensure_seeded(
        &survey(),
        &mut files,
        || Ok(cache_files(&["index.lock"])),
        unmeasured,
        no_facts,
        no_vectors,
        remove,
    );
    assert_eq!(failed, SeedOutcome::Skipped("seed failed"));
    assert_eq!(*removed.borrow(), PARTIAL);
    removed.borrow_mut().clear();
    let unprepared = SeedSurvey { prepared: Err(io()), ..survey() };
    let failed = ensure_seeded(
        &unprepared,
        &mut files,
        not_locked,
        not_measured,
        no_facts,
        no_vectors,
        remove,
    );
    assert_eq!(failed, SeedOutcome::Skipped("seed failed"));
    assert_eq!(*removed.borrow(), PARTIAL);
    removed.borrow_mut().clear();
    let seeded = ensure_seeded(
        &survey(),
        &mut files,
        || Ok(cache_files(&["index.lock"])),
        sizes,
        || Ok(1),
        || Err(io()),
        remove,
    );
    assert_eq!(seeded, SeedOutcome::Seeded { extraction_rows: 1, embeddings: false });
    assert_eq!(*removed.borrow(), ["embeddings.sqlite.seed"]);
    assert_eq!(names_of(&files), ["index.lock", INDEX_NAME]);
}

#[test]
fn linked_worktree_main_checkout_names_the_main_checkout() {
    let common = b"/repo/main/.git";
    assert_eq!(
        linked_worktree_main_checkout(true, Some(common), true, b"/repo/linked"),
        Some(b"/repo/main".to_vec())
    );
    assert_eq!(linked_worktree_main_checkout(false, Some(common), true, b"/repo/main"), None);
    assert_eq!(linked_worktree_main_checkout(true, None, true, b"/repo/linked"), None);
    assert_eq!(
        linked_worktree_main_checkout(true, Some(b"/repo/main/.git/"), true, b"/repo/linked"),
        Some(b"/repo/main".to_vec())
    );
    assert_eq!(
        linked_worktree_main_checkout(true, Some(b"main/.git"), true, b"/repo/linked"),
        Some(b"main".to_vec())
    );
    assert_eq!(linked_worktree_main_checkout(true, Some(common), true, b"/repo//main/"), None);
    assert_eq!(linked_worktree_main_checkout(true, Some(b"/repo/bare"), true, b"/repo/x"), None);
}
