//! Which modules the imports of a source may mean.

use crate::paths;
use crate::store::json;
use crate::store::module_config;
use crate::store::module_config::FileIndex;
use crate::store::paths as store_paths;
use crate::text;
use crate::text::Failure;
use vstd::prelude::*;
use vstd::string::StringExecFns;
use vstd::utf8;

verus! {

/// How many paths of an import are tried.
pub const MAX_PATHS: usize = 64;

/// A place in a source that names a module.
#[derive(Debug)]
pub struct ModuleOccurrence {
    pub id: i64,
    pub name: String,
    pub source: String,
    pub language: String,
    pub provenance: String,
    pub role: String,
}

/// What was found for a place that names a module: the modules that it may mean, the one that
/// it must mean, how they were found, and what the places are to them.
#[derive(Debug)]
pub struct Resolution {
    pub target: Option<i64>,
    pub candidates: Vec<i64>,
    pub provenance: String,
    pub kind: String,
}

impl Resolution {
    /// The candidates as they are stored.
    pub fn candidates_json(&self) -> (rendered: String)
        ensures
            rendered@ == json::id_list(self.candidates@),
    {
        json::candidates_json(&self.candidates)
    }
}

/// Whether a text holds a character.
pub open spec fn holds(s: Seq<char>, c: char) -> bool {
    exists|i: int| 0 <= i < s.len() && #[trigger] s[i] == c
}

fn has_char(s: &Vec<char>, c: char) -> (found: bool)
    ensures
        found == holds(s@, c),
{
    let mut i: usize = 0;
    while i < s.len()
        invariant
            i <= s.len(),
            forall|k: int| 0 <= k < i ==> #[trigger] s@[k] != c,
        decreases s.len() - i,
    {
        if s[i] == c {
            return true;
        }
        i += 1;
    }
    false
}

/// Whether nothing is looked for: a name with a backslash, but for an include, or with a zero
/// character.
pub open spec fn passed_over(name: Seq<char>, role: Seq<char>) -> bool {
    (holds(name, '\\') && role != "include"@) || holds(name, '\0')
}

/// A name with slashes for backslashes.
pub open spec fn forward(name: Seq<char>) -> Seq<char> {
    Seq::new(
        name.len(),
        |i: int|
            if name[i] == '\\' {
                '/'
            } else {
                name[i]
            },
    )
}

fn forward_slashes(name: &Vec<char>) -> (result: Vec<char>)
    ensures
        result@ == forward(name@),
{
    let mut result: Vec<char> = Vec::new();
    let mut i: usize = 0;
    while i < name.len()
        invariant
            i <= name.len(),
            result.len() == i,
            forall|k: int| 0 <= k < i ==> #[trigger] result@[k] == forward(name@)[k],
        decreases name.len() - i,
    {
        result.push(
            if name[i] == '\\' {
                '/'
            } else {
                name[i]
            },
        );
        i += 1;
    }
    assert(result@ =~= forward(name@));
    result
}

/// Whether a name begins with a step to the directory or out of it.
pub open spec fn relative(name: Seq<char>) -> bool {
    text::begins_with(name, "./"@) || text::begins_with(name, "../"@)
}

fn is_relative(name: &Vec<char>) -> (yes: bool)
    ensures
        yes == relative(name@),
{
    let here = text::chars_of("./");
    let up = text::chars_of("../");
    proof {
        reveal_strlit("./");
        reveal_strlit("../");
    }
    (name.len() >= 2 && text::text_at(name.as_slice(), here.as_slice(), 0)) || (name.len() >= 3
        && text::text_at(name.as_slice(), up.as_slice(), 0))
}

/// Where a name leads, and how that was found.
pub open spec fn leads(
    index: FileIndex,
    directory: Seq<u8>,
    name: Seq<char>,
    language: Seq<char>,
    role: Seq<char>,
) -> (Seq<Seq<u8>>, Seq<char>) {
    let bytes = utf8::encode_utf8(name);
    if role == "include"@ {
        let included = utf8::encode_utf8(forward(name));
        (
            module_config::listed(paths::normal_path(paths::joined(directory, included)))
                + module_config::listed(paths::normal_path(included)),
            "observed_include_path"@,
        )
    } else if relative(name) {
        (
            module_config::listed(paths::normal_path(paths::joined(directory, bytes))),
            "relative_module_path"@,
        )
    } else if language == "luau"@ {
        if name.len() > 0 && name[0] == '@' {
            (module_config::luau_paths(index, directory, name), "luaurc_alias"@)
        } else {
            (module_config::rojo_paths(index, name), "configured_rojo_mapping"@)
        }
    } else if language == "typescript"@ || language == "javascript"@ {
        (module_config::typescript_paths(index, directory, name), "typescript_paths"@)
    } else {
        (Seq::empty(), "relative_module_path"@)
    }
}

fn listed_path(path: Option<Vec<u8>>) -> (list: Vec<Vec<u8>>)
    ensures
        paths::byte_views(list@) == module_config::listed(
            match path {
                Some(path) => Some(path@),
                None => None,
            },
        ),
{
    let mut list: Vec<Vec<u8>> = Vec::new();
    match path {
        Some(path) => {
            list.push(path);
            assert(paths::byte_views(list@) =~= seq![path@]);
        },
        None => {
            assert(paths::byte_views(list@) =~= Seq::<Seq<u8>>::empty());
        },
    }
    list
}

fn lead(index: &FileIndex, directory: &[u8], occurrence: &ModuleOccurrence) -> (result: (
    Vec<Vec<u8>>,
    &'static str,
))
    requires
        index.well_formed(),
    ensures
        (paths::byte_views(result.0@), result.1@) == leads(
            *index,
            directory@,
            occurrence.name@,
            occurrence.language@,
            occurrence.role@,
        ),
{
    let name = occurrence.name.as_str();
    let language = occurrence.language.as_str();
    let chars = text::chars_of(name);
    if text::same_text(occurrence.role.as_str(), "include") {
        let slashed = forward_slashes(&chars);
        let included = text::text_of(slashed.as_slice());
        let included = included.as_str().as_bytes();
        let mut list = listed_path(
            paths::normalized(paths::join(directory, included).as_slice()),
        );
        let ghost first = paths::byte_views(list@);
        let mut more = listed_path(paths::normalized(included));
        let ghost second = paths::byte_views(more@);
        list.append(&mut more);
        assert(paths::byte_views(list@) =~= first + second);
        (list, "observed_include_path")
    } else if is_relative(&chars) {
        let list = listed_path(
            paths::normalized(paths::join(directory, name.as_bytes()).as_slice()),
        );
        (list, "relative_module_path")
    } else if text::same_text(language, "luau") {
        if chars.len() > 0 && chars[0] == '@' {
            (module_config::luau(index, directory, name), "luaurc_alias")
        } else {
            (module_config::rojo(index, name), "configured_rojo_mapping")
        }
    } else if text::same_text(language, "typescript") || text::same_text(language, "javascript") {
        (module_config::typescript(index, directory, name), "typescript_paths")
    } else {
        let list: Vec<Vec<u8>> = Vec::new();
        assert(paths::byte_views(list@) =~= Seq::<Seq<u8>>::empty());
        (list, "relative_module_path")
    }
}

/// The extensions of sources in a language.
pub open spec fn extensions_of(language: Seq<char>) -> Seq<Seq<char>> {
    if language == "luau"@ {
        seq!["luau"@, "lua"@]
    } else {
        seq!["ts"@, "tsx"@, "js"@, "jsx"@, "mts"@, "cts"@, "mjs"@, "cjs"@]
    }
}

fn extensions(language: &str) -> (list: Vec<&'static str>)
    ensures
        list.len() == extensions_of(language@).len(),
        forall|i: int|
            0 <= i < list.len() ==> (#[trigger] list@[i])@ == extensions_of(language@)[i],
{
    let mut list: Vec<&'static str> = Vec::new();
    if text::same_text(language, "luau") {
        list.push("luau");
        list.push("lua");
    } else {
        list.push("ts");
        list.push("tsx");
        list.push("js");
        list.push("jsx");
        list.push("mts");
        list.push("cts");
        list.push("mjs");
        list.push("cjs");
    }
    list
}

/// The file that stands for a directory, without its extension.
pub open spec fn entry_name(language: Seq<char>) -> Seq<char> {
    if language == "luau"@ {
        "init"@
    } else {
        "index"@
    }
}

/// A path with each extension: as a file, and as the entry of a directory.
pub open spec fn with_each(path: Seq<u8>, entry: Seq<char>, extensions: Seq<Seq<char>>) -> Seq<
    Seq<u8>,
>
    decreases extensions.len(),
{
    if extensions.len() == 0 {
        Seq::empty()
    } else {
        let extension = utf8::encode_utf8(extensions.last());
        with_each(path, entry, extensions.drop_last()).push(
            paths::with_extension_of(path, extension),
        ).push(
            paths::with_extension_of(
                paths::joined(path, utf8::encode_utf8(entry)),
                extension,
            ),
        )
    }
}

/// The files that a path may mean: itself; without an extension, also with each of them; and a
/// TypeScript source for a JavaScript one.
pub open spec fn variants_of(path: Seq<u8>, language: Seq<char>) -> Seq<Seq<u8>> {
    if language == "dreammaker"@ {
        seq![path]
    } else if paths::extension_of(path) is None {
        seq![path] + with_each(path, entry_name(language), extensions_of(language))
    } else if language != "luau"@ && (paths::extension_of(path)->0 == utf8::encode_utf8("js"@)
        || paths::extension_of(path)->0 == utf8::encode_utf8("jsx"@)) {
        seq![
            path,
            paths::with_extension_of(path, utf8::encode_utf8("ts"@)),
            paths::with_extension_of(path, utf8::encode_utf8("tsx"@)),
        ]
    } else {
        seq![path]
    }
}

fn variants(path: &[u8], language: &str) -> (list: Vec<Vec<u8>>)
    ensures
        paths::byte_views(list@) == variants_of(path@, language@),
{
    let mut list: Vec<Vec<u8>> = Vec::new();
    list.push(vstd::slice::slice_to_vec(path));
    assert(paths::byte_views(list@) =~= seq![path@]);
    if text::same_text(language, "dreammaker") {
        return list;
    }
    match paths::extension(path) {
        None => {
            let extensions = extensions(language);
            let entry = if text::same_text(language, "luau") {
                "init"
            } else {
                "index"
            };
            let ghost all = extensions_of(language@);
            let mut i: usize = 0;
            assert(seq![path@] + Seq::<Seq<u8>>::empty() =~= seq![path@]);
            while i < extensions.len()
                invariant
                    i <= extensions.len(),
                    extensions.len() == all.len(),
                    entry@ == entry_name(language@),
                    forall|k: int|
                        0 <= k < extensions.len() ==> (#[trigger] extensions@[k])@ == all[k],
                    paths::byte_views(list@) == seq![path@] + with_each(
                        path@,
                        entry@,
                        all.take(i as int),
                    ),
                decreases extensions.len() - i,
            {
                let ghost before = paths::byte_views(list@);
                let extension = extensions[i].as_bytes();
                let file = paths::with_extension(path, extension);
                let inner = paths::join(path, entry.as_bytes());
                let entry_file = paths::with_extension(inner.as_slice(), extension);
                let ghost first = file@;
                let ghost second = entry_file@;
                list.push(file);
                list.push(entry_file);
                proof {
                    assert(all.take(i + 1).drop_last() =~= all.take(i as int));
                    assert(paths::byte_views(list@) =~= before.push(first).push(second));
                    assert(paths::byte_views(list@) =~= seq![path@] + with_each(
                        path@,
                        entry@,
                        all.take(i + 1),
                    ));
                }
                i += 1;
            }
            assert(all.take(i as int) =~= all);
        },
        Some(own) => {
            let own = own.as_slice();
            if !text::same_text(language, "luau") && (text::same_bytes(own, "js".as_bytes())
                || text::same_bytes(own, "jsx".as_bytes())) {
                list.push(paths::with_extension(path, "ts".as_bytes()));
                list.push(paths::with_extension(path, "tsx".as_bytes()));
                assert(paths::byte_views(list@) =~= variants_of(path@, language@));
            }
        },
    }
    list
}

/// The files that paths may mean.
pub open spec fn all_variants(list: Seq<Seq<u8>>, language: Seq<char>) -> Seq<Seq<u8>>
    decreases list.len(),
{
    if list.len() == 0 {
        Seq::empty()
    } else {
        all_variants(list.drop_last(), language) + variants_of(list.last(), language)
    }
}

/// Whether one of some files has the module with a number.
pub open spec fn reached(index: FileIndex, files: Seq<Seq<u8>>, id: i64) -> bool {
    exists|i: int| 0 <= i < files.len() && index.module_at(#[trigger] files[i]) == Some(id)
}

/// Whether numbers rise.
pub open spec fn rising(ids: Seq<i64>) -> bool {
    forall|i: int, j: int| 0 <= i < j < ids.len() ==> #[trigger] ids[i] < #[trigger] ids[j]
}

/// Whether `ids` are the modules of some files, in rising order, each once.
pub open spec fn modules_of(index: FileIndex, files: Seq<Seq<u8>>, ids: Seq<i64>) -> bool {
    &&& rising(ids)
    &&& forall|id: i64| #[trigger] ids.contains(id) <==> reached(index, files, id)
}

fn add_rising(ids: &mut Vec<i64>, id: i64)
    requires
        rising(old(ids)@),
    ensures
        rising(final(ids)@),
        forall|k: i64| #[trigger] final(ids)@.contains(k) <==> old(ids)@.contains(k) || k == id,
{
    let ghost before = ids@;
    let mut at: usize = 0;
    while at < ids.len() && ids[at] < id
        invariant
            at <= ids.len(),
            ids@ == before,
            forall|k: int| 0 <= k < at ==> #[trigger] ids@[k] < id,
        decreases ids.len() - at,
    {
        at += 1;
    }
    if at < ids.len() && ids[at] == id {
        assert(before[at as int] == id);
        return;
    }
    ids.insert(at, id);
    proof {
        let after = ids@;
        assert(after == before.insert(at as int, id));
        assert forall|k: i64| #[trigger] after.contains(k) == (before.contains(k) || k == id) by {
            if before.contains(k) {
                let i = choose|i: int| 0 <= i < before.len() && before[i] == k;
                if i < at {
                    assert(after[i] == k);
                } else {
                    assert(after[i + 1] == k);
                }
            }
            if k == id {
                assert(after[at as int] == k);
            }
            if after.contains(k) {
                let i = choose|i: int| 0 <= i < after.len() && after[i] == k;
                if i < at {
                    assert(before[i] == k);
                } else if i > at {
                    assert(before[i - 1] == k);
                }
            }
        }
        assert forall|i: int, j: int| 0 <= i < j < after.len() implies #[trigger] after[i]
            < #[trigger] after[j] by {
            let a = if i < at { i } else { i - 1 };
            let b = if j < at { j } else { j - 1 };
            if i == at {
                assert(before[at as int] <= before[b]);
                assert(id < before[b]);
            } else if j == at {
                assert(before[a] < id);
            } else {
                assert(before[a] < before[b]);
            }
        }
    }
}

/// What the place is to the modules that it may mean.
pub open spec fn relation(role: Seq<char>, target: Option<i64>) -> Seq<char> {
    if role == "include"@ {
        "include_candidate"@
    } else if target is Some {
        "import"@
    } else {
        "import_candidate"@
    }
}

/// Where a source is.
pub open spec fn home_of(source: Seq<u8>) -> Seq<u8> {
    match paths::directory_of(source) {
        Some(directory) => directory,
        None => Seq::empty(),
    }
}

/// The module in the file that a name means without any guess.
pub open spec fn exact_module(index: FileIndex, directory: Seq<u8>, name: Seq<char>) -> Option<
    i64,
> {
    match paths::normal_path(paths::joined(directory, utf8::encode_utf8(name))) {
        Some(path) => index.module_at(path),
        None => None,
    }
}

/// Whether `resolution` is what is found for a place in a source. It must mean a module only
/// where it is a static import with a relative path that names the file exactly, and there is
/// no other candidate.
pub open spec fn resolves(
    index: FileIndex,
    source: Seq<u8>,
    occurrence: ModuleOccurrence,
    resolution: Option<Resolution>,
) -> bool {
    let name = occurrence.name@;
    let role = occurrence.role@;
    let directory = home_of(source);
    let (list, way) = leads(index, directory, name, occurrence.language@, role);
    let files = all_variants(
        module_config::at_most(list, MAX_PATHS as int),
        occurrence.language@,
    );
    if passed_over(name, role) {
        resolution is None
    } else {
        match resolution {
            None => forall|id: i64| !reached(index, files, id),
            Some(resolution) => {
                &&& resolution.candidates.len() > 0
                &&& modules_of(index, files, resolution.candidates@)
                &&& resolution.target == if resolution.candidates.len() == 1 && role
                    == "import_path"@ && way == "relative_module_path"@ && exact_module(
                    index,
                    directory,
                    name,
                ) == Some(resolution.candidates@[0]) {
                    Some(resolution.candidates@[0])
                } else {
                    None
                }
                &&& resolution.provenance@ == occurrence.provenance@ + ";"@ + way
                &&& resolution.kind@ == relation(role, resolution.target)
            },
        }
    }
}

fn collect_modules(index: &FileIndex, files: &Vec<Vec<u8>>) -> (ids: Vec<i64>)
    requires
        index.well_formed(),
    ensures
        modules_of(*index, paths::byte_views(files@), ids@),
{
    let ghost all = paths::byte_views(files@);
    let mut ids: Vec<i64> = Vec::new();
    let mut i: usize = 0;
    while i < files.len()
        invariant
            index.well_formed(),
            i <= files.len(),
            all == paths::byte_views(files@),
            modules_of(*index, all.take(i as int), ids@),
        decreases files.len() - i,
    {
        let ghost before = ids@;
        let module = index.module(files[i].as_slice());
        match module {
            Some(id) => add_rising(&mut ids, id),
            None => {},
        }
        proof {
            let shorter = all.take(i as int);
            let longer = all.take(i + 1);
            assert(longer[i as int] == files@[i as int]@);
            assert forall|id: i64| #[trigger] reached(*index, longer, id) == (reached(
                *index,
                shorter,
                id,
            ) || module == Some(id)) by {
                if reached(*index, longer, id) {
                    let k = choose|k: int|
                        0 <= k < longer.len() && index.module_at(#[trigger] longer[k]) == Some(id);
                    if k < i {
                        assert(shorter[k] == longer[k]);
                    }
                }
                if reached(*index, shorter, id) {
                    let k = choose|k: int|
                        0 <= k < shorter.len() && index.module_at(#[trigger] shorter[k]) == Some(
                            id,
                        );
                    assert(longer[k] == shorter[k]);
                }
            }
            assert forall|id: i64| #[trigger] ids@.contains(id) == reached(
                *index,
                longer,
                id,
            ) by {
                assert(before.contains(id) == reached(*index, shorter, id));
                assert(ids@.contains(id) == (before.contains(id) || module == Some(id)));
            }
        }
        i += 1;
    }
    assert(all.take(i as int) =~= all);
    ids
}

fn collect_variants(list: &Vec<Vec<u8>>, language: &str) -> (files: Vec<Vec<u8>>)
    ensures
        paths::byte_views(files@) == all_variants(
            module_config::at_most(paths::byte_views(list@), MAX_PATHS as int),
            language@,
        ),
{
    let ghost all = paths::byte_views(list@);
    let mut files: Vec<Vec<u8>> = Vec::new();
    let mut i: usize = 0;
    assert(paths::byte_views(files@) =~= Seq::<Seq<u8>>::empty());
    while i < list.len() && i < MAX_PATHS
        invariant
            i <= list.len(),
            i <= MAX_PATHS,
            all == paths::byte_views(list@),
            paths::byte_views(files@) == all_variants(all.take(i as int), language@),
        decreases list.len() - i,
    {
        let ghost before = paths::byte_views(files@);
        let mut more = variants(list[i].as_slice(), language);
        let ghost added = paths::byte_views(more@);
        files.append(&mut more);
        proof {
            assert(all.take(i + 1).drop_last() =~= all.take(i as int));
            assert(all.take(i + 1).last() == list@[i as int]@);
            assert(paths::byte_views(files@) =~= before + added);
        }
        i += 1;
    }
    assert(all.take(i as int) =~= module_config::at_most(all, MAX_PATHS as int));
    files
}

/// What is found for a place that names a module. The path of its source must be one that can
/// be decoded.
pub fn resolve_occurrence(index: &FileIndex, occurrence: &ModuleOccurrence) -> (result: Result<
    Option<Resolution>,
    Failure,
>)
    requires
        index.well_formed(),
    ensures
        occurrence_result(*index, *occurrence, result),
{
    let role = occurrence.role.as_str();
    let included = text::same_text(role, "include");
    let name = text::chars_of(occurrence.name.as_str());
    if (has_char(&name, '\\') && !included) || has_char(&name, '\0') {
        return Ok(None);
    }
    let source = match store_paths::decode_path(occurrence.source.as_str()) {
        Ok(source) => source,
        Err(failure) => {
            return Err(failure);
        },
    };
    let directory = match paths::parent(source.as_slice()) {
        Some(directory) => directory,
        None => {
            let directory: Vec<u8> = Vec::new();
            assert(directory@ =~= Seq::<u8>::empty());
            directory
        },
    };
    let (list, way) = lead(index, directory.as_slice(), occurrence);
    let files = collect_variants(&list, occurrence.language.as_str());
    let candidates = collect_modules(index, &files);
    if candidates.len() == 0 {
        proof {
            assert forall|id: i64| !reached(*index, paths::byte_views(files@), id) by {
                assert(!candidates@.contains(id));
            }
        }
        return Ok(None);
    }
    let exact = match paths::normalized(
        paths::join(directory.as_slice(), occurrence.name.as_str().as_bytes()).as_slice(),
    ) {
        Some(path) => index.module(path.as_slice()),
        None => None,
    };
    let only: i64 = candidates[0];
    let target = if candidates.len() == 1 && text::same_text(role, "import_path")
        && text::same_text(way, "relative_module_path") && exact.is_some() && exact == Some(only) {
        Some(only)
    } else {
        None
    };
    let kind = if included {
        "include_candidate".to_owned()
    } else if target.is_some() {
        "import".to_owned()
    } else {
        "import_candidate".to_owned()
    };
    let mut provenance = occurrence.provenance.clone();
    provenance.append(";");
    provenance.append(way);
    Ok(Some(Resolution { target, candidates, provenance, kind }))
}

/// Whether `result` is what is found for a place that names a module, or why its source has no
/// path.
pub open spec fn occurrence_result(
    index: FileIndex,
    occurrence: ModuleOccurrence,
    result: Result<Option<Resolution>, Failure>,
) -> bool {
    if passed_over(occurrence.name@, occurrence.role@) {
        result == Ok::<Option<Resolution>, Failure>(None)
    } else {
        match store_paths::path_of(utf8::encode_utf8(occurrence.source@)) {
            Err(message) => result is Err && text::plain(result->Err_0, message),
            Ok(source) => result is Ok && resolves(index, source, occurrence, result->Ok_0),
        }
    }
}

/// Whether something, or nothing, may be found for each of the first `n` places: none fails.
pub open spec fn all_resolve(
    index: FileIndex,
    occurrences: Seq<ModuleOccurrence>,
    n: int,
) -> bool {
    forall|i: int| 0 <= i < n ==> may_resolve(index, #[trigger] occurrences[i])
}

/// Whether something, or nothing, may be found for a place.
pub open spec fn may_resolve(index: FileIndex, occurrence: ModuleOccurrence) -> bool {
    exists|resolution: Option<Resolution>| #[trigger]
        occurrence_result(index, occurrence, Ok(resolution))
}

/// Whether `result` are the results for places in order, or the failure of the first place that
/// fails.
pub open spec fn resolved_in_order(
    index: FileIndex,
    occurrences: Seq<ModuleOccurrence>,
    result: Result<Vec<Option<Resolution>>, Failure>,
) -> bool {
    match result {
        Ok(done) => done.len() == occurrences.len() && forall|i: int|
            0 <= i < occurrences.len() ==> occurrence_result(
                index,
                occurrences[i],
                Ok(#[trigger] done@[i]),
            ),
        Err(failure) => exists|i: int|
            {
                &&& 0 <= i < occurrences.len()
                &&& all_resolve(index, occurrences, i)
                &&& occurrence_result(index, #[trigger] occurrences[i], Err(failure))
            },
    }
}

/// What is found for each place that names a module; one failure fails them all.
pub fn resolve(index: &FileIndex, occurrences: &Vec<ModuleOccurrence>) -> (result: Result<
    Vec<Option<Resolution>>,
    Failure,
>)
    requires
        index.well_formed(),
    ensures
        resolved_in_order(*index, occurrences@, result),
{
    let mut done: Vec<Option<Resolution>> = Vec::new();
    let mut i: usize = 0;
    while i < occurrences.len()
        invariant
            index.well_formed(),
            i <= occurrences.len(),
            done.len() == i,
            forall|k: int|
                0 <= k < i ==> occurrence_result(*index, occurrences@[k], Ok(#[trigger] done@[k])),
        decreases occurrences.len() - i,
    {
        match resolve_occurrence(index, &occurrences[i]) {
            Ok(resolution) => done.push(resolution),
            Err(failure) => {
                assert(occurrence_result(*index, occurrences@[i as int], Err(failure)));
                assert forall|k: int| 0 <= k < i implies may_resolve(
                    *index,
                    #[trigger] occurrences@[k],
                ) by {
                    assert(occurrence_result(*index, occurrences@[k], Ok(done@[k])));
                }
                return Err(failure);
            },
        }
        i += 1;
    }
    Ok(done)
}

/// A place that is not a static import keeps every candidate and settles on none.
pub proof fn law_only_imports_settle(
    index: FileIndex,
    source: Seq<u8>,
    occurrence: ModuleOccurrence,
    resolution: Resolution,
)
    requires
        resolves(index, source, occurrence, Some(resolution)),
        occurrence.role@ != "import_path"@,
    ensures
        resolution.target is None,
{
}

/// A place that settles on a module has no other candidate, and names its file exactly.
pub proof fn law_settled_imports_are_exact(
    index: FileIndex,
    source: Seq<u8>,
    occurrence: ModuleOccurrence,
    resolution: Resolution,
)
    requires
        resolves(index, source, occurrence, Some(resolution)),
        resolution.target is Some,
    ensures
        resolution.candidates@ == seq![resolution.target->0],
        exact_module(index, home_of(source), occurrence.name@) == resolution.target,
        resolution.kind@ == "import"@,
{
    reveal_strlit("import_path");
    reveal_strlit("include");
    assert("import_path"@.len() != "include"@.len());
    assert(resolution.candidates@ =~= seq![resolution.target->0]);
}

} // verus!
