//! What holds of the modules that are found for the places that name them.

use crate::paths;
use crate::store::json::Json;
use crate::store::module_config;
use crate::store::module_config::FileIndex;
use crate::store::module_resolver;
use crate::store::module_resolver::ModuleOccurrence;
use crate::store::module_resolver::Resolution;
use crate::store::paths as store_paths;
use crate::text;
use crate::text::Failure;
use crate::text_laws;
use vstd::prelude::*;
use vstd::utf8;

verus! {

/// Whether a text is one of the extensions that a module of a language may have.
pub open spec fn may_end_in(language: Seq<char>, extension: Seq<char>) -> bool {
    if language == "luau"@ {
        extension == "luau"@ || extension == "lua"@
    } else {
        ||| extension == "ts"@
        ||| extension == "tsx"@
        ||| extension == "js"@
        ||| extension == "jsx"@
        ||| extension == "mts"@
        ||| extension == "cts"@
        ||| extension == "mjs"@
        ||| extension == "cjs"@
    }
}

/// Whether a path without its extension means a file: the path with an extension, or the entry
/// of the directory with that path.
pub open spec fn completes(
    path: Seq<u8>,
    language: Seq<char>,
    extension: Seq<char>,
    file: Seq<u8>,
) -> bool {
    let ending = utf8::encode_utf8(extension);
    &&& may_end_in(language, extension)
    &&& file == paths::with_extension_of(path, ending) || file == paths::with_extension_of(
        paths::joined(
            path,
            utf8::encode_utf8(
                if language == "luau"@ {
                    "init"@
                } else {
                    "index"@
                },
            ),
        ),
        ending,
    )
}

/// Whether a path may mean a file in a language.
pub open spec fn may_mean(path: Seq<u8>, language: Seq<char>, file: Seq<u8>) -> bool {
    ||| file == path
    ||| {
        &&& language != "dreammaker"@
        &&& paths::extension_of(path) is None
        &&& exists|extension: Seq<char>| #[trigger] completes(path, language, extension, file)
    }
    ||| {
        &&& language != "dreammaker"@
        &&& language != "luau"@
        &&& paths::extension_of(path) == Some(utf8::encode_utf8("js"@)) || paths::extension_of(path)
            == Some(utf8::encode_utf8("jsx"@))
        &&& file == paths::with_extension_of(path, utf8::encode_utf8("ts"@)) || file
            == paths::with_extension_of(path, utf8::encode_utf8("tsx"@))
    }
}

/// Whether a file of an index has the module with a number.
pub open spec fn has_module(index: FileIndex, file: Seq<u8>, id: i64) -> bool {
    let key = module_config::key_of(file);
    index.files@.contains_key(key) && index.files@[key].module == Some(id)
}

/// Whether a name goes from where its source is: with `./` or `../`.
pub open spec fn goes_from_here(name: Seq<char>) -> bool {
    ||| name.len() >= 2 && name[0] == '.' && name[1] == '/'
    ||| name.len() >= 3 && name[0] == '.' && name[1] == '.' && name[2] == '/'
}

/// Whether two names are the same but for the slashes that one has in place of backslashes.
pub open spec fn slashes_alike(name: Seq<char>, slashed: Seq<char>) -> bool {
    name.len() == slashed.len() && forall|i: int|
        0 <= i < name.len() ==> #[trigger] slashed[i] == if name[i] == '\\' {
            '/'
        } else {
            name[i]
        }
}

/// Whether a text has nowhere a backslash, nor a zero character.
pub open spec fn is_ordinary(name: Seq<char>) -> bool {
    forall|i: int| 0 <= i < name.len() ==> #[trigger] name[i] != '\\' && name[i] != '\0'
}

/// Whether a source of a place is in a directory.
pub open spec fn stands_in(occurrence: ModuleOccurrence, directory: Seq<u8>) -> bool {
    match store_paths::path_of(utf8::encode_utf8(occurrence.source@)) {
        Ok(source) => match paths::directory_of(source) {
            Some(parent) => directory == parent,
            None => directory.len() == 0,
        },
        Err(_) => false,
    }
}

/// Whether the name of a place leads to a path, of those that count: the first 64.
pub open spec fn names_path(
    index: FileIndex,
    directory: Seq<u8>,
    occurrence: ModuleOccurrence,
    path: Seq<u8>,
) -> bool {
    let name = occurrence.name@;
    let language = occurrence.language@;
    if occurrence.role@ == "include"@ {
        exists|slashed: Seq<char>| #[trigger]
            slashes_alike(name, slashed) && (paths::normal_path(
                paths::joined(directory, utf8::encode_utf8(slashed)),
            ) == Some(path) || paths::normal_path(utf8::encode_utf8(slashed)) == Some(path))
    } else if goes_from_here(name) {
        paths::normal_path(paths::joined(directory, utf8::encode_utf8(name))) == Some(path)
    } else if language == "luau"@ {
        if name.len() > 0 && name[0] == '@' {
            is_early(module_config::luau_paths(index, directory, name), path)
        } else {
            is_early(module_config::rojo_paths(index, name), path)
        }
    } else if language == "typescript"@ || language == "javascript"@ {
        is_early(module_config::typescript_paths(index, directory, name), path)
    } else {
        false
    }
}

/// Whether a path is among the first 64 of a list.
pub open spec fn is_early(list: Seq<Seq<u8>>, path: Seq<u8>) -> bool {
    exists|k: int| 0 <= k < list.len() && k < 64 && #[trigger] list[k] == path
}

proof fn lemma_goes_from_here(name: Seq<char>)
    ensures
        goes_from_here(name) == module_resolver::relative(name),
{
    reveal_strlit("./");
    reveal_strlit("../");
    if name.len() >= 2 {
        assert(name.subrange(0, 2) =~= "./"@ <==> name[0] == '.' && name[1] == '/') by {
            if name.subrange(0, 2) =~= "./"@ {
                assert(name.subrange(0, 2)[0] == name[0]);
                assert(name.subrange(0, 2)[1] == name[1]);
            }
        }
    }
    if name.len() >= 3 {
        assert(name.subrange(0, 3) =~= "../"@ <==> name[0] == '.' && name[1] == '.' && name[2]
            == '/') by {
            if name.subrange(0, 3) =~= "../"@ {
                assert(name.subrange(0, 3)[0] == name[0]);
                assert(name.subrange(0, 3)[1] == name[1]);
                assert(name.subrange(0, 3)[2] == name[2]);
            }
        }
    }
}

proof fn lemma_slashes_alike(name: Seq<char>, slashed: Seq<char>)
    ensures
        slashes_alike(name, slashed) <==> slashed == module_resolver::forward(name),
{
    if slashes_alike(name, slashed) {
        assert(slashed =~= module_resolver::forward(name));
    }
}

proof fn lemma_early(list: Seq<Seq<u8>>, path: Seq<u8>)
    ensures
        is_early(list, path) <==> module_config::at_most(list, 64).contains(path),
{
    let early = module_config::at_most(list, 64);
    if is_early(list, path) {
        let k = choose|k: int| 0 <= k < list.len() && k < 64 && #[trigger] list[k] == path;
        assert(early[k] == path);
    }
    if early.contains(path) {
        let k = choose|k: int| 0 <= k < early.len() && early[k] == path;
        assert(list[k] == path);
    }
}

proof fn lemma_names_path(
    index: FileIndex,
    directory: Seq<u8>,
    occurrence: ModuleOccurrence,
    path: Seq<u8>,
)
    ensures
        names_path(index, directory, occurrence, path) <==> module_config::at_most(
            module_resolver::leads(
                index,
                directory,
                occurrence.name@,
                occurrence.language@,
                occurrence.role@,
            ).0,
            64,
        ).contains(path),
{
    let name = occurrence.name@;
    let language = occurrence.language@;
    let role = occurrence.role@;
    let list = module_resolver::leads(index, directory, name, language, role).0;
    lemma_goes_from_here(name);
    lemma_early(list, path);
    if role == "include"@ {
        let included = utf8::encode_utf8(module_resolver::forward(name));
        let first = module_config::listed(paths::normal_path(paths::joined(directory, included)));
        let second = module_config::listed(paths::normal_path(included));
        lemma_slashes_alike(name, module_resolver::forward(name));
        if names_path(index, directory, occurrence, path) {
            let slashed = choose|slashed: Seq<char>| #[trigger]
                slashes_alike(name, slashed) && (paths::normal_path(
                    paths::joined(directory, utf8::encode_utf8(slashed)),
                ) == Some(path) || paths::normal_path(utf8::encode_utf8(slashed)) == Some(path));
            lemma_slashes_alike(name, slashed);
            if first.len() > 0 && first[0] == path {
                assert(list[0] == path);
            } else {
                assert(list[first.len() as int] == path);
            }
        }
        if is_early(list, path) {
            assert(slashes_alike(name, module_resolver::forward(name)));
        }
    } else if goes_from_here(name) {
        if names_path(index, directory, occurrence, path) {
            assert(list[0] == path);
        }
    }
}

proof fn lemma_with_each(
    path: Seq<u8>,
    entry: Seq<char>,
    extensions: Seq<Seq<char>>,
    file: Seq<u8>,
)
    ensures
        module_resolver::with_each(path, entry, extensions).contains(file) <==> exists|k: int|
            0 <= k < extensions.len() && completed(path, entry, #[trigger] extensions[k], file),
    decreases extensions.len(),
{
    let all = module_resolver::with_each(path, entry, extensions);
    if extensions.len() > 0 {
        let less = extensions.drop_last();
        let before = module_resolver::with_each(path, entry, less);
        lemma_with_each(path, entry, less, file);
        if all.contains(file) {
            let j = choose|j: int| 0 <= j < all.len() && all[j] == file;
            if j < before.len() {
                assert(before[j] == file);
                let k = choose|k: int|
                    0 <= k < less.len() && completed(path, entry, #[trigger] less[k], file);
                assert(extensions[k] == less[k]);
            } else {
                assert(completed(path, entry, extensions[extensions.len() - 1], file));
            }
        }
        if exists|k: int|
            0 <= k < extensions.len() && completed(path, entry, #[trigger] extensions[k], file) {
            let k = choose|k: int|
                0 <= k < extensions.len() && completed(path, entry, #[trigger] extensions[k], file);
            if k < less.len() {
                assert(less[k] == extensions[k]);
                let j = choose|j: int| 0 <= j < before.len() && before[j] == file;
                assert(all[j] == file);
            } else if file == paths::with_extension_of(path, utf8::encode_utf8(extensions[k])) {
                assert(all[before.len() as int] == file);
            } else {
                assert(all[before.len() as int + 1] == file);
            }
        }
    }
}

spec fn completed(path: Seq<u8>, entry: Seq<char>, extension: Seq<char>, file: Seq<u8>) -> bool {
    let ending = utf8::encode_utf8(extension);
    file == paths::with_extension_of(path, ending) || file == paths::with_extension_of(
        paths::joined(path, utf8::encode_utf8(entry)),
        ending,
    )
}

proof fn lemma_extensions(language: Seq<char>, extension: Seq<char>)
    ensures
        may_end_in(language, extension) <==> exists|k: int|
            0 <= k < module_resolver::extensions_of(language).len()
                && #[trigger] module_resolver::extensions_of(language)[k] == extension,
{
    let all = module_resolver::extensions_of(language);
    if language == "luau"@ {
        assert(all[0] == "luau"@ && all[1] == "lua"@);
    } else {
        assert(all[0] == "ts"@ && all[1] == "tsx"@ && all[2] == "js"@ && all[3] == "jsx"@);
        assert(all[4] == "mts"@ && all[5] == "cts"@ && all[6] == "mjs"@ && all[7] == "cjs"@);
    }
}

proof fn lemma_may_mean(path: Seq<u8>, language: Seq<char>, file: Seq<u8>)
    ensures
        may_mean(path, language, file) <==> module_resolver::variants_of(path, language).contains(
            file,
        ),
{
    let all = module_resolver::variants_of(path, language);
    assert(all[0] == path);
    let entry = module_resolver::entry_name(language);
    let extensions = module_resolver::extensions_of(language);
    if language == "dreammaker"@ {
    } else if paths::extension_of(path) is None {
        let more = module_resolver::with_each(path, entry, extensions);
        lemma_with_each(path, entry, extensions, file);
        if may_mean(path, language, file) && file != path {
            let extension = choose|extension: Seq<char>| #[trigger]
                completes(path, language, extension, file);
            lemma_extensions(language, extension);
            let k = choose|k: int| 0 <= k < extensions.len() && #[trigger] extensions[k] == extension;
            assert(completed(path, entry, extensions[k], file));
            let j = choose|j: int| 0 <= j < more.len() && more[j] == file;
            assert(all[1 + j] == file);
        }
        if all.contains(file) && file != path {
            let j = choose|j: int| 0 <= j < all.len() && all[j] == file;
            assert(more[j - 1] == file);
            let k = choose|k: int|
                0 <= k < extensions.len() && completed(path, entry, #[trigger] extensions[k], file);
            lemma_extensions(language, extensions[k]);
            assert(completes(path, language, extensions[k], file));
        }
    } else if language != "luau"@ && (paths::extension_of(path)->0 == utf8::encode_utf8("js"@)
        || paths::extension_of(path)->0 == utf8::encode_utf8("jsx"@)) {
        assert(all[1] == paths::with_extension_of(path, utf8::encode_utf8("ts"@)));
        assert(all[2] == paths::with_extension_of(path, utf8::encode_utf8("tsx"@)));
    }
}

proof fn lemma_all_variants(list: Seq<Seq<u8>>, language: Seq<char>, file: Seq<u8>)
    ensures
        module_resolver::all_variants(list, language).contains(file) <==> exists|k: int|
            0 <= k < list.len() && may_mean(#[trigger] list[k], language, file),
    decreases list.len(),
{
    if list.len() > 0 {
        let less = list.drop_last();
        let all = module_resolver::all_variants(list, language);
        let before = module_resolver::all_variants(less, language);
        let last = module_resolver::variants_of(list.last(), language);
        lemma_all_variants(less, language, file);
        lemma_may_mean(list.last(), language, file);
        if all.contains(file) {
            let j = choose|j: int| 0 <= j < all.len() && all[j] == file;
            if j < before.len() {
                assert(before[j] == file);
                let k = choose|k: int|
                    0 <= k < less.len() && may_mean(#[trigger] less[k], language, file);
                assert(list[k] == less[k]);
            } else {
                assert(last[j - before.len()] == file);
                assert(may_mean(list[list.len() - 1], language, file));
            }
        }
        if exists|k: int| 0 <= k < list.len() && may_mean(#[trigger] list[k], language, file) {
            let k = choose|k: int|
                0 <= k < list.len() && may_mean(#[trigger] list[k], language, file);
            if k < less.len() {
                assert(less[k] == list[k]);
                let j = choose|j: int| 0 <= j < before.len() && before[j] == file;
                assert(all[j] == file);
            } else {
                let j = choose|j: int| 0 <= j < last.len() && last[j] == file;
                assert(all[before.len() + j] == file);
            }
        }
    }
}

spec fn files_of(index: FileIndex, directory: Seq<u8>, occurrence: ModuleOccurrence) -> Seq<
    Seq<u8>,
> {
    module_resolver::all_variants(
        module_config::at_most(
            module_resolver::leads(
                index,
                directory,
                occurrence.name@,
                occurrence.language@,
                occurrence.role@,
            ).0,
            64,
        ),
        occurrence.language@,
    )
}

proof fn lemma_stands_in(occurrence: ModuleOccurrence, source: Seq<u8>, directory: Seq<u8>)
    requires
        store_paths::path_of(utf8::encode_utf8(occurrence.source@)) == Ok::<Seq<u8>, Seq<char>>(
            source,
        ),
        stands_in(occurrence, directory),
    ensures
        directory == module_resolver::home_of(source),
{
    if paths::directory_of(source) is None {
        assert(directory =~= Seq::<u8>::empty());
    }
}

/// A place may mean each module in a file that a path which it names may mean: such a module is
/// among the candidates.
pub proof fn law_named_modules_are_candidates(
    index: FileIndex,
    directory: Seq<u8>,
    occurrence: ModuleOccurrence,
    resolution: Option<Resolution>,
    path: Seq<u8>,
    file: Seq<u8>,
    id: i64,
)
    requires
        module_resolver::occurrence_result(index, occurrence, Ok(resolution)),
        stands_in(occurrence, directory),
        occurrence.role@ == "include"@ ==> text_laws::is_free_of(occurrence.name@, '\0'),
        occurrence.role@ != "include"@ ==> is_ordinary(occurrence.name@),
        names_path(index, directory, occurrence, path),
        may_mean(path, occurrence.language@, file),
        has_module(index, file, id),
    ensures
        resolution is Some,
        resolution->0.candidates@.contains(id),
{
    let source = store_paths::path_of(utf8::encode_utf8(occurrence.source@))->Ok_0;
    lemma_stands_in(occurrence, source, directory);
    let files = files_of(index, directory, occurrence);
    lemma_names_path(index, directory, occurrence, path);
    let early = module_config::at_most(
        module_resolver::leads(
            index,
            directory,
            occurrence.name@,
            occurrence.language@,
            occurrence.role@,
        ).0,
        64,
    );
    let k = choose|k: int| 0 <= k < early.len() && early[k] == path;
    assert(may_mean(early[k], occurrence.language@, file));
    lemma_all_variants(early, occurrence.language@, file);
    let j = choose|j: int| 0 <= j < files.len() && files[j] == file;
    assert(index.module_at(files[j]) == Some(id));
    assert(module_resolver::reached(index, files, id));
}

/// Each candidate is the module in a file that a path which the place names may mean. The
/// candidates rise, and there is at least one where anything is found.
pub proof fn law_candidates_are_named_modules(
    index: FileIndex,
    directory: Seq<u8>,
    occurrence: ModuleOccurrence,
    resolution: Resolution,
    id: i64,
) -> (found: (Seq<u8>, Seq<u8>))
    requires
        module_resolver::occurrence_result(index, occurrence, Ok(Some(resolution))),
        stands_in(occurrence, directory),
        resolution.candidates@.contains(id),
    ensures
        names_path(index, directory, occurrence, found.0),
        may_mean(found.0, occurrence.language@, found.1),
        has_module(index, found.1, id),
        forall|i: int, j: int|
            0 <= i < j < resolution.candidates@.len() ==> #[trigger] resolution.candidates@[i]
                < #[trigger] resolution.candidates@[j],
{
    let source = store_paths::path_of(utf8::encode_utf8(occurrence.source@))->Ok_0;
    lemma_stands_in(occurrence, source, directory);
    let files = files_of(index, directory, occurrence);
    assert(module_resolver::reached(index, files, id));
    let i = choose|i: int| 0 <= i < files.len() && index.module_at(#[trigger] files[i]) == Some(id);
    let early = module_config::at_most(
        module_resolver::leads(
            index,
            directory,
            occurrence.name@,
            occurrence.language@,
            occurrence.role@,
        ).0,
        64,
    );
    assert(files.contains(files[i]));
    lemma_all_variants(early, occurrence.language@, files[i]);
    let k = choose|k: int|
        0 <= k < early.len() && may_mean(#[trigger] early[k], occurrence.language@, files[i]);
    assert(early.contains(early[k]));
    lemma_names_path(index, directory, occurrence, early[k]);
    (early[k], files[i])
}

/// A place means a module for certain just where it is a static import that goes from where its
/// source is and names the file of the only candidate to the letter.
pub proof fn law_exact_imports_mean_their_module(
    index: FileIndex,
    directory: Seq<u8>,
    occurrence: ModuleOccurrence,
    resolution: Resolution,
    id: i64,
)
    requires
        module_resolver::occurrence_result(index, occurrence, Ok(Some(resolution))),
        stands_in(occurrence, directory),
    ensures
        resolution.target == Some(id) <==> {
            &&& resolution.candidates@ == seq![id]
            &&& occurrence.role@ == "import_path"@
            &&& goes_from_here(occurrence.name@)
            &&& paths::normal_path(
                paths::joined(directory, utf8::encode_utf8(occurrence.name@)),
            ) matches Some(path) && has_module(index, path, id)
        },
{
    let source = store_paths::path_of(utf8::encode_utf8(occurrence.source@))->Ok_0;
    lemma_stands_in(occurrence, source, directory);
    lemma_goes_from_here(occurrence.name@);
    assert("import_path"@ != "include"@) by {
        reveal_strlit("import_path");
        reveal_strlit("include");
        assert("import_path"@.len() != "include"@.len());
    }
    lemma_ways_differ();
    if resolution.candidates@.len() == 1 && resolution.candidates@[0] == id {
        assert(resolution.candidates@ =~= seq![id]);
    }
    if resolution.target == Some(id) && !goes_from_here(occurrence.name@) {
        let files = files_of(index, directory, occurrence);
        assert(resolution.candidates@.contains(id));
        assert(module_resolver::reached(index, files, id));
        assert(files =~= Seq::<Seq<u8>>::empty());
    }
}

proof fn lemma_ways_differ()
    ensures
        "relative_module_path"@ != "observed_include_path"@,
        "relative_module_path"@ != "luaurc_alias"@,
        "relative_module_path"@ != "configured_rojo_mapping"@,
        "relative_module_path"@ != "typescript_paths"@,
{
    reveal_strlit("relative_module_path");
    reveal_strlit("observed_include_path");
    reveal_strlit("luaurc_alias");
    reveal_strlit("configured_rojo_mapping");
    reveal_strlit("typescript_paths");
    assert("relative_module_path"@[0] == 'r');
    assert("observed_include_path"@[0] == 'o');
    assert("luaurc_alias"@[0] == 'l');
    assert("configured_rojo_mapping"@[0] == 'c');
    assert("typescript_paths"@[0] == 't');
}

/// What was found says how: behind its own provenance and a semicolon, the way in which the name
/// was followed; and an include stays one, while an import is one for certain only with a target.
pub proof fn law_resolutions_say_how_they_were_found(
    index: FileIndex,
    directory: Seq<u8>,
    occurrence: ModuleOccurrence,
    resolution: Resolution,
)
    requires
        module_resolver::occurrence_result(index, occurrence, Ok(Some(resolution))),
        stands_in(occurrence, directory),
    ensures
        ({
            let own = occurrence.provenance@;
            let name = occurrence.name@;
            if occurrence.role@ == "include"@ {
                &&& resolution.provenance@ == own + ";"@ + "observed_include_path"@
                &&& resolution.kind@ == "include_candidate"@
                &&& resolution.target is None
            } else {
                &&& resolution.kind@ == if resolution.target is Some {
                    "import"@
                } else {
                    "import_candidate"@
                }
                &&& resolution.provenance@ == own + ";"@ + if goes_from_here(name) {
                    "relative_module_path"@
                } else if occurrence.language@ == "luau"@ {
                    if name.len() > 0 && name[0] == '@' {
                        "luaurc_alias"@
                    } else {
                        "configured_rojo_mapping"@
                    }
                } else {
                    "typescript_paths"@
                }
            }
        }),
{
    let source = store_paths::path_of(utf8::encode_utf8(occurrence.source@))->Ok_0;
    lemma_stands_in(occurrence, source, directory);
    lemma_goes_from_here(occurrence.name@);
    lemma_ways_differ();
    assert("import_path"@ != "include"@) by {
        reveal_strlit("import_path");
        reveal_strlit("include");
        assert("import_path"@.len() != "include"@.len());
    }
    let id = resolution.candidates@[0];
    assert(resolution.candidates@.contains(id));
    let found = law_candidates_are_named_modules(index, directory, occurrence, resolution, id);
}

/// Nothing is looked for where the name has a zero character, nor where a name that is no
/// include has a backslash.
pub proof fn law_strange_names_find_nothing(
    index: FileIndex,
    occurrence: ModuleOccurrence,
    resolution: Option<Resolution>,
    i: int,
)
    requires
        module_resolver::occurrence_result(index, occurrence, Ok(resolution)),
        0 <= i < occurrence.name@.len(),
        occurrence.name@[i] == '\0' || (occurrence.name@[i] == '\\' && occurrence.role@
            != "include"@),
    ensures
        resolution is None,
{
    if occurrence.name@[i] == '\0' {
        assert(module_resolver::holds(occurrence.name@, '\0'));
    } else {
        assert(module_resolver::holds(occurrence.name@, '\\'));
    }
}

/// What a tree has below so many of some segments.
pub open spec fn node_at(tree: Json, segments: Seq<Seq<char>>, depth: nat) -> Json
    decreases depth,
{
    if depth == 0 {
        tree
    } else {
        node_at(tree, segments, (depth - 1) as nat).at(segments[depth - 1])
    }
}

proof fn lemma_node_below(tree: Json, segments: Seq<Seq<char>>, depth: nat)
    requires
        depth < segments.len(),
    ensures
        node_at(tree.at(segments[0]), segments.skip(1), depth) == node_at(
            tree,
            segments,
            depth + 1,
        ),
    decreases depth,
{
    if depth == 0 {
        assert(node_at(tree, segments, 1) == node_at(tree, segments, 0).at(segments[0]));
    } else {
        lemma_node_below(tree, segments, (depth - 1) as nat);
        assert(segments.skip(1)[depth - 1] == segments[depth as int]);
    }
}

/// Whether a node of a tree has a path.
pub open spec fn has_path(node: Json) -> bool {
    node.at("$path"@) is Text
}

proof fn lemma_nothing_below(
    tree: Json,
    segments: Seq<Seq<char>>,
    directory: Seq<u8>,
    found: Option<Seq<u8>>,
)
    requires
        forall|d: nat|
            0 < d <= segments.len() ==> !has_path(#[trigger] node_at(tree, segments, d)),
    ensures
        module_config::descended(tree, segments, directory, found) == found,
    decreases segments.len(),
{
    if segments.len() > 0 {
        let next = tree.at(segments[0]);
        let rest = segments.skip(1);
        assert forall|d: nat| 0 < d <= rest.len() implies !has_path(
            #[trigger] node_at(next, rest, d),
        ) by {
            lemma_node_below(tree, segments, d);
        }
        lemma_node_below(tree, segments, 0);
        assert(node_at(tree, segments, 1) == next);
        lemma_nothing_below(next, rest, directory, found);
    }
}

proof fn lemma_null_stays(segments: Seq<Seq<char>>, depth: nat)
    ensures
        node_at(Json::Null, segments, depth) is Null,
    decreases depth,
{
    if depth > 0 {
        lemma_null_stays(segments, (depth - 1) as nat);
    }
}

proof fn lemma_deepest(
    tree: Json,
    segments: Seq<Seq<char>>,
    directory: Seq<u8>,
    found: Option<Seq<u8>>,
    depth: nat,
)
    requires
        0 < depth <= segments.len(),
        has_path(node_at(tree, segments, depth)),
        forall|d: nat|
            depth < d <= segments.len() ==> !has_path(#[trigger] node_at(tree, segments, d)),
    ensures
        module_config::descended(tree, segments, directory, found) == paths::normal_path(
            module_config::continued(
                paths::joined(
                    directory,
                    utf8::encode_utf8(node_at(tree, segments, depth).at("$path"@)->Text_0),
                ),
                segments.skip(depth as int),
            ),
        ),
    decreases segments.len(),
{
    let next = tree.at(segments[0]);
    let rest = segments.skip(1);
    lemma_node_below(tree, segments, 0);
    assert(node_at(next, rest, 0) == next);
    assert(node_at(tree, segments, 1) == next);
    lemma_node_below(tree, segments, (depth - 1) as nat);
    if next is Null {
        lemma_null_stays(rest, (depth - 1) as nat);
        assert(node_at(tree, segments, depth) is Null);
        assert(!Json::Null.has("$path"@));
    }
    assert forall|d: nat| depth - 1 < d <= rest.len() implies !has_path(
        #[trigger] node_at(next, rest, d),
    ) by {
        lemma_node_below(tree, segments, d);
    }
    let held = match next.at("$path"@) {
        Json::Text(path) => paths::normal_path(
            module_config::continued(paths::joined(directory, utf8::encode_utf8(path)), rest),
        ),
        _ => found,
    };
    if depth == 1 {
        lemma_nothing_below(next, rest, directory, held);
    } else {
        lemma_deepest(next, rest, directory, held, (depth - 1) as nat);
        assert(rest.skip(depth - 1) =~= segments.skip(depth as int));
    }
}

/// The project of Rojo that is configured: its path, where that is, and its tree.
pub open spec fn is_project(
    index: FileIndex,
    project: Seq<u8>,
    directory: Seq<u8>,
    tree: Json,
) -> bool {
    &&& index.config_at(utf8::encode_utf8("trufflepig.json"@)) matches Some(config)
        && config.at("rojo_project"@) matches Json::Text(named)
        && paths::normal_path(utf8::encode_utf8(named)) == Some(project)
    &&& index.config_at(project) matches Some(whole) && whole.at("tree"@) == tree
    &&& match paths::directory_of(project) {
        Some(parent) => directory == parent,
        None => directory.len() == 0,
    }
}

/// A name leads down the tree of the configured project: to the path of the deepest node on its
/// way that has one, continued by the segments below that node.
pub proof fn law_rojo_names_lead_to_the_deepest_path(
    index: FileIndex,
    name: Seq<char>,
    project: Seq<u8>,
    directory: Seq<u8>,
    tree: Json,
    depth: nat,
    mapped: Seq<char>,
)
    requires
        is_project(index, project, directory, tree),
        0 < depth <= module_config::segments_of(name).len(),
        node_at(tree, module_config::segments_of(name), depth).at("$path"@) == Json::Text(mapped),
        forall|d: nat|
            depth < d <= module_config::segments_of(name).len() ==> !has_path(
                #[trigger] node_at(tree, module_config::segments_of(name), d),
            ),
    ensures
        match paths::normal_path(
            module_config::continued(
                paths::joined(directory, utf8::encode_utf8(mapped)),
                module_config::segments_of(name).skip(depth as int),
            ),
        ) {
            Some(path) => module_config::rojo_paths(index, name) == seq![path],
            None => module_config::rojo_paths(index, name).len() == 0,
        },
{
    if paths::directory_of(project) is None {
        assert(directory =~= Seq::<u8>::empty());
    }
    lemma_deepest(tree, module_config::segments_of(name), directory, None, depth);
}

/// A name leads nowhere in a project where no node on its way has a path.
pub proof fn law_rojo_names_without_a_path_lead_nowhere(
    index: FileIndex,
    name: Seq<char>,
    project: Seq<u8>,
    directory: Seq<u8>,
    tree: Json,
)
    requires
        is_project(index, project, directory, tree),
        forall|d: nat|
            0 < d <= module_config::segments_of(name).len() ==> !has_path(
                #[trigger] node_at(tree, module_config::segments_of(name), d),
            ),
    ensures
        module_config::rojo_paths(index, name).len() == 0,
{
    if paths::directory_of(project) is None {
        assert(directory =~= Seq::<u8>::empty());
    }
    lemma_nothing_below(tree, module_config::segments_of(name), directory, None);
}

/// A path is continued by one segment after the other.
pub proof fn law_paths_are_continued_segment_by_segment(
    path: Seq<u8>,
    segments: Seq<Seq<char>>,
    last: Seq<char>,
)
    ensures
        module_config::continued(path, segments.push(last)) == paths::joined(
            module_config::continued(path, segments),
            utf8::encode_utf8(last),
        ),
        module_config::continued(path, Seq::empty()) == path,
    decreases segments.len(),
{
    let all = segments.push(last);
    if segments.len() == 0 {
        assert(all.skip(1) =~= Seq::<Seq<char>>::empty());
        assert(all[0] == last);
        assert(module_config::continued(
            paths::joined(path, utf8::encode_utf8(last)),
            Seq::<Seq<char>>::empty(),
        ) == paths::joined(path, utf8::encode_utf8(last)));
    } else {
        let next = paths::joined(path, utf8::encode_utf8(segments[0]));
        assert(all[0] == segments[0]);
        assert(all.skip(1) =~= segments.skip(1).push(last));
        law_paths_are_continued_segment_by_segment(next, segments.skip(1), last);
    }
}

/// A name of Luau is the same with and without `game.` before it; its segments end at dots and
/// slashes.
pub proof fn law_segments_end_at_dots_and_slashes(
    segment: Seq<char>,
    between: char,
    rest: Seq<char>,
)
    requires
        text_laws::is_free_of(segment, '.'),
        text_laws::is_free_of(segment, '/'),
        between == '.' || between == '/',
    ensures
        module_config::segments_of("game."@ + segment) == seq![segment],
        module_config::segments_of("game."@ + (segment + seq![between] + rest)) == seq![segment]
            + module_config::segments_of("game."@ + rest),
        !text::begins_with(rest, "game."@) ==> module_config::segments_of(rest)
            == module_config::segments_of("game."@ + rest),
{
    lemma_below_game(segment);
    lemma_below_game(segment + seq![between] + rest);
    lemma_below_game(rest);
    assert(slashed(segment) =~= segment);
    assert(slashed(segment + seq![between] + rest) =~= segment + seq!['/'] + slashed(rest));
    text_laws::law_parts_follow_each_other(segment, slashed(rest), '/');
    text_laws::law_texts_without_separator_are_one_part(segment, '/');
    reveal_strlit("game.");
    if rest.len() >= 5 && rest.take(5) == "game."@ {
        assert(rest.subrange(0, 5) =~= rest.take(5));
        assert(text::begins_with(rest, "game."@));
    }
    assert(slashed(rest) =~= Seq::new(
        rest.len(),
        |i: int|
            if rest[i] == '.' {
                '/'
            } else {
                rest[i]
            },
    ));
}

spec fn slashed(s: Seq<char>) -> Seq<char> {
    Seq::new(
        s.len(),
        |i: int|
            if s[i] == '.' {
                '/'
            } else {
                s[i]
            },
    )
}

proof fn lemma_below_game(s: Seq<char>)
    ensures
        module_config::segments_of("game."@ + s) == text::parts(slashed(s), '/'),
{
    reveal_strlit("game.");
    let name = "game."@ + s;
    assert(name.take(5) =~= "game."@);
    assert(name.skip(5) =~= s);
    let inner = name.skip(5);
    assert(Seq::new(
        inner.len(),
        |i: int|
            if inner[i] == '.' {
                '/'
            } else {
                inner[i]
            },
    ) =~= slashed(s));
}

/// Each place has its own result, at the same index, unless the path of a file that names a
/// module cannot be read.
pub proof fn law_every_place_has_its_result(
    index: FileIndex,
    occurrences: Seq<ModuleOccurrence>,
    result: Result<Vec<Option<Resolution>>, Failure>,
)
    requires
        module_resolver::resolved_in_order(index, occurrences, result),
    ensures
        result matches Ok(found) ==> found@.len() == occurrences.len() && forall|i: int|
            0 <= i < occurrences.len() ==> module_resolver::occurrence_result(
                index,
                occurrences[i],
                Ok(#[trigger] found@[i]),
            ),
        result is Err ==> exists|i: int|
            0 <= i < occurrences.len() && store_paths::path_of(
                utf8::encode_utf8((#[trigger] occurrences[i]).source@),
            ) is Err,
{
}

} // verus!
