//! What holds of the modules that imports may mean.

use crate::paths;
use crate::store::json::Json;
use crate::store::module_config;
use crate::store::module_config::FileIndex;
use vstd::prelude::*;
use vstd::utf8;

verus! {

/// The directory so many steps around another one.
pub open spec fn around(directory: Seq<u8>, steps: nat) -> Option<Seq<u8>>
    decreases steps,
{
    if steps == 0 {
        Some(directory)
    } else {
        match around(directory, (steps - 1) as nat) {
            Some(inner) => paths::directory_of(inner),
            None => None,
        }
    }
}

/// Whether a directory has a file with a name.
pub open spec fn has_file(index: FileIndex, directory: Seq<u8>, filename: Seq<u8>) -> bool {
    index.files@.contains_key(module_config::key_of(paths::joined(directory, filename)))
}

/// Whether a file is missing in a directory and in those around it, up to so many steps.
pub open spec fn missing_up_to(
    index: FileIndex,
    directory: Seq<u8>,
    filename: Seq<u8>,
    steps: nat,
) -> bool {
    forall|k: nat|
        k < steps ==> (#[trigger] around(directory, k) matches Some(inner) ==> !has_file(
            index,
            inner,
            filename,
        ))
}

proof fn lemma_parent_is_shorter(path: Seq<u8>)
    ensures
        paths::directory_of(path) matches Some(parent) ==> parent.len() < path.len(),
{
    paths::lemma_directory_is_shorter(path);
}

/// Steps around a directory, from the directory around it.
proof fn lemma_around_parent(directory: Seq<u8>, parent: Seq<u8>, steps: nat)
    requires
        paths::directory_of(directory) == Some(parent),
    ensures
        around(directory, steps + 1) == around(parent, steps),
    decreases steps,
{
    if steps > 0 {
        lemma_around_parent(directory, parent, (steps - 1) as nat);
    } else {
        assert(around(directory, 0) == Some(directory));
    }
}

/// The nearest configuration is that of the innermost directory with such a file, among a
/// directory and all those around it, with that directory. A file that cannot be read hides those
/// further out.
pub proof fn law_nearest_configuration_applies(
    index: FileIndex,
    directory: Seq<u8>,
    filename: Seq<u8>,
    steps: nat,
)
    requires
        around(directory, steps) is Some,
        has_file(index, around(directory, steps)->0, filename),
        missing_up_to(index, directory, filename, steps),
    ensures
        ({
            let outer = around(directory, steps)->0;
            module_config::nearest_config(index, directory, filename) == match index.config_at(
                paths::joined(outer, filename),
            ) {
                Some(config) => Some((outer, config)),
                None => None,
            }
        }),
    decreases steps,
{
    if steps > 0 {
        assert(around(directory, 0) == Some(directory));
        assert(!has_file(index, directory, filename));
        lemma_around_known(directory, 1, steps);
        let parent = around(directory, 1)->0;
        assert(around(directory, 1) == paths::directory_of(directory));
        lemma_parent_is_shorter(directory);
        lemma_around_parent(directory, parent, (steps - 1) as nat);
        assert forall|k: nat| k < steps - 1 implies (#[trigger] around(
            parent,
            k,
        ) matches Some(inner) ==> !has_file(index, inner, filename)) by {
            lemma_around_parent(directory, parent, k);
            assert(around(directory, k + 1) == around(parent, k));
        }
        law_nearest_configuration_applies(index, parent, filename, (steps - 1) as nat);
    }
}

/// A directory that is so many steps around has directories at every step before.
proof fn lemma_around_known(directory: Seq<u8>, m: nat, n: nat)
    requires
        m <= n,
        around(directory, n) is Some,
    ensures
        around(directory, m) is Some,
    decreases n - m,
{
    if m < n {
        lemma_around_known(directory, m, (n - 1) as nat);
    }
}

/// A configuration that is found is in a directory itself or around it, in a file with the name
/// that was asked for, and no directory further in has such a file.
pub proof fn law_found_configurations_are_nearest(
    index: FileIndex,
    directory: Seq<u8>,
    filename: Seq<u8>,
) -> (steps: nat)
    requires
        module_config::nearest_config(index, directory, filename) is Some,
    ensures
        ({
            let (outer, config) = module_config::nearest_config(index, directory, filename)->0;
            &&& around(directory, steps) == Some(outer)
            &&& has_file(index, outer, filename)
            &&& missing_up_to(index, directory, filename, steps)
            &&& index.config_at(paths::joined(outer, filename)) == Some(config)
        }),
    decreases directory.len(),
{
    assert(around(directory, 0) == Some(directory));
    if has_file(index, directory, filename) {
        0
    } else {
        let parent = paths::directory_of(directory)->0;
        lemma_parent_is_shorter(directory);
        let steps = law_found_configurations_are_nearest(index, parent, filename);
        lemma_around_parent(directory, parent, steps);
        assert forall|k: nat| k < steps + 1 implies (#[trigger] around(
            directory,
            k,
        ) matches Some(inner) ==> !has_file(index, inner, filename)) by {
            if k > 0 {
                lemma_around_parent(directory, parent, (k - 1) as nat);
                assert(around(directory, k) == around(parent, (k - 1) as nat));
            }
        }
        steps + 1
    }
}

/// Whether a text has no star.
pub open spec fn starless(text: Seq<char>) -> bool {
    forall|i: int| 0 <= i < text.len() ==> #[trigger] text[i] != '*'
}

/// Whether a name matches a pattern, where its star stands for `wildcard`: without a star it is
/// the pattern.
pub open spec fn stands_for_star(pattern: Seq<char>, name: Seq<char>, wildcard: Seq<char>) -> bool {
    ||| starless(pattern) && name == pattern && wildcard.len() == 0
    ||| exists|front: Seq<char>, back: Seq<char>|
        {
            &&& starless(front)
            &&& starless(back)
            &&& pattern == front + seq!['*'] + back
            &&& name == #[trigger] (front + wildcard + back)
        }
}

proof fn lemma_first_star(text: Seq<char>)
    ensures
        module_config::first_place(text, '*') < 0 <==> starless(text),
        module_config::first_place(text, '*') >= 0 ==> {
            let at = module_config::first_place(text, '*');
            &&& at < text.len()
            &&& text[at] == '*'
            &&& starless(text.take(at))
            &&& text == text.take(at) + seq!['*'] + text.skip(at + 1)
        },
    decreases text.len(),
{
    if text.len() > 0 {
        let less = text.drop_last();
        lemma_first_star(less);
        let before = module_config::first_place(less, '*');
        if before >= 0 {
            assert(text[before] == less[before]);
            assert(text.take(before) =~= less.take(before));
            assert(text =~= text.take(before) + seq!['*'] + text.skip(before + 1));
        } else {
            assert forall|i: int| 0 <= i < less.len() implies #[trigger] text[i] != '*' by {
                assert(less[i] == text[i]);
            }
            if text.last() == '*' {
                let at = text.len() - 1;
                assert(text[at] == '*');
                assert(text.take(at) =~= less);
                assert(text =~= text.take(at) + seq!['*'] + text.skip(at + 1));
            } else {
                assert(text[text.len() - 1] != '*');
                assert(starless(text));
            }
        }
    }
}

proof fn lemma_star_after(front: Seq<char>, back: Seq<char>)
    requires
        starless(front),
    ensures
        module_config::first_place(front + seq!['*'] + back, '*') == front.len(),
{
    let text = front + seq!['*'] + back;
    lemma_first_star(text);
    let at = module_config::first_place(text, '*');
    assert(text[front.len() as int] == '*');
    if at < 0 {
        assert(false);
    } else if at < front.len() {
        assert(text[at] == front[at]);
    } else if at > front.len() {
        assert(text.take(at)[front.len() as int] == '*');
    }
}

/// A pattern matches just the names that have, in place of its star, anything: the wildcard is
/// that. A pattern without a star matches itself, and one with two stars matches nothing.
pub proof fn law_patterns_match_by_their_star(
    pattern: Seq<char>,
    name: Seq<char>,
    wildcard: Seq<char>,
)
    ensures
        module_config::matched(pattern, name) == Some(wildcard) <==> stands_for_star(
            pattern,
            name,
            wildcard,
        ),
{
    lemma_first_star(pattern);
    let star = module_config::first_place(pattern, '*');
    if star < 0 {
        if wildcard.len() == 0 {
            assert(wildcard =~= Seq::<char>::empty());
        }
        assert forall|front: Seq<char>, back: Seq<char>|
            pattern != front + seq!['*'] + back || name != #[trigger] (front + wildcard
                + back) by {
            let other = front + seq!['*'] + back;
            assert(other[front.len() as int] == '*');
        }
    } else {
        let prefix = pattern.take(star);
        let suffix = pattern.skip(star + 1);
        lemma_first_star(suffix);
        if module_config::matched(pattern, name) == Some(wildcard) {
            assert(name =~= prefix + wildcard + suffix);
            assert(stands_for_star(pattern, name, wildcard));
        }
        if stands_for_star(pattern, name, wildcard) {
            let (front, back) = choose|front: Seq<char>, back: Seq<char>|
                {
                    &&& starless(front)
                    &&& starless(back)
                    &&& pattern == front + seq!['*'] + back
                    &&& name == #[trigger] (front + wildcard + back)
                };
            lemma_star_after(front, back);
            assert(prefix =~= front);
            assert(suffix =~= back);
            assert(name.take(front.len() as int) =~= front);
            assert(name.skip(name.len() - back.len()) =~= back);
            assert(name.subrange(front.len() as int, name.len() - back.len()) =~= wildcard);
        }
    }
}

/// A replacement has the wildcard in place of its star; without a star it stays as it is, and
/// with two stars it is none.
pub proof fn law_replacements_are_filled(replacement: Seq<char>, wildcard: Seq<char>)
    ensures
        starless(replacement) ==> module_config::filled(replacement, wildcard) == Some(
            replacement,
        ),
        forall|front: Seq<char>, back: Seq<char>|
            starless(front) && starless(back) ==> module_config::filled(
                #[trigger] (front + seq!['*'] + back),
                wildcard,
            ) == Some(front + wildcard + back),
{
    lemma_first_star(replacement);
    assert forall|front: Seq<char>, back: Seq<char>|
        starless(front) && starless(back) implies module_config::filled(
        #[trigger] (front + seq!['*'] + back),
        wildcard,
    ) == Some(front + wildcard + back) by {
        let text = front + seq!['*'] + back;
        lemma_star_after(front, back);
        assert(text.take(front.len() as int) =~= front);
        assert(text.skip(front.len() as int + 1) =~= back);
        lemma_first_star(back);
    }
}

/// The configuration of TypeScript or JavaScript that applies in a directory: the nearest
/// `tsconfig.json`, and without one the nearest `jsconfig.json`.
pub open spec fn applies_to(
    index: FileIndex,
    directory: Seq<u8>,
    place: Seq<u8>,
    config: Json,
) -> bool {
    let first = module_config::nearest_config(
        index,
        directory,
        utf8::encode_utf8("tsconfig.json"@),
    );
    first == Some((place, config)) || (first is None && module_config::nearest_config(
        index,
        directory,
        utf8::encode_utf8("jsconfig.json"@),
    ) == Some((place, config)))
}

/// Where the paths of a configuration begin: at its `baseUrl`, and without one where it is.
pub open spec fn base_of(place: Seq<u8>, config: Json) -> Seq<u8> {
    match config.at("compilerOptions"@).at("baseUrl"@) {
        Json::Text(url) => paths::joined(place, utf8::encode_utf8(url)),
        _ => paths::joined(place, utf8::encode_utf8("."@)),
    }
}

/// Whether an item of a list is among the first 32 texts in it.
pub open spec fn among_first_texts(items: Seq<Json>, k: int) -> bool {
    items.take(k).filter(|item: Json| item is Text).len() < 32
}

proof fn lemma_texts_count(items: Seq<Json>)
    ensures
        module_config::texts(items).len() == items.filter(|item: Json| item is Text).len(),
    decreases items.len(),
{
    reveal(Seq::filter);
    if items.len() > 0 {
        lemma_texts_count(items.drop_last());
    }
}

/// The texts of a list have a text of it at the place that is the number of texts before it.
proof fn lemma_text_at(items: Seq<Json>, k: int)
    requires
        0 <= k < items.len(),
        items[k] is Text,
    ensures
        module_config::texts(items.take(k)).len() < module_config::texts(items).len(),
        module_config::texts(items)[module_config::texts(items.take(k)).len() as int]
            == items[k]->Text_0,
    decreases items.len(),
{
    if k == items.len() - 1 {
        assert(items.take(k) =~= items.drop_last());
        assert(items.last() == items[k]);
    } else {
        lemma_text_at(items.drop_last(), k);
        assert(items.drop_last().take(k) =~= items.take(k));
        assert(items.drop_last()[k] == items[k]);
    }
}

proof fn lemma_replaced_holds(
    base: Seq<u8>,
    replacements: Seq<Seq<char>>,
    wildcard: Seq<char>,
    k: int,
    path: Seq<u8>,
)
    requires
        0 <= k < replacements.len(),
        module_config::replaced(base, replacements[k], wildcard) == Some(path),
    ensures
        module_config::all_replaced(base, replacements, wildcard).contains(path),
    decreases replacements.len(),
{
    let all = module_config::all_replaced(base, replacements, wildcard);
    let less = replacements.drop_last();
    let before = module_config::all_replaced(base, less, wildcard);
    if k == replacements.len() - 1 {
        assert(all[all.len() - 1] == path);
    } else {
        assert(less[k] == replacements[k]);
        lemma_replaced_holds(base, less, wildcard, k, path);
        let j = choose|j: int| 0 <= j < before.len() && before[j] == path;
        assert(all[j] == path);
    }
}

proof fn lemma_mapped_holds(
    base: Seq<u8>,
    members: Seq<(Seq<char>, Json)>,
    name: Seq<char>,
    m: int,
    wildcard: Seq<char>,
    path: Seq<u8>,
)
    requires
        0 <= m < members.len(),
        module_config::matched(members[m].0, name) == Some(wildcard),
        module_config::value_replaced(base, members[m].1, wildcard).contains(path),
    ensures
        module_config::mapped(base, members, name).contains(path),
    decreases members.len(),
{
    let all = module_config::mapped(base, members, name);
    let less = members.drop_last();
    let before = module_config::mapped(base, less, name);
    if m == members.len() - 1 {
        let more = module_config::value_replaced(base, members[m].1, wildcard);
        let j = choose|j: int| 0 <= j < more.len() && more[j] == path;
        assert(all[before.len() + j] == path);
    } else {
        assert(less[m] == members[m]);
        lemma_mapped_holds(base, less, name, m, wildcard, path);
        let j = choose|j: int| 0 <= j < before.len() && before[j] == path;
        assert(all[j] == path);
    }
}

/// An alias of TypeScript leads to each of its first 32 replacements: a name that matches a
/// pattern of `paths` leads to the replacement, with what the star of the pattern stands for in
/// place of its star, from the base of the configuration that applies. One that builds on another
/// leads nowhere.
pub proof fn law_typescript_aliases_lead_to_their_replacements(
    index: FileIndex,
    directory: Seq<u8>,
    name: Seq<char>,
    place: Seq<u8>,
    config: Json,
    m: int,
    k: int,
    wildcard: Seq<char>,
    front: Seq<char>,
    back: Seq<char>,
    path: Seq<u8>,
)
    requires
        applies_to(index, directory, place, config),
        !config.has("extends"@),
        config.at("compilerOptions"@).at("paths"@) is Object,
        ({
            let members = config.at("compilerOptions"@).at("paths"@)->Object_0;
            &&& 0 <= m < members.len()
            &&& stands_for_star(members[m].0, name, wildcard)
            &&& members[m].1 is List
            &&& 0 <= k < members[m].1->List_0.len()
            &&& members[m].1->List_0[k] == Json::Text(front + seq!['*'] + back)
            &&& among_first_texts(members[m].1->List_0, k)
        }),
        starless(front),
        starless(back),
        paths::normal_path(
            paths::joined(base_of(place, config), utf8::encode_utf8(front + wildcard + back)),
        ) == Some(path),
    ensures
        module_config::typescript_paths(index, directory, name).contains(path),
{
    let base = base_of(place, config);
    let members = config.at("compilerOptions"@).at("paths"@)->Object_0;
    let items = members[m].1->List_0;
    let all = module_config::texts(items);
    let used = module_config::at_most(all, 32);
    let at = module_config::texts(items.take(k)).len() as int;
    lemma_text_at(items, k);
    lemma_texts_count(items.take(k));
    assert(used[at] == all[at]);
    law_patterns_match_by_their_star(members[m].0, name, wildcard);
    law_replacements_are_filled(all[at], wildcard);
    assert(module_config::filled(front + seq!['*'] + back, wildcard) == Some(
        front + wildcard + back,
    ));
    lemma_replaced_holds(base, used, wildcard, at, path);
    lemma_mapped_holds(base, members, name, m, wildcard, path);
    let aliases = module_config::mapped(base, members, name);
    let j = choose|j: int| 0 <= j < aliases.len() && aliases[j] == path;
    assert(module_config::typescript_paths(index, directory, name)[j] == path);
}

/// A name that TypeScript does not know as an alias leads to the file with that name below the
/// `baseUrl` of the configuration that applies.
pub proof fn law_typescript_names_lead_below_the_base(
    index: FileIndex,
    directory: Seq<u8>,
    name: Seq<char>,
    place: Seq<u8>,
    config: Json,
    path: Seq<u8>,
)
    requires
        applies_to(index, directory, place, config),
        !config.has("extends"@),
        config.at("compilerOptions"@).at("baseUrl"@) is Text,
        paths::normal_path(paths::joined(base_of(place, config), utf8::encode_utf8(name))) == Some(
            path,
        ),
    ensures
        module_config::typescript_paths(index, directory, name).contains(path),
{
    let list = module_config::typescript_paths(index, directory, name);
    assert(list[list.len() - 1] == path);
}

/// Whether a path is what a replacement of an alias, or the name below the `baseUrl`, leads to.
pub open spec fn leads_by_config(
    place: Seq<u8>,
    config: Json,
    name: Seq<char>,
    path: Seq<u8>,
) -> bool {
    let base = base_of(place, config);
    let options = config.at("compilerOptions"@);
    ||| options.at("baseUrl"@) is Text && paths::normal_path(
        paths::joined(base, utf8::encode_utf8(name)),
    ) == Some(path)
    ||| options.at("paths"@) is Object && exists|m: int, wildcard: Seq<char>, filled: Seq<char>|
        #![trigger alias_gives(options.at("paths"@)->Object_0, m, name, wildcard, filled)]
        alias_gives(options.at("paths"@)->Object_0, m, name, wildcard, filled)
            && paths::normal_path(paths::joined(base, utf8::encode_utf8(filled))) == Some(path)
}

/// Whether an alias that a name matches has a replacement that comes to `filled`.
pub open spec fn alias_gives(
    members: Seq<(Seq<char>, Json)>,
    m: int,
    name: Seq<char>,
    wildcard: Seq<char>,
    filled: Seq<char>,
) -> bool {
    &&& 0 <= m < members.len()
    &&& stands_for_star(members[m].0, name, wildcard)
    &&& members[m].1 is List
    &&& exists|k: int|
        0 <= k < members[m].1->List_0.len() && (#[trigger] members[m].1->List_0[k]) is Text
            && module_config::filled(members[m].1->List_0[k]->Text_0, wildcard) == Some(filled)
}

proof fn lemma_text_from(items: Seq<Json>, j: int) -> (k: int)
    requires
        0 <= j < module_config::texts(items).len(),
    ensures
        0 <= k < items.len(),
        items[k] == Json::Text(module_config::texts(items)[j]),
    decreases items.len(),
{
    let less = items.drop_last();
    if j < module_config::texts(less).len() {
        let k = lemma_text_from(less, j);
        assert(items[k] == less[k]);
        k
    } else {
        items.len() - 1
    }
}

proof fn lemma_replaced_from(
    base: Seq<u8>,
    replacements: Seq<Seq<char>>,
    wildcard: Seq<char>,
    j: int,
) -> (k: int)
    requires
        0 <= j < module_config::all_replaced(base, replacements, wildcard).len(),
    ensures
        0 <= k < replacements.len(),
        module_config::replaced(base, replacements[k], wildcard) == Some(
            module_config::all_replaced(base, replacements, wildcard)[j],
        ),
    decreases replacements.len(),
{
    let less = replacements.drop_last();
    if j < module_config::all_replaced(base, less, wildcard).len() {
        let k = lemma_replaced_from(base, less, wildcard, j);
        assert(less[k] == replacements[k]);
        k
    } else {
        replacements.len() - 1
    }
}

proof fn lemma_mapped_from(
    base: Seq<u8>,
    members: Seq<(Seq<char>, Json)>,
    name: Seq<char>,
    j: int,
) -> (found: (int, Seq<char>, Seq<char>))
    requires
        0 <= j < module_config::mapped(base, members, name).len(),
    ensures
        alias_gives(members, found.0, name, found.1, found.2),
        paths::normal_path(paths::joined(base, utf8::encode_utf8(found.2))) == Some(
            module_config::mapped(base, members, name)[j],
        ),
    decreases members.len(),
{
    let less = members.drop_last();
    let before = module_config::mapped(base, less, name);
    if j < before.len() {
        let (m, wildcard, filled) = lemma_mapped_from(base, less, name, j);
        assert(less[m] == members[m]);
        (m, wildcard, filled)
    } else {
        let m = members.len() - 1;
        assert(members.last() == members[m]);
        let wildcard = module_config::matched(members[m].0, name)->0;
        law_patterns_match_by_their_star(members[m].0, name, wildcard);
        let items = members[m].1->List_0;
        let used = module_config::at_most(module_config::texts(items), 32);
        let at = lemma_replaced_from(base, used, wildcard, j - before.len());
        let k = lemma_text_from(items, at);
        assert(members[m].1->List_0[k] is Text);
        (m, wildcard, module_config::filled(used[at], wildcard)->0)
    }
}

/// A name leads nowhere in TypeScript but where the configuration that applies says: to a
/// replacement of an alias that it matches, or below the `baseUrl`; nowhere without one, and
/// nowhere by one that builds on another.
pub proof fn law_typescript_leads_only_where_configured(
    index: FileIndex,
    directory: Seq<u8>,
    name: Seq<char>,
    path: Seq<u8>,
) -> (found: (Seq<u8>, Json))
    requires
        module_config::typescript_paths(index, directory, name).contains(path),
    ensures
        applies_to(index, directory, found.0, found.1),
        !found.1.has("extends"@),
        leads_by_config(found.0, found.1, name, path),
{
    let first = module_config::nearest_config(
        index,
        directory,
        utf8::encode_utf8("tsconfig.json"@),
    );
    let (place, config) = if first is Some {
        first->0
    } else {
        module_config::nearest_config(index, directory, utf8::encode_utf8("jsconfig.json"@))->0
    };
    let list = module_config::typescript_paths(index, directory, name);
    let j = choose|j: int| 0 <= j < list.len() && list[j] == path;
    let options = config.at("compilerOptions"@);
    let base = base_of(place, config);
    let aliases = match options.at("paths"@) {
        Json::Object(members) => module_config::mapped(base, members, name),
        _ => Seq::empty(),
    };
    if j < aliases.len() {
        let members = options.at("paths"@)->Object_0;
        let (m, wildcard, filled) = lemma_mapped_from(base, members, name, j);
        assert(alias_gives(members, m, name, wildcard, filled));
    }
    (place, config)
}

/// An alias of Luau leads to what the nearest `.luaurc` maps it to, and on by what follows the
/// slash behind it; an alias that is not mapped to a text leads nowhere.
pub proof fn law_luau_aliases_lead_to_their_mapping(
    index: FileIndex,
    directory: Seq<u8>,
    alias: Seq<char>,
    tail: Seq<char>,
    place: Seq<u8>,
    config: Json,
)
    requires
        module_config::nearest_config(index, directory, utf8::encode_utf8(".luaurc"@)) == Some(
            (place, config),
        ),
        forall|i: int| 0 <= i < alias.len() ==> #[trigger] alias[i] != '/',
    ensures
        ({
            let list = module_config::luau_paths(
                index,
                directory,
                seq!['@'] + alias + seq!['/'] + tail,
            );
            let whole = module_config::luau_paths(index, directory, seq!['@'] + alias);
            match config.at("aliases"@).at(alias) {
                Json::Text(mapping) => {
                    let mapped = paths::joined(place, utf8::encode_utf8(mapping));
                    &&& match paths::normal_path(paths::joined(mapped, utf8::encode_utf8(tail))) {
                        Some(path) => list == seq![path],
                        None => list.len() == 0,
                    }
                    &&& match paths::normal_path(
                        paths::joined(mapped, utf8::encode_utf8(Seq::empty())),
                    ) {
                        Some(path) => whole == seq![path],
                        None => whole.len() == 0,
                    }
                },
                _ => list.len() == 0 && whole.len() == 0,
            }
        }),
{
    let rest = alias + seq!['/'] + tail;
    assert((seq!['@'] + alias + seq!['/'] + tail).skip(1) =~= rest);
    assert((seq!['@'] + alias).skip(1) =~= alias);
    lemma_first_slash(alias, tail);
    lemma_no_slash(alias);
    assert(rest.take(alias.len() as int) =~= alias);
    assert(rest.skip(alias.len() as int + 1) =~= tail);
}

proof fn lemma_no_slash(text: Seq<char>)
    requires
        forall|i: int| 0 <= i < text.len() ==> #[trigger] text[i] != '/',
    ensures
        module_config::first_place(text, '/') == -1,
    decreases text.len(),
{
    if text.len() > 0 {
        let less = text.drop_last();
        assert forall|i: int| 0 <= i < less.len() implies #[trigger] less[i] != '/' by {
            assert(less[i] == text[i]);
        }
        lemma_no_slash(less);
        assert(text.last() == text[text.len() - 1]);
    }
}

proof fn lemma_first_slash(front: Seq<char>, back: Seq<char>)
    requires
        forall|i: int| 0 <= i < front.len() ==> #[trigger] front[i] != '/',
    ensures
        module_config::first_place(front + seq!['/'] + back, '/') == front.len(),
    decreases back.len(),
{
    let whole = front + seq!['/'] + back;
    if back.len() > 0 {
        lemma_first_slash(front, back.drop_last());
        assert(whole.drop_last() =~= front + seq!['/'] + back.drop_last());
    } else {
        assert(whole.drop_last() =~= front);
        lemma_no_slash(front);
        assert(whole.last() == '/');
    }
}

} // verus!
