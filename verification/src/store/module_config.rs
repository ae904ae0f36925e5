//! What configuration files say of where modules are.

use crate::paths;
use crate::store::json;
use crate::store::json::Json;
use crate::store::paths as store_paths;
use crate::tables::KeyTable;
use crate::text;
use vstd::prelude::*;
use vstd::utf8;

verus! {

/// A file of the index: its bytes, where they were read, and the number of its module.
#[derive(Debug)]
pub struct IndexedFile {
    pub bytes: Option<Vec<u8>>,
    pub module: Option<i64>,
}

/// The files of an index, by encoded path.
pub struct FileIndex {
    pub files: KeyTable<IndexedFile>,
}

/// The encoded form of a path.
pub open spec fn key_of(path: Seq<u8>) -> Seq<char> {
    store_paths::as_chars(store_paths::escaped(path))
}

/// How many paths an alias may stand for.
pub const MAX_REPLACEMENTS: usize = 32;

impl FileIndex {
    pub open spec fn well_formed(&self) -> bool {
        self.files.well_formed()
    }

    /// Whether there is a file with a path.
    pub open spec fn has(&self, path: Seq<u8>) -> bool {
        self.files@.contains_key(key_of(path))
    }

    /// The configuration in a file, where it can be read.
    pub open spec fn config_at(&self, path: Seq<u8>) -> Option<Json> {
        if self.has(path) {
            match self.files@[key_of(path)].bytes {
                Some(bytes) => json::lenient_json(bytes@),
                None => None,
            }
        } else {
            None
        }
    }

    /// The number of the module in a file.
    pub open spec fn module_at(&self, path: Seq<u8>) -> Option<i64> {
        if self.has(path) {
            self.files@[key_of(path)].module
        } else {
            None
        }
    }

    /// The number of the module in a file.
    pub fn module(&self, path: &[u8]) -> (module: Option<i64>)
        requires
            self.well_formed(),
        ensures
            module == self.module_at(path@),
    {
        let key = store_paths::encode_path(path);
        match self.files.get(key.as_str()) {
            Some(file) => file.module,
            None => None,
        }
    }
}

/// Whether an optional value is what it should be.
pub open spec fn reads(value: Option<serde_json::Value>, expected: Option<Json>) -> bool {
    match value {
        Some(value) => expected == Some(json::contents(value)),
        None => expected is None,
    }
}

/// The configuration in a file, where it can be read.
pub fn read(index: &FileIndex, path: &[u8]) -> (value: Option<serde_json::Value>)
    requires
        index.well_formed(),
    ensures
        reads(value, index.config_at(path@)),
{
    let key = store_paths::encode_path(path);
    match index.files.get(key.as_str()) {
        Some(file) => match &file.bytes {
            Some(bytes) => json::json_with_comments(bytes.as_slice()),
            None => None,
        },
        None => None,
    }
}

/// The configuration in the nearest file with a name: the one in the directory itself, else in
/// one around it. A file that cannot be read hides those further out.
pub open spec fn nearest_config(index: FileIndex, directory: Seq<u8>, filename: Seq<u8>) -> Option<
    (Seq<u8>, Json),
>
    decreases directory.len(),
{
    let path = paths::joined(directory, filename);
    if index.has(path) {
        match index.config_at(path) {
            Some(config) => Some((directory, config)),
            None => None,
        }
    } else {
        match paths::directory_of(directory) {
            Some(parent) => if parent.len() < directory.len() {
                nearest_config(index, parent, filename)
            } else {
                None
            },
            None => None,
        }
    }
}

/// Whether a directory and a value are what they should be.
pub open spec fn reads_in(
    found: Option<(Vec<u8>, serde_json::Value)>,
    expected: Option<(Seq<u8>, Json)>,
) -> bool {
    match found {
        Some((directory, value)) => expected == Some((directory@, json::contents(value))),
        None => expected is None,
    }
}

/// The configuration in the nearest file with a name, and the directory of that file.
pub fn nearest(index: &FileIndex, directory: &[u8], filename: &[u8]) -> (found: Option<
    (Vec<u8>, serde_json::Value),
>)
    requires
        index.well_formed(),
    ensures
        reads_in(found, nearest_config(*index, directory@, filename@)),
{
    let mut current = vstd::slice::slice_to_vec(directory);
    loop
        invariant
            index.well_formed(),
            nearest_config(*index, directory@, filename@) == nearest_config(
                *index,
                current@,
                filename@,
            ),
        decreases current@.len(),
    {
        let path = paths::join(current.as_slice(), filename);
        let key = store_paths::encode_path(path.as_slice());
        match index.files.get(key.as_str()) {
            Some(_) => {
                return match read(index, path.as_slice()) {
                    Some(value) => Some((current, value)),
                    None => None,
                };
            },
            None => {},
        }
        match paths::parent(current.as_slice()) {
            Some(parent) => {
                current = parent;
            },
            None => {
                return None;
            },
        }
    }
}

/// What is seen at a place that may be missing.
pub open spec fn seen(value: Option<&serde_json::Value>) -> Json {
    match value {
        Some(value) => json::contents(*value),
        None => Json::Null,
    }
}

fn child<'a>(value: Option<&'a serde_json::Value>, key: &str) -> (found: Option<
    &'a serde_json::Value,
>)
    ensures
        seen(found) == seen(value).at(key@),
{
    match value {
        Some(value) => json::member(value, key),
        None => None,
    }
}

fn as_text<'a>(value: Option<&'a serde_json::Value>) -> (found: Option<&'a str>)
    ensures
        match found {
            Some(text) => seen(value) == Json::Text(text@),
            None => !(seen(value) is Text),
        },
{
    match value {
        Some(value) => json::text_of(value),
        None => None,
    }
}

/// The first place of a character, or -1.
pub open spec fn first_place(s: Seq<char>, c: char) -> int
    decreases s.len(),
{
    if s.len() == 0 {
        -1
    } else {
        let before = first_place(s.drop_last(), c);
        if before >= 0 {
            before
        } else if s.last() == c {
            s.len() - 1
        } else {
            -1
        }
    }
}

/// The first place of a character.
pub fn find(s: &[char], c: char) -> (at: Option<usize>)
    ensures
        match at {
            Some(at) => first_place(s@, c) == at && at < s.len(),
            None => first_place(s@, c) == -1,
        },
{
    let mut i: usize = 0;
    while i < s.len()
        invariant
            i <= s.len(),
            first_place(s@.take(i as int), c) == -1,
        decreases s.len() - i,
    {
        assert(s@.take(i + 1).drop_last() =~= s@.take(i as int));
        if s[i] == c {
            proof {
                lemma_found(s@, c, i + 1);
            }
            return Some(i);
        }
        i += 1;
    }
    assert(s@.take(i as int) =~= s@);
    None
}

proof fn lemma_found(s: Seq<char>, c: char, n: int)
    requires
        0 <= n <= s.len(),
        first_place(s.take(n), c) >= 0,
    ensures
        first_place(s, c) == first_place(s.take(n), c),
    decreases s.len() - n,
{
    if n < s.len() {
        assert(s.take(n + 1).drop_last() =~= s.take(n));
        lemma_found(s, c, n + 1);
    } else {
        assert(s.take(n) =~= s);
    }
}

/// A text in UTF-8.
fn bytes_of(chars: &[char]) -> (bytes: Vec<u8>)
    ensures
        bytes@ == utf8::encode_utf8(chars@),
{
    let text = text::text_of(chars);
    vstd::slice::slice_to_vec(text.as_str().as_bytes())
}

/// What a star in a pattern stands for, where a name matches the pattern. A pattern without
/// one matches itself only; one with two matches nothing.
pub open spec fn matched(pattern: Seq<char>, name: Seq<char>) -> Option<Seq<char>> {
    let star = first_place(pattern, '*');
    if star < 0 {
        if pattern == name {
            Some(Seq::empty())
        } else {
            None
        }
    } else {
        let prefix = pattern.take(star);
        let suffix = pattern.skip(star + 1);
        if first_place(suffix, '*') >= 0 {
            None
        } else if name.len() >= prefix.len() + suffix.len() && name.take(prefix.len() as int)
            == prefix && name.skip(name.len() - suffix.len()) == suffix {
            Some(name.subrange(prefix.len() as int, name.len() - suffix.len()))
        } else {
            None
        }
    }
}

fn match_pattern(pattern: &[char], name: &[char]) -> (wildcard: Option<Vec<char>>)
    ensures
        match wildcard {
            Some(wildcard) => matched(pattern@, name@) == Some(wildcard@),
            None => matched(pattern@, name@) is None,
        },
{
    match find(pattern, '*') {
        None => {
            if same_chars(pattern, name) {
                let wildcard: Vec<char> = Vec::new();
                assert(wildcard@ =~= Seq::<char>::empty());
                Some(wildcard)
            } else {
                None
            }
        },
        Some(star) => {
            let prefix = &pattern[0..star];
            let suffix = &pattern[star + 1..pattern.len()];
            assert(prefix@ =~= pattern@.take(star as int));
            assert(suffix@ =~= pattern@.skip(star + 1));
            match find(suffix, '*') {
                Some(_) => {
                    return None;
                },
                None => {},
            }
            if name.len() < prefix.len() || name.len() - prefix.len() < suffix.len() {
                return None;
            }
            let head = &name[0..prefix.len()];
            let tail = &name[name.len() - suffix.len()..name.len()];
            assert(head@ =~= name@.take(prefix@.len() as int));
            assert(tail@ =~= name@.skip(name@.len() - suffix@.len()));
            if same_chars(head, prefix) && same_chars(tail, suffix) {
                Some(vstd::slice::slice_to_vec(&name[prefix.len()..name.len() - suffix.len()]))
            } else {
                None
            }
        },
    }
}

fn same_chars(a: &[char], b: &[char]) -> (same: bool)
    ensures
        same == (a@ == b@),
{
    if a.len() != b.len() {
        return false;
    }
    let mut i: usize = 0;
    while i < a.len()
        invariant
            i <= a.len(),
            a.len() == b.len(),
            forall|k: int| 0 <= k < i ==> a@[k] == b@[k],
        decreases a.len() - i,
    {
        if a[i] != b[i] {
            assert(a@[i as int] != b@[i as int]);
            return false;
        }
        i += 1;
    }
    assert(a@ =~= b@);
    true
}

/// A replacement with its star filled in; one with two stars is no replacement.
pub open spec fn filled(replacement: Seq<char>, wildcard: Seq<char>) -> Option<Seq<char>> {
    let star = first_place(replacement, '*');
    if star < 0 {
        Some(replacement)
    } else if first_place(replacement.skip(star + 1), '*') >= 0 {
        None
    } else {
        Some(replacement.take(star) + wildcard + replacement.skip(star + 1))
    }
}

fn fill(replacement: &[char], wildcard: &[char]) -> (result: Option<Vec<char>>)
    ensures
        match result {
            Some(result) => filled(replacement@, wildcard@) == Some(result@),
            None => filled(replacement@, wildcard@) is None,
        },
{
    match find(replacement, '*') {
        None => Some(vstd::slice::slice_to_vec(replacement)),
        Some(star) => {
            let rest = &replacement[star + 1..replacement.len()];
            assert(rest@ =~= replacement@.skip(star + 1));
            match find(rest, '*') {
                Some(_) => None,
                None => {
                    let mut result = vstd::slice::slice_to_vec(&replacement[0..star]);
                    result.extend_from_slice(wildcard);
                    result.extend_from_slice(rest);
                    assert(result@ =~= replacement@.take(star as int) + wildcard@
                        + replacement@.skip(star + 1));
                    Some(result)
                },
            }
        },
    }
}

/// The texts in a list, in order.
pub open spec fn texts(items: Seq<Json>) -> Seq<Seq<char>>
    decreases items.len(),
{
    if items.len() == 0 {
        Seq::empty()
    } else {
        match items.last() {
            Json::Text(text) => texts(items.drop_last()).push(text),
            _ => texts(items.drop_last()),
        }
    }
}

/// The first entries of a list.
pub open spec fn at_most<T>(items: Seq<T>, n: int) -> Seq<T> {
    if items.len() <= n {
        items
    } else {
        items.take(n)
    }
}

/// A path that may be missing, as a list.
pub open spec fn listed(path: Option<Seq<u8>>) -> Seq<Seq<u8>> {
    match path {
        Some(path) => seq![path],
        None => Seq::empty(),
    }
}

/// Where a replacement leads.
pub open spec fn replaced(base: Seq<u8>, replacement: Seq<char>, wildcard: Seq<char>) -> Option<
    Seq<u8>,
> {
    match filled(replacement, wildcard) {
        Some(path) => paths::normal_path(paths::joined(base, utf8::encode_utf8(path))),
        None => None,
    }
}

/// Where replacements lead, in order.
pub open spec fn all_replaced(
    base: Seq<u8>,
    replacements: Seq<Seq<char>>,
    wildcard: Seq<char>,
) -> Seq<Seq<u8>>
    decreases replacements.len(),
{
    if replacements.len() == 0 {
        Seq::empty()
    } else {
        all_replaced(base, replacements.drop_last(), wildcard) + listed(
            replaced(base, replacements.last(), wildcard),
        )
    }
}

/// Where the replacements in a value lead: at most so many texts of a list.
pub open spec fn value_replaced(base: Seq<u8>, value: Json, wildcard: Seq<char>) -> Seq<Seq<u8>> {
    match value {
        Json::List(items) => all_replaced(
            base,
            at_most(texts(items), MAX_REPLACEMENTS as int),
            wildcard,
        ),
        _ => Seq::empty(),
    }
}

/// Where the patterns of a mapping that match a name lead, in order.
pub open spec fn mapped(base: Seq<u8>, members: Seq<(Seq<char>, Json)>, name: Seq<char>) -> Seq<
    Seq<u8>,
>
    decreases members.len(),
{
    if members.len() == 0 {
        Seq::empty()
    } else {
        mapped(base, members.drop_last(), name) + match matched(members.last().0, name) {
            Some(wildcard) => value_replaced(base, members.last().1, wildcard),
            None => Seq::empty(),
        }
    }
}

/// The text of a value, or another one.
pub open spec fn text_or(value: Json, other: Seq<char>) -> Seq<char> {
    match value {
        Json::Text(text) => text,
        _ => other,
    }
}

/// Where a configuration of TypeScript in a directory says that a name leads. One that builds
/// on another is not followed.
pub open spec fn configured(directory: Seq<u8>, config: Json, name: Seq<char>) -> Seq<Seq<u8>> {
    if config.has("extends"@) {
        Seq::empty()
    } else {
        let options = config.at("compilerOptions"@);
        let base_url = options.at("baseUrl"@);
        let base = paths::joined(directory, utf8::encode_utf8(text_or(base_url, "."@)));
        let aliases = match options.at("paths"@) {
            Json::Object(members) => mapped(base, members, name),
            _ => Seq::empty(),
        };
        if base_url is Text {
            aliases + listed(
                paths::normal_path(paths::joined(base, utf8::encode_utf8(name))),
            )
        } else {
            aliases
        }
    }
}

/// Where a name leads in TypeScript or JavaScript.
pub open spec fn typescript_paths(index: FileIndex, directory: Seq<u8>, name: Seq<char>) -> Seq<
    Seq<u8>,
> {
    let config = match nearest_config(index, directory, utf8::encode_utf8("tsconfig.json"@)) {
        Some(config) => Some(config),
        None => nearest_config(index, directory, utf8::encode_utf8("jsconfig.json"@)),
    };
    match config {
        Some((directory, config)) => configured(directory, config, name),
        None => Seq::empty(),
    }
}

fn push_path(result: &mut Vec<Vec<u8>>, path: Option<Vec<u8>>)
    ensures
        paths::byte_views(final(result)@) == paths::byte_views(old(result)@) + match path {
            Some(path) => seq![path@],
            None => Seq::empty(),
        },
{
    match path {
        Some(path) => {
            let ghost found = path@;
            result.push(path);
            assert(paths::byte_views(result@) =~= paths::byte_views(old(result)@) + seq![found]);
        },
        None => {
            assert(paths::byte_views(result@) =~= paths::byte_views(old(result)@)
                + Seq::<Seq<u8>>::empty());
        },
    }
}

fn push_replaced(
    result: &mut Vec<Vec<u8>>,
    base: &[u8],
    value: &serde_json::Value,
    wildcard: &[char],
)
    ensures
        paths::byte_views(final(result)@) == paths::byte_views(old(result)@) + value_replaced(
            base@,
            json::contents(*value),
            wildcard@,
        ),
{
    let items = match json::items_of(value) {
        Some(items) => items,
        None => {
            assert(paths::byte_views(result@) =~= paths::byte_views(old(result)@)
                + Seq::<Seq<u8>>::empty());
            return;
        },
    };
    let ghost all = json::contents(*value)->List_0;
    let ghost before = paths::byte_views(old(result)@);
    let mut used: usize = 0;
    let mut i: usize = 0;
    assert(paths::byte_views(result@) =~= before + Seq::<Seq<u8>>::empty());
    while i < items.len() && used < MAX_REPLACEMENTS
        invariant
            i <= items.len(),
            items.len() == all.len(),
            forall|k: int| 0 <= k < items.len() ==> json::contents(#[trigger] items@[k]) == all[k],
            used <= MAX_REPLACEMENTS,
            used == texts(all.take(i as int)).len(),
            paths::byte_views(result@) == before + all_replaced(
                base@,
                texts(all.take(i as int)),
                wildcard@,
            ),
        decreases items.len() - i,
    {
        let ghost prior = paths::byte_views(result@);
        proof {
            assert(all.take(i + 1).drop_last() =~= all.take(i as int));
            assert(all.take(i + 1).last() == all[i as int]);
        }
        match json::text_of(&items[i]) {
            None => {},
            Some(replacement) => {
                let chars = text::chars_of(replacement);
                let path = match fill(chars.as_slice(), wildcard) {
                    Some(path) => {
                        let bytes = bytes_of(path.as_slice());
                        paths::normalized(paths::join(base, bytes.as_slice()).as_slice())
                    },
                    None => None,
                };
                let ghost found = path;
                push_path(result, path);
                used += 1;
                proof {
                    let shorter = texts(all.take(i as int));
                    let longer = texts(all.take(i + 1));
                    assert(longer.drop_last() =~= shorter);
                    assert(longer.last() == replacement@);
                    assert(listed(replaced(base@, replacement@, wildcard@)) == match found {
                        Some(path) => seq![path@],
                        None => Seq::empty(),
                    });
                    assert(paths::byte_views(result@) =~= before + all_replaced(
                        base@,
                        longer,
                        wildcard@,
                    ));
                }
            },
        }
        i += 1;
    }
    proof {
        lemma_texts_grow(all, i as int);
        assert(all.take(all.len() as int) =~= all);
        assert(at_most(texts(all), MAX_REPLACEMENTS as int) =~= texts(all.take(i as int)));
    }
}

/// The texts of a part of a list begin the texts of the list.
proof fn lemma_texts_grow(items: Seq<Json>, n: int)
    requires
        0 <= n <= items.len(),
    ensures
        texts(items.take(n)).len() <= texts(items).len(),
        texts(items).take(texts(items.take(n)).len() as int) == texts(items.take(n)),
        n == items.len() ==> texts(items.take(n)) == texts(items),
    decreases items.len() - n,
{
    if n < items.len() {
        lemma_texts_grow(items, n + 1);
        assert(items.take(n + 1).drop_last() =~= items.take(n));
        let shorter = texts(items.take(n));
        let longer = texts(items.take(n + 1));
        assert(longer.take(shorter.len() as int) =~= shorter);
        assert(texts(items).take(shorter.len() as int) =~= texts(items).take(
            longer.len() as int,
        ).take(shorter.len() as int));
    } else {
        assert(items.take(n) =~= items);
        assert(texts(items).take(texts(items).len() as int) =~= texts(items));
    }
}

/// Where a name leads in TypeScript or JavaScript.
pub fn typescript(index: &FileIndex, directory: &[u8], name: &str) -> (result: Vec<Vec<u8>>)
    requires
        index.well_formed(),
    ensures
        paths::byte_views(result@) == typescript_paths(*index, directory@, name@),
{
    let mut result: Vec<Vec<u8>> = Vec::new();
    assert(paths::byte_views(result@) =~= Seq::<Seq<u8>>::empty());
    let config = match nearest(index, directory, "tsconfig.json".as_bytes()) {
        Some(config) => Some(config),
        None => nearest(index, directory, "jsconfig.json".as_bytes()),
    };
    let (directory, config) = match config {
        Some(config) => config,
        None => {
            return result;
        },
    };
    if json::member(&config, "extends").is_some() {
        return result;
    }
    let options = child(Some(&config), "compilerOptions");
    let base_url = as_text(child(options, "baseUrl"));
    let base = match base_url {
        Some(base_url) => paths::join(directory.as_slice(), base_url.as_bytes()),
        None => paths::join(directory.as_slice(), ".".as_bytes()),
    };
    let name_chars = text::chars_of(name);
    let members = match child(options, "paths") {
        Some(aliases) => json::members_of(aliases),
        None => None,
    };
    let ghost aliases = match seen(options).at("paths"@) {
        Json::Object(members) => mapped(base@, members, name@),
        _ => Seq::empty(),
    };
    match members {
        None => {},
        Some(members) => {
            let ghost all = seen(options).at("paths"@)->Object_0;
            let mut i: usize = 0;
            while i < members.len()
                invariant
                    i <= members.len(),
                    members.len() == all.len(),
                    name_chars@ == name@,
                    forall|k: int|
                        0 <= k < members.len() ==> (#[trigger] members@[k]).0@ == all[k].0
                            && json::contents(*members@[k].1) == all[k].1,
                    paths::byte_views(result@) == mapped(base@, all.take(i as int), name@),
                decreases members.len() - i,
            {
                proof {
                    assert(all.take(i + 1).drop_last() =~= all.take(i as int));
                    assert(all.take(i + 1).last() == all[i as int]);
                }
                let ghost before = paths::byte_views(result@);
                let pattern = text::chars_of(members[i].0.as_str());
                match match_pattern(pattern.as_slice(), name_chars.as_slice()) {
                    Some(wildcard) => push_replaced(
                        &mut result,
                        base.as_slice(),
                        members[i].1,
                        wildcard.as_slice(),
                    ),
                    None => {
                        assert(before + Seq::<Seq<u8>>::empty() =~= before);
                    },
                }
                i += 1;
            }
            assert(all.take(i as int) =~= all);
        },
    }
    assert(paths::byte_views(result@) == aliases);
    if base_url.is_some() {
        let path = paths::normalized(paths::join(base.as_slice(), name.as_bytes()).as_slice());
        push_path(&mut result, path);
    }
    result
}

/// The name of an alias, and what comes behind it.
pub open spec fn alias_parts(name: Seq<char>) -> (Seq<char>, Seq<char>) {
    let slash = first_place(name, '/');
    if slash < 0 {
        (name, Seq::empty())
    } else {
        (name.take(slash), name.skip(slash + 1))
    }
}

/// Where an alias of Luau leads.
pub open spec fn luau_paths(index: FileIndex, directory: Seq<u8>, name: Seq<char>) -> Seq<
    Seq<u8>,
> {
    match nearest_config(index, directory, utf8::encode_utf8(".luaurc"@)) {
        None => Seq::empty(),
        Some((directory, config)) => if name.len() == 0 || name[0] != '@' {
            Seq::empty()
        } else {
            let (alias, tail) = alias_parts(name.skip(1));
            match config.at("aliases"@).at(alias) {
                Json::Text(mapping) => listed(
                    paths::normal_path(
                        paths::joined(
                            paths::joined(directory, utf8::encode_utf8(mapping)),
                            utf8::encode_utf8(tail),
                        ),
                    ),
                ),
                _ => Seq::empty(),
            }
        },
    }
}

/// Where an alias of Luau leads.
pub fn luau(index: &FileIndex, directory: &[u8], name: &str) -> (result: Vec<Vec<u8>>)
    requires
        index.well_formed(),
    ensures
        paths::byte_views(result@) == luau_paths(*index, directory@, name@),
{
    let ghost start = directory@;
    let mut result: Vec<Vec<u8>> = Vec::new();
    assert(paths::byte_views(result@) =~= Seq::<Seq<u8>>::empty());
    let (directory, config) = match nearest(index, directory, ".luaurc".as_bytes()) {
        Some(config) => config,
        None => {
            return result;
        },
    };
    let chars = text::chars_of(name);
    if chars.len() == 0 || chars[0] != '@' {
        return result;
    }
    let rest = &chars.as_slice()[1..chars.len()];
    assert(rest@ =~= name@.skip(1));
    let (alias, tail) = match find(rest, '/') {
        Some(slash) => {
            let tail = &rest[slash + 1..rest.len()];
            assert(tail@ =~= rest@.skip(slash + 1));
            (text::text_of(&rest[0..slash]), bytes_of(tail))
        },
        None => {
            let tail = &rest[0..0];
            assert(tail@ =~= Seq::<char>::empty());
            (text::text_of(rest), bytes_of(tail))
        },
    };
    match as_text(child(child(Some(&config), "aliases"), alias.as_str())) {
        Some(mapping) => {
            let target = paths::join(directory.as_slice(), mapping.as_bytes());
            let path = paths::normalized(
                paths::join(target.as_slice(), tail.as_slice()).as_slice(),
            );
            push_path(&mut result, path);
            assert(paths::byte_views(result@) =~= luau_paths(*index, start, name@));
        },
        None => {},
    }
    result
}

/// A path continued by segments, one after the other.
pub open spec fn continued(path: Seq<u8>, segments: Seq<Seq<char>>) -> Seq<u8>
    decreases segments.len(),
{
    if segments.len() == 0 {
        path
    } else {
        continued(paths::joined(path, utf8::encode_utf8(segments[0])), segments.skip(1))
    }
}

/// Where segments lead down a tree of Rojo: to the last place with a path, continued by the
/// segments behind it.
pub open spec fn descended(
    node: Json,
    segments: Seq<Seq<char>>,
    directory: Seq<u8>,
    found: Option<Seq<u8>>,
) -> Option<Seq<u8>>
    decreases segments.len(),
{
    if segments.len() == 0 {
        found
    } else {
        let next = node.at(segments[0]);
        let rest = segments.skip(1);
        if next is Null {
            found
        } else {
            match next.at("$path"@) {
                Json::Text(path) => descended(
                    next,
                    rest,
                    directory,
                    paths::normal_path(
                        continued(paths::joined(directory, utf8::encode_utf8(path)), rest),
                    ),
                ),
                _ => descended(next, rest, directory, found),
            }
        }
    }
}

/// A name of Luau as a list of segments: without the leading `game.`, and with dots and slashes
/// between the segments.
pub open spec fn segments_of(name: Seq<char>) -> Seq<Seq<char>> {
    let inner = if name.len() >= 5 && name.take(5) == "game."@ {
        name.skip(5)
    } else {
        name
    };
    text::parts(
        Seq::new(
            inner.len(),
            |i: int|
                if inner[i] == '.' {
                    '/'
                } else {
                    inner[i]
                },
        ),
        '/',
    )
}

/// Where a name leads by the configured project of Rojo.
pub open spec fn rojo_paths(index: FileIndex, name: Seq<char>) -> Seq<Seq<u8>> {
    match index.config_at(utf8::encode_utf8("trufflepig.json"@)) {
        None => Seq::empty(),
        Some(config) => match config.at("rojo_project"@) {
            Json::Text(project) => match paths::normal_path(utf8::encode_utf8(project)) {
                None => Seq::empty(),
                Some(project) => match index.config_at(project) {
                    None => Seq::empty(),
                    Some(tree) => listed(
                        descended(
                            tree.at("tree"@),
                            segments_of(name),
                            match paths::directory_of(project) {
                                Some(directory) => directory,
                                None => Seq::empty(),
                            },
                            None,
                        ),
                    ),
                },
            },
            _ => Seq::empty(),
        },
    }
}

fn split_segments(name: &str) -> (segments: Vec<Vec<char>>)
    ensures
        text::views(segments@) == segments_of(name@),
        segments.len() > 0,
{
    let chars = text::chars_of(name);
    let prefix = text::chars_of("game.");
    proof {
        reveal_strlit("game.");
    }
    let inner = if chars.len() >= 5 && same_chars(&chars.as_slice()[0..5], prefix.as_slice()) {
        let inner = &chars.as_slice()[5..chars.len()];
        assert(inner@ =~= name@.skip(5));
        inner
    } else {
        chars.as_slice()
    };
    assert(chars@.len() >= 5 ==> chars@.subrange(0, 5) =~= name@.take(5));
    let mut slashed: Vec<char> = Vec::new();
    let mut i: usize = 0;
    while i < inner.len()
        invariant
            i <= inner.len(),
            slashed.len() == i,
            forall|k: int|
                0 <= k < i ==> #[trigger] slashed@[k] == if inner@[k] == '.' {
                    '/'
                } else {
                    inner@[k]
                },
        decreases inner.len() - i,
    {
        slashed.push(
            if inner[i] == '.' {
                '/'
            } else {
                inner[i]
            },
        );
        i += 1;
    }
    assert(slashed@ =~= Seq::new(
        inner@.len(),
        |k: int|
            if inner@[k] == '.' {
                '/'
            } else {
                inner@[k]
            },
    ));
    text::split_on(slashed.as_slice(), '/')
}

fn continue_path(start: Vec<u8>, segments: &Vec<Vec<char>>, from: usize) -> (path: Vec<u8>)
    requires
        from <= segments.len(),
    ensures
        path@ == continued(start@, text::views(segments@).skip(from as int)),
{
    let ghost all = text::views(segments@);
    let ghost first = start@;
    let mut path = start;
    let mut i: usize = from;
    while i < segments.len()
        invariant
            from <= i <= segments.len(),
            all == text::views(segments@),
            continued(first, all.skip(from as int)) == continued(path@, all.skip(i as int)),
        decreases segments.len() - i,
    {
        let segment = bytes_of(segments[i].as_slice());
        path = paths::join(path.as_slice(), segment.as_slice());
        proof {
            assert(all.skip(i as int)[0] == segments@[i as int]@);
            assert(all.skip(i as int).skip(1) =~= all.skip(i + 1));
        }
        i += 1;
    }
    path
}

/// Where a name leads by the configured project of Rojo.
pub fn rojo(index: &FileIndex, name: &str) -> (result: Vec<Vec<u8>>)
    requires
        index.well_formed(),
    ensures
        paths::byte_views(result@) == rojo_paths(*index, name@),
{
    let mut result: Vec<Vec<u8>> = Vec::new();
    assert(paths::byte_views(result@) =~= Seq::<Seq<u8>>::empty());
    let config = match read(index, "trufflepig.json".as_bytes()) {
        Some(config) => config,
        None => {
            return result;
        },
    };
    let project = match as_text(child(Some(&config), "rojo_project")) {
        Some(project) => match paths::normalized(project.as_bytes()) {
            Some(project) => project,
            None => {
                return result;
            },
        },
        None => {
            return result;
        },
    };
    let tree = match read(index, project.as_slice()) {
        Some(tree) => tree,
        None => {
            return result;
        },
    };
    let directory = match paths::parent(project.as_slice()) {
        Some(directory) => directory,
        None => {
            let directory: Vec<u8> = Vec::new();
            assert(directory@ =~= Seq::<u8>::empty());
            directory
        },
    };
    let segments = split_segments(name);
    let ghost all = text::views(segments@);
    let mut node = child(Some(&tree), "tree");
    let ghost root = seen(node);
    let mut found: Option<Vec<u8>> = None;
    let mut i: usize = 0;
    assert(all.skip(0) =~= all);
    let ghost expected = descended(root, all, directory@, None);
    while i < segments.len()
        invariant
            i <= segments.len(),
            all == text::views(segments@),
            paths::byte_views(result@) == Seq::<Seq<u8>>::empty(),
            rojo_paths(*index, name@) == listed(expected),
            expected == descended(
                seen(node),
                all.skip(i as int),
                directory@,
                match found {
                    Some(path) => Some(path@),
                    None => None,
                },
            ),
        decreases segments.len() - i,
    {
        proof {
            assert(all.skip(i as int)[0] == segments@[i as int]@);
            assert(all.skip(i as int).skip(1) =~= all.skip(i + 1));
        }
        let segment = text::text_of(segments[i].as_slice());
        node = child(node, segment.as_str());
        let missing = match node {
            Some(value) => json::is_null(value),
            None => true,
        };
        if missing {
            proof {
                assert(seen(node) is Null);
            }
            push_path(&mut result, found);
            assert(paths::byte_views(result@) =~= listed(expected));
            return result;
        }
        match as_text(child(node, "$path")) {
            Some(path) => {
                let start = paths::join(directory.as_slice(), path.as_bytes());
                let whole = continue_path(start, &segments, i + 1);
                found = paths::normalized(whole.as_slice());
            },
            None => {},
        }
        i += 1;
    }
    push_path(&mut result, found);
    assert(paths::byte_views(result@) =~= listed(expected));
    result
}

} // verus!
