//! What holds of paths.

use crate::paths;
use vstd::prelude::*;

verus! {

/// Whether a text is the name of something in a directory: it has no slash, and is neither empty
/// nor one or two dots.
pub open spec fn names_something(name: Seq<u8>) -> bool {
    &&& name.len() > 0
    &&& forall|i: int| 0 <= i < name.len() ==> #[trigger] name[i] != 47
    &&& !(name.len() == 1 && name[0] == 46)
    &&& !(name.len() == 2 && name[0] == 46 && name[1] == 46)
}

/// A path continued behind a slash.
pub open spec fn on_to(front: Seq<u8>, back: Seq<u8>) -> Seq<u8> {
    front + seq![47u8] + back
}

/// Whether a path leads through names only, with one slash between them.
pub open spec fn is_plain(path: Seq<u8>) -> bool {
    exists|names: Seq<Seq<u8>>|
        #[trigger] paths::slashed(names) == path && names.len() > 0 && forall|i: int|
            0 <= i < names.len() ==> names_something(#[trigger] names[i])
}

/// The pieces of a path behind a slash follow those before it.
pub proof fn law_pieces_follow_each_other(a: Seq<u8>, b: Seq<u8>)
    ensures
        paths::pieces(on_to(a, b)) == paths::pieces(a) + paths::pieces(b),
        paths::pieces(b).len() > 0,
        paths::pieces(a).len() > 0,
    decreases b.len(),
{
    let whole = on_to(a, b);
    if b.len() == 0 {
        assert(whole.drop_last() =~= a);
        assert(whole.last() == 47);
        assert(paths::pieces(whole) =~= paths::pieces(a) + paths::pieces(b));
        lemma_pieces_exist(a);
    } else {
        law_pieces_follow_each_other(a, b.drop_last());
        assert(whole.drop_last() =~= on_to(a, b.drop_last()));
        assert(whole.last() == b.last());
        let before = paths::pieces(whole.drop_last());
        let front = paths::pieces(a);
        let back = paths::pieces(b.drop_last());
        if b.last() == 47 {
            assert(before.push(Seq::empty()) =~= front + back.push(Seq::empty()));
        } else {
            assert(before.drop_last() =~= front + back.drop_last());
            assert(before.last() == back.last());
            assert(paths::pieces(whole) =~= front + paths::pieces(b));
        }
    }
}

proof fn lemma_pieces_exist(path: Seq<u8>)
    ensures
        paths::pieces(path).len() > 0,
    decreases path.len(),
{
    if path.len() > 0 {
        lemma_pieces_exist(path.drop_last());
    }
}

/// A path without a slash is one piece.
pub proof fn law_names_are_one_piece(name: Seq<u8>)
    requires
        forall|i: int| 0 <= i < name.len() ==> #[trigger] name[i] != 47,
    ensures
        paths::pieces(name) == seq![name],
    decreases name.len(),
{
    if name.len() > 0 {
        let less = name.drop_last();
        assert forall|i: int| 0 <= i < less.len() implies #[trigger] less[i] != 47 by {
            assert(less[i] == name[i]);
        }
        law_names_are_one_piece(less);
        assert(name.last() == name[name.len() - 1]);
        assert(paths::pieces(less).last().push(name.last()) =~= name);
        assert(paths::pieces(name) =~= seq![name]);
    } else {
        assert(name =~= Seq::<u8>::empty());
        assert(paths::pieces(name) =~= seq![name]);
    }
}

proof fn lemma_is_name(name: Seq<u8>)
    requires
        names_something(name),
    ensures
        paths::is_name(name),
{
    if name == seq![46u8] {
        assert(name[0] == 46);
    }
    if name == seq![46u8, 46u8] {
        assert(name[0] == 46 && name[1] == 46);
    }
}

/// What pieces resolve to depends on what their beginning resolves to.
proof fn lemma_resolved_on(a: Seq<Seq<u8>>, b: Seq<Seq<u8>>, c: Seq<Seq<u8>>)
    requires
        paths::resolved(a) == paths::resolved(b),
    ensures
        paths::resolved(a + c) == paths::resolved(b + c),
    decreases c.len(),
{
    if c.len() == 0 {
        assert(a + c =~= a);
        assert(b + c =~= b);
    } else {
        lemma_resolved_on(a, b, c.drop_last());
        assert((a + c).drop_last() =~= a + c.drop_last());
        assert((b + c).drop_last() =~= b + c.drop_last());
    }
}

/// A step that stays where it is changes nothing: neither a dot between slashes, nor two slashes
/// in place of one.
pub proof fn law_steps_that_stay_change_nothing(a: Seq<u8>, b: Seq<u8>)
    requires
        a.len() > 0,
    ensures
        paths::normal_path(on_to(a, on_to(seq![46u8], b))) == paths::normal_path(on_to(a, b)),
        paths::normal_path(on_to(a, on_to(Seq::empty(), b))) == paths::normal_path(on_to(a, b)),
{
    let front = paths::pieces(a);
    let back = paths::pieces(b);
    let dot = seq![46u8];
    law_pieces_follow_each_other(a, b);
    law_pieces_follow_each_other(dot, b);
    law_pieces_follow_each_other(a, on_to(dot, b));
    law_pieces_follow_each_other(Seq::empty(), b);
    law_pieces_follow_each_other(a, on_to(Seq::empty(), b));
    law_names_are_one_piece(dot);
    law_names_are_one_piece(Seq::empty());
    assert(dot.len() == 1);
    assert(dot != seq![46u8, 46u8]) by {
        assert(seq![46u8, 46u8].len() == 2);
    }
    assert(Seq::<u8>::empty() != seq![46u8, 46u8]) by {
        assert(seq![46u8, 46u8].len() == 2);
    }
    assert(front.push(dot).drop_last() =~= front);
    assert(front.push(Seq::<u8>::empty()).drop_last() =~= front);
    lemma_resolved_on(front.push(dot), front, back);
    lemma_resolved_on(front.push(Seq::empty()), front, back);
    assert(front + (seq![dot] + back) =~= front.push(dot) + back);
    assert(front + (seq![Seq::<u8>::empty()] + back) =~= front.push(Seq::empty()) + back);
    assert(on_to(a, b)[0] == a[0]);
    assert(on_to(a, on_to(dot, b))[0] == a[0]);
    assert(on_to(a, on_to(Seq::empty(), b))[0] == a[0]);
}

/// A step into a directory and out of it again changes nothing.
pub proof fn law_steps_back_cancel(a: Seq<u8>, name: Seq<u8>, b: Seq<u8>)
    requires
        a.len() > 0,
        names_something(name),
    ensures
        paths::normal_path(on_to(a, on_to(name, on_to(seq![46u8, 46u8], b)))) == paths::normal_path(
            on_to(a, b),
        ),
{
    let front = paths::pieces(a);
    let back = paths::pieces(b);
    let up = seq![46u8, 46u8];
    law_pieces_follow_each_other(a, b);
    law_pieces_follow_each_other(up, b);
    law_pieces_follow_each_other(name, on_to(up, b));
    law_pieces_follow_each_other(a, on_to(name, on_to(up, b)));
    law_names_are_one_piece(name);
    law_names_are_one_piece(up);
    lemma_is_name(name);
    let inside = front.push(name);
    let outside = inside.push(up);
    assert(inside.drop_last() =~= front);
    assert(outside.drop_last() =~= inside);
    assert(!paths::is_name(up)) by {
        assert(up =~= seq![paths::DOT, paths::DOT]);
    }
    assert(up =~= seq![paths::DOT, paths::DOT]);
    assert(paths::resolved(outside) == paths::resolved(front)) by {
        match paths::resolved(front) {
            Some(names) => {
                assert(names.push(name).drop_last() =~= names);
                assert(paths::resolved(inside.drop_last()) == Some(names));
                assert(inside.last() == name && outside.last() == up);
                assert(paths::resolved(inside) == Some(names.push(name)));
                assert(paths::resolved(outside.drop_last()) == Some(names.push(name)));
                assert(paths::resolved(outside) == Some(names));
            },
            None => {
                assert(paths::resolved(inside.drop_last()) is None);
                assert(paths::resolved(inside) is None);
                assert(paths::resolved(outside.drop_last()) is None);
            },
        }
    }
    lemma_resolved_on(outside, front, back);
    assert(front + (seq![name] + (seq![up] + back)) =~= outside + back);
    assert(on_to(a, b)[0] == a[0]);
    assert(on_to(a, on_to(name, on_to(up, b)))[0] == a[0]);
}

/// A path that leads up from where it starts leads nowhere, and neither does one from the root.
pub proof fn law_paths_never_lead_out(b: Seq<u8>)
    ensures
        paths::normal_path(on_to(seq![46u8, 46u8], b)) is None,
        paths::normal_path(seq![46u8, 46u8]) is None,
        paths::normal_path(on_to(Seq::empty(), b)) is None,
{
    let up = seq![46u8, 46u8];
    law_pieces_follow_each_other(up, b);
    law_names_are_one_piece(up);
    let first = seq![up];
    assert(first.drop_last() =~= Seq::<Seq<u8>>::empty());
    assert(up =~= seq![paths::DOT, paths::DOT]);
    assert(first.last() == up);
    assert(paths::resolved(first.drop_last()) == Some(Seq::<Seq<u8>>::empty()));
    assert(paths::resolved(first) is None);
    lemma_stays_out(first, paths::pieces(b));
    assert(on_to(Seq::empty(), b)[0] == 47);
}

proof fn lemma_stays_out(a: Seq<Seq<u8>>, b: Seq<Seq<u8>>)
    requires
        paths::resolved(a) is None,
    ensures
        paths::resolved(a + b) is None,
    decreases b.len(),
{
    if b.len() == 0 {
        assert(a + b =~= a);
    } else {
        lemma_stays_out(a, b.drop_last());
        assert((a + b).drop_last() =~= a + b.drop_last());
    }
}

proof fn lemma_slashed_pieces(names: Seq<Seq<u8>>)
    requires
        names.len() > 0,
        forall|i: int| 0 <= i < names.len() ==> names_something(#[trigger] names[i]),
    ensures
        paths::pieces(paths::slashed(names)) == names,
        paths::resolved(names) == Some(names),
        paths::slashed(names).len() > 0,
        paths::slashed(names)[0] != 47,
        paths::slashed(names).last() == names.last().last(),
    decreases names.len(),
{
    if names.len() == 1 {
        law_names_are_one_piece(names[0]);
        assert(names =~= seq![names[0]]);
        lemma_is_name(names[0]);
        assert(names.drop_last() =~= Seq::<Seq<u8>>::empty());
        assert(Seq::<Seq<u8>>::empty().push(names[0]) =~= names);
        assert(names[0][0] != 47);
    } else {
        let front = names.drop_last();
        assert forall|i: int| 0 <= i < front.len() implies names_something(#[trigger] front[i]) by {
            assert(front[i] == names[i]);
        }
        lemma_slashed_pieces(front);
        let last = names.last();
        assert(last == names[names.len() - 1]);
        law_names_are_one_piece(last);
        law_pieces_follow_each_other(paths::slashed(front), last);
        assert(paths::slashed(names) =~= on_to(paths::slashed(front), last));
        assert(front + seq![last] =~= names);
        lemma_is_name(last);
        assert(front.push(last) =~= names);
    }
}

/// A path through names stays as it is.
pub proof fn law_plain_paths_stay(path: Seq<u8>)
    requires
        is_plain(path),
    ensures
        paths::normal_path(path) == Some(path),
{
    let names = choose|names: Seq<Seq<u8>>|
        #[trigger] paths::slashed(names) == path && names.len() > 0 && forall|i: int|
            0 <= i < names.len() ==> names_something(#[trigger] names[i]);
    lemma_slashed_pieces(names);
}

/// A relative path behind a directory is reached through that directory, and an absolute one
/// without it.
pub proof fn law_joined_paths_go_on(base: Seq<u8>, path: Seq<u8>)
    ensures
        path.len() > 0 && path[0] == 47 ==> paths::joined(base, path) == path,
        (path.len() == 0 || path[0] != 47) && base.len() == 0 ==> paths::joined(base, path)
            == path,
        (path.len() == 0 || path[0] != 47) && base.len() > 0 && base.last() != 47
            ==> paths::joined(base, path) == on_to(base, path),
        (path.len() == 0 || path[0] != 47) && base.len() > 0 && base.last() == 47
            ==> paths::joined(base, path) == base + path,
{
    if (path.len() == 0 || path[0] != 47) && base.len() == 0 {
        assert(base + path =~= path);
    }
    assert(base.push(47u8) + path =~= on_to(base, path));
}

proof fn lemma_ends_in_name(path: Seq<u8>)
    requires
        path.len() > 0,
        path.last() != 47,
        path.last() != 46,
    ensures
        paths::trimmed(path) == path,
{
}

/// The last slash of a path is the one before its last name.
proof fn lemma_last_slash(front: Seq<u8>, name: Seq<u8>)
    requires
        forall|i: int| 0 <= i < name.len() ==> #[trigger] name[i] != 47,
    ensures
        paths::last_place(on_to(front, name), 47) == front.len(),
        paths::last_place(name, 47) == -1,
    decreases name.len(),
{
    let whole = on_to(front, name);
    if name.len() > 0 {
        let less = name.drop_last();
        assert forall|i: int| 0 <= i < less.len() implies #[trigger] less[i] != 47 by {
            assert(less[i] == name[i]);
        }
        lemma_last_slash(front, less);
        assert(whole.drop_last() =~= on_to(front, less));
        assert(whole.last() == name[name.len() - 1]);
        assert(name.last() == name[name.len() - 1]);
    } else {
        assert(whole.last() == 47);
    }
}

/// What is in a directory is found there: the directory of a name behind a slash is what comes
/// before it, and a name alone is in the place where paths begin.
pub proof fn law_names_are_in_their_directory(directory: Seq<u8>, name: Seq<u8>)
    requires
        names_something(name),
        name.last() != 46,
        directory.len() > 0,
        directory.last() != 47,
        directory.last() != 46,
    ensures
        paths::directory_of(on_to(directory, name)) == Some(directory),
        paths::directory_of(name) == Some(Seq::<u8>::empty()),
        paths::final_piece(on_to(directory, name)) == name,
        paths::final_piece(name) == name,
{
    let whole = on_to(directory, name);
    assert(name.last() == name[name.len() - 1]);
    assert(whole.last() == name.last());
    lemma_ends_in_name(whole);
    lemma_ends_in_name(name);
    lemma_last_slash(directory, name);
    let front = whole.take(directory.len() as int + 1);
    assert(front =~= directory + seq![47u8]);
    assert(front.drop_last() =~= directory);
    assert(front.last() == 47);
    assert(front.len() > paths::lead(front));
    assert(paths::trimmed(front) == paths::trimmed(directory));
    lemma_ends_in_name(directory);
    assert(whole != seq![47u8]) by {
        assert(seq![47u8].len() == 1);
    }
    assert(name != seq![47u8]) by {
        if name == seq![47u8] {
            assert(name[0] == 47);
        }
    }
    assert(name.take(0) =~= Seq::<u8>::empty());
    assert(whole.skip(directory.len() as int + 1) =~= name);
    assert(name.skip(0) =~= name);
}

/// The last dot of a name is the one before its extension.
proof fn lemma_last_dot(front: Seq<u8>, extension: Seq<u8>)
    requires
        forall|i: int| 0 <= i < extension.len() ==> #[trigger] extension[i] != 46,
    ensures
        paths::last_place(front + seq![46u8] + extension, 46) == front.len(),
        paths::last_place(extension, 46) == -1,
    decreases extension.len(),
{
    let whole = front + seq![46u8] + extension;
    if extension.len() > 0 {
        let less = extension.drop_last();
        assert forall|i: int| 0 <= i < less.len() implies #[trigger] less[i] != 46 by {
            assert(less[i] == extension[i]);
        }
        lemma_last_dot(front, less);
        assert(whole.drop_last() =~= front + seq![46u8] + less);
        assert(whole.last() == extension[extension.len() - 1]);
        assert(extension.last() == extension[extension.len() - 1]);
    } else {
        assert(whole.last() == 46);
    }
}

/// The extension of a file is what follows the last dot of its name; changing it changes nothing
/// else. A name without a dot has none, and gets one behind a dot.
pub proof fn law_extensions_follow_the_last_dot(
    directory: Seq<u8>,
    stem: Seq<u8>,
    extension: Seq<u8>,
    other: Seq<u8>,
)
    requires
        stem.len() > 0,
        forall|i: int| 0 <= i < stem.len() ==> #[trigger] stem[i] != 47 && stem[i] != 46,
        extension.len() > 0,
        forall|i: int|
            0 <= i < extension.len() ==> #[trigger] extension[i] != 47 && extension[i] != 46,
        other.len() > 0,
    ensures
        paths::extension_of(on_to(directory, stem + seq![46u8] + extension)) == Some(extension),
        paths::extension_of(on_to(directory, stem)) is None,
        paths::with_extension_of(on_to(directory, stem), other) == on_to(
            directory,
            stem + seq![46u8] + other,
        ),
        paths::with_extension_of(on_to(directory, stem + seq![46u8] + extension), other) == on_to(
            directory,
            stem + seq![46u8] + other,
        ),
{
    let file = stem + seq![46u8] + extension;
    assert forall|i: int| 0 <= i < file.len() implies #[trigger] file[i] != 47 by {
        if i < stem.len() {
            assert(file[i] == stem[i]);
        } else if i > stem.len() {
            assert(file[i] == extension[i - stem.len() - 1]);
        }
    }
    let whole = on_to(directory, file);
    let bare = on_to(directory, stem);
    assert(whole.last() == extension[extension.len() - 1]);
    assert(bare.last() == stem[stem.len() - 1]);
    lemma_ends_in_name(whole);
    lemma_ends_in_name(bare);
    lemma_last_slash(directory, file);
    lemma_last_slash(directory, stem);
    assert(whole.skip(directory.len() as int + 1) =~= file);
    assert(bare.skip(directory.len() as int + 1) =~= stem);
    assert(stem[0] != 46);
    assert(file[0] == stem[0]);
    assert(paths::is_name(file)) by {
        if file == seq![46u8] {
            assert(file[0] == 46);
        }
        if file == seq![46u8, 46u8] {
            assert(file[0] == 46);
        }
    }
    assert(paths::is_name(stem)) by {
        if stem == seq![46u8] {
            assert(stem[0] == 46);
        }
        if stem == seq![46u8, 46u8] {
            assert(stem[0] == 46);
        }
    }
    let front = on_to(directory, stem);
    assert(whole =~= front + seq![46u8] + extension);
    lemma_last_dot(front, extension);
    assert(whole.skip(front.len() as int + 1) =~= extension);
    assert(whole.take(front.len() as int) =~= front);
    lemma_dot_before(directory, stem);
    assert(front.push(46u8) + other =~= on_to(directory, stem + seq![46u8] + other));
}

/// A dot of a path whose last name has none is before that name.
proof fn lemma_dot_before(directory: Seq<u8>, stem: Seq<u8>)
    requires
        forall|i: int| 0 <= i < stem.len() ==> #[trigger] stem[i] != 46,
    ensures
        paths::last_place(on_to(directory, stem), 46) <= directory.len(),
    decreases stem.len(),
{
    let whole = on_to(directory, stem);
    if stem.len() > 0 {
        let less = stem.drop_last();
        assert forall|i: int| 0 <= i < less.len() implies #[trigger] less[i] != 46 by {
            assert(less[i] == stem[i]);
        }
        lemma_dot_before(directory, less);
        assert(whole.drop_last() =~= on_to(directory, less));
        assert(whole.last() == stem[stem.len() - 1]);
    } else {
        assert(whole.drop_last() =~= directory);
        lemma_place_inside(directory);
    }
}

proof fn lemma_place_inside(path: Seq<u8>)
    ensures
        paths::last_place(path, 46) < path.len(),
    decreases path.len(),
{
    if path.len() > 0 {
        lemma_place_inside(path.drop_last());
    }
}

proof fn lemma_solid_on(a: Seq<Seq<u8>>, b: Seq<Seq<u8>>)
    ensures
        paths::solid(a + b) == paths::solid(a) + paths::solid(b),
    decreases b.len(),
{
    if b.len() == 0 {
        assert(a + b =~= a);
        assert(paths::solid(a) + paths::solid(b) =~= paths::solid(a));
    } else {
        lemma_solid_on(a, b.drop_last());
        assert((a + b).drop_last() =~= a + b.drop_last());
        assert((a + b).last() == b.last());
        assert(paths::solid(a + b) =~= paths::solid(a) + paths::solid(b));
    }
}

proof fn lemma_solid_names(names: Seq<Seq<u8>>)
    requires
        forall|i: int| 0 <= i < names.len() ==> names_something(#[trigger] names[i]),
    ensures
        paths::solid(names) == names,
    decreases names.len(),
{
    if names.len() > 0 {
        let front = names.drop_last();
        assert forall|i: int| 0 <= i < front.len() implies names_something(#[trigger] front[i]) by {
            assert(front[i] == names[i]);
        }
        lemma_solid_names(front);
        assert(names_something(names[names.len() - 1]));
        let last = names.last();
        if last == seq![46u8] {
            assert(last[0] == 46);
        }
        assert(front.push(last) =~= names);
    } else {
        assert(names =~= Seq::<Seq<u8>>::empty());
    }
}

/// What a path through names leads to below a root may be opened, name by name, from the first
/// to the last.
pub proof fn law_contained_paths_are_opened_name_by_name(names: Seq<Seq<u8>>)
    requires
        names.len() > 0,
        forall|i: int| 0 <= i < names.len() ==> names_something(#[trigger] names[i]),
    ensures
        paths::plain_path(paths::slashed(names)),
        paths::solid(paths::pieces(paths::slashed(names))) == names,
{
    lemma_slashed_pieces(names);
    lemma_solid_names(names);
    assert(names_something(names[0]));
    if names[0] == seq![46u8] {
        assert(names[0][0] == 46);
    }
    assert forall|i: int| 0 <= i < names.len() implies #[trigger] names[i] != seq![
        paths::DOT,
        paths::DOT,
    ] by {
        assert(names_something(names[i]));
        if names[i] == seq![paths::DOT, paths::DOT] {
            assert(names[i][0] == 46 && names[i][1] == 46);
        }
    }
}

/// A path that goes up anywhere is not one below a root, nor is one that begins with a slash or
/// with a single dot, nor one that names nothing.
pub proof fn law_paths_that_may_leave_are_refused(a: Seq<u8>, b: Seq<u8>)
    ensures
        !paths::plain_path(on_to(on_to(a, seq![46u8, 46u8]), b)),
        !paths::plain_path(on_to(seq![46u8, 46u8], b)),
        !paths::plain_path(on_to(a, seq![46u8, 46u8])),
        !paths::plain_path(seq![46u8, 46u8]),
        !paths::plain_path(seq![47u8] + b),
        !paths::plain_path(on_to(seq![46u8], b)),
        !paths::plain_path(seq![46u8]),
        !paths::plain_path(Seq::empty()),
{
    let up = seq![46u8, 46u8];
    let here = seq![46u8];
    law_names_are_one_piece(up);
    law_names_are_one_piece(here);
    assert(seq![paths::DOT, paths::DOT] =~= up);
    assert(seq![paths::DOT] =~= here);
    law_pieces_follow_each_other(a, up);
    law_pieces_follow_each_other(on_to(a, up), b);
    law_pieces_follow_each_other(up, b);
    law_pieces_follow_each_other(here, b);
    let n = paths::pieces(a).len() as int;
    assert(paths::pieces(on_to(a, up))[n] == up);
    assert(paths::pieces(on_to(on_to(a, up), b))[n] == up);
    assert(paths::pieces(on_to(up, b))[0] == up);
    assert(paths::pieces(up)[0] == up);
    assert(paths::pieces(on_to(here, b))[0] == here);
    assert(paths::pieces(here)[0] == here);
    assert((seq![47u8] + b)[0] == 47);
    let nothing = paths::pieces(Seq::<u8>::empty());
    assert(nothing.drop_last() =~= Seq::<Seq<u8>>::empty());
    assert(paths::solid(Seq::<Seq<u8>>::empty()) =~= Seq::<Seq<u8>>::empty());
    assert(paths::solid(nothing) =~= Seq::<Seq<u8>>::empty());
}

/// A step that stays, or a doubled slash, changes nothing of the names that a path leads through.
pub proof fn law_empty_steps_name_nothing(a: Seq<u8>, b: Seq<u8>)
    ensures
        paths::solid(paths::pieces(on_to(on_to(a, seq![46u8]), b))) == paths::solid(
            paths::pieces(on_to(a, b)),
        ),
        paths::solid(paths::pieces(on_to(on_to(a, Seq::empty()), b))) == paths::solid(
            paths::pieces(on_to(a, b)),
        ),
        paths::solid(paths::pieces(on_to(a, b))) == paths::solid(paths::pieces(a)) + paths::solid(
            paths::pieces(b),
        ),
{
    let here = seq![46u8];
    law_names_are_one_piece(here);
    law_names_are_one_piece(Seq::empty());
    law_pieces_follow_each_other(a, here);
    law_pieces_follow_each_other(on_to(a, here), b);
    law_pieces_follow_each_other(a, Seq::empty());
    law_pieces_follow_each_other(on_to(a, Seq::empty()), b);
    law_pieces_follow_each_other(a, b);
    let front = paths::pieces(a);
    let back = paths::pieces(b);
    lemma_solid_on(front, back);
    lemma_solid_on(front, seq![here]);
    lemma_solid_on(front + seq![here], back);
    lemma_solid_on(front, seq![Seq::empty()]);
    lemma_solid_on(front + seq![Seq::empty()], back);
    assert(seq![paths::DOT] =~= here);
    assert(seq![here].drop_last() =~= Seq::<Seq<u8>>::empty());
    assert(paths::solid(Seq::<Seq<u8>>::empty()) =~= Seq::<Seq<u8>>::empty());
    assert(paths::solid(seq![here]) =~= Seq::<Seq<u8>>::empty());
    let none = seq![Seq::<u8>::empty()];
    assert(none.drop_last() =~= Seq::<Seq<u8>>::empty());
    assert(paths::solid(none) =~= Seq::<Seq<u8>>::empty());
    assert(paths::solid(front) + Seq::<Seq<u8>>::empty() =~= paths::solid(front));
}

/// Two paths are the same, and one is below another, by what they lead through: what is behind a
/// slash of a path is below what is before it.
pub proof fn law_paths_are_below_what_they_go_on_from(directory: Seq<u8>, rest: Seq<u8>)
    requires
        directory.len() > 0,
    ensures
        paths::below(on_to(directory, rest), directory),
        paths::below(directory, directory),
{
    let whole = on_to(directory, rest);
    law_pieces_follow_each_other(directory, rest);
    lemma_solid_on(paths::pieces(directory), paths::pieces(rest));
    assert(whole[0] == directory[0]);
    let outer = paths::components(directory);
    let inner = paths::components(whole);
    assert(whole.take(1) =~= directory.take(1));
    assert(inner.take(outer.len() as int) =~= outer);
    assert(outer.take(outer.len() as int) =~= outer);
}

} // verus!
