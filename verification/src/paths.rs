//! File paths as the bytes that name them.

use vstd::prelude::*;

verus! {

/// The byte between the components of a path.
pub const SLASH: u8 = 47;

/// The byte that begins an extension.
pub const DOT: u8 = 46;

pub open spec fn absolute(path: Seq<u8>) -> bool {
    path.len() > 0 && path[0] == SLASH
}

/// A path continued by another one. An absolute one replaces it.
pub open spec fn joined(base: Seq<u8>, path: Seq<u8>) -> Seq<u8> {
    if absolute(path) {
        path
    } else if base.len() == 0 || base.last() == SLASH {
        base + path
    } else {
        base.push(SLASH) + path
    }
}

pub fn is_absolute(path: &[u8]) -> (r: bool)
    ensures
        r == absolute(path@),
{
    path.len() > 0 && path[0] == SLASH
}

/// `base` continued by `path`.
pub fn join(base: &[u8], path: &[u8]) -> (result: Vec<u8>)
    ensures
        result@ == joined(base@, path@),
{
    if is_absolute(path) {
        return vstd::slice::slice_to_vec(path);
    }
    let mut result = vstd::slice::slice_to_vec(base);
    if base.len() > 0 && base[base.len() - 1] != SLASH {
        result.push(SLASH);
    }
    result.extend_from_slice(path);
    assert(result@ =~= joined(base@, path@));
    result
}

/// The pieces of a path between its slashes.
pub open spec fn pieces(path: Seq<u8>) -> Seq<Seq<u8>>
    decreases path.len(),
{
    if path.len() == 0 {
        seq![Seq::empty()]
    } else {
        let before = pieces(path.drop_last());
        if path.last() == SLASH {
            before.push(Seq::empty())
        } else {
            before.drop_last().push(before.last().push(path.last()))
        }
    }
}

/// Lists of bytes as sequences.
pub open spec fn byte_views(lists: Seq<Vec<u8>>) -> Seq<Seq<u8>> {
    Seq::new(lists.len(), |i: int| lists[i]@)
}

/// Names with slashes between them.
pub open spec fn slashed(names: Seq<Seq<u8>>) -> Seq<u8>
    decreases names.len(),
{
    if names.len() == 0 {
        Seq::empty()
    } else if names.len() == 1 {
        names[0]
    } else {
        slashed(names.drop_last()).push(SLASH) + names.last()
    }
}

/// Whether a piece of a path is the name of something in a directory.
pub open spec fn is_name(piece: Seq<u8>) -> bool {
    piece.len() > 0 && piece != seq![DOT] && piece != seq![DOT, DOT]
}

/// The names that pieces lead through, where they never lead out of where they start.
pub open spec fn resolved(pieces: Seq<Seq<u8>>) -> Option<Seq<Seq<u8>>>
    decreases pieces.len(),
{
    if pieces.len() == 0 {
        Some(Seq::empty())
    } else {
        match resolved(pieces.drop_last()) {
            None => None,
            Some(names) => if is_name(pieces.last()) {
                Some(names.push(pieces.last()))
            } else if pieces.last() != seq![DOT, DOT] {
                Some(names)
            } else if names.len() == 0 {
                None
            } else {
                Some(names.drop_last())
            },
        }
    }
}

/// A relative path without detours, where it stays inside of where it starts.
pub open spec fn normal_path(path: Seq<u8>) -> Option<Seq<u8>> {
    if absolute(path) {
        None
    } else {
        match resolved(pieces(path)) {
            None => None,
            Some(names) => Some(slashed(names)),
        }
    }
}

fn split(path: &[u8]) -> (result: Vec<Vec<u8>>)
    ensures
        byte_views(result@) == pieces(path@),
        result.len() > 0,
{
    let mut done: Vec<Vec<u8>> = Vec::new();
    let mut current: Vec<u8> = Vec::new();
    let mut i: usize = 0;
    assert(byte_views(done@).push(current@) =~= pieces(path@.take(0)));
    while i < path.len()
        invariant
            i <= path.len(),
            byte_views(done@).push(current@) == pieces(path@.take(i as int)),
        decreases path.len() - i,
    {
        let ghost before = byte_views(done@).push(current@);
        proof {
            assert(path@.take(i + 1).drop_last() =~= path@.take(i as int));
            assert(before.drop_last() =~= byte_views(done@));
            assert(before.last() == current@);
        }
        if path[i] == SLASH {
            let ghost finished = done@;
            done.push(current);
            current = Vec::new();
            assert(byte_views(done@) =~= before);
            assert(byte_views(done@).push(current@) =~= pieces(path@.take(i + 1)));
        } else {
            current.push(path[i]);
            assert(byte_views(done@).push(current@) =~= pieces(path@.take(i + 1)));
        }
        i += 1;
    }
    assert(path@.take(i as int) =~= path@);
    let ghost before = byte_views(done@).push(current@);
    done.push(current);
    assert(byte_views(done@) =~= before);
    done
}

fn join_names(names: &Vec<Vec<u8>>) -> (path: Vec<u8>)
    ensures
        path@ == slashed(byte_views(names@)),
{
    let mut path: Vec<u8> = Vec::new();
    let mut i: usize = 0;
    while i < names.len()
        invariant
            i <= names.len(),
            path@ == slashed(byte_views(names@).take(i as int)),
        decreases names.len() - i,
    {
        let ghost before = path@;
        if i > 0 {
            path.push(SLASH);
        }
        path.extend_from_slice(names[i].as_slice());
        proof {
            let all = byte_views(names@);
            assert(all.take(i + 1).drop_last() =~= all.take(i as int));
            assert(all.take(i + 1).last() == names@[i as int]@);
            if i == 0 {
                assert(all.take(1)[0] == names@[0]@);
                assert(path@ =~= slashed(all.take(1)));
            } else {
                assert(path@ =~= before.push(SLASH) + names@[i as int]@);
            }
        }
        i += 1;
    }
    assert(byte_views(names@).take(i as int) =~= byte_views(names@));
    path
}

fn is_dots(piece: &Vec<u8>, n: usize) -> (dots: bool)
    requires
        n == 1 || n == 2,
    ensures
        dots == (piece@ == if n == 1 {
            seq![DOT]
        } else {
            seq![DOT, DOT]
        }),
{
    if piece.len() != n {
        return false;
    }
    if n == 1 {
        let dots = piece[0] == DOT;
        if dots {
            assert(piece@ =~= seq![DOT]);
        }
        dots
    } else {
        let dots = piece[0] == DOT && piece[1] == DOT;
        if dots {
            assert(piece@ =~= seq![DOT, DOT]);
        }
        dots
    }
}

/// `path` without detours, where it is relative and stays inside of where it starts.
pub fn normalized(path: &[u8]) -> (result: Option<Vec<u8>>)
    ensures
        match result {
            Some(normal) => normal_path(path@) == Some(normal@),
            None => normal_path(path@) is None,
        },
{
    if is_absolute(path) {
        return None;
    }
    let parts = split(path);
    let mut names: Vec<Vec<u8>> = Vec::new();
    let mut i: usize = 0;
    assert(byte_views(names@) =~= Seq::<Seq<u8>>::empty());
    while i < parts.len()
        invariant
            i <= parts.len(),
            !absolute(path@),
            byte_views(parts@) == pieces(path@),
            resolved(byte_views(parts@).take(i as int)) == Some(byte_views(names@)),
        decreases parts.len() - i,
    {
        let ghost all = byte_views(parts@);
        let ghost before = byte_views(names@);
        proof {
            assert(all.take(i + 1).drop_last() =~= all.take(i as int));
            assert(all.take(i + 1).last() == parts@[i as int]@);
        }
        if is_dots(&parts[i], 2) {
            if names.len() == 0 {
                proof {
                    lemma_no_way_back(all, i + 1);
                    assert(all.take(all.len() as int) =~= all);
                }
                return None;
            }
            let ghost last = names.len() - 1;
            let dropped = names.pop();
            assert(byte_views(names@) =~= before.drop_last());
        } else if parts[i].len() > 0 && !is_dots(&parts[i], 1) {
            names.push(parts[i].clone());
            assert(byte_views(names@) =~= before.push(parts@[i as int]@));
        }
        i += 1;
    }
    assert(byte_views(parts@).take(i as int) =~= byte_views(parts@));
    Some(join_names(&names))
}

/// Pieces that lead out at some point lead out.
proof fn lemma_no_way_back(pieces: Seq<Seq<u8>>, n: int)
    requires
        0 <= n <= pieces.len(),
        resolved(pieces.take(n)) is None,
    ensures
        resolved(pieces.take(pieces.len() as int)) is None,
    decreases pieces.len() - n,
{
    if n < pieces.len() {
        assert(pieces.take(n + 1).drop_last() =~= pieces.take(n));
        lemma_no_way_back(pieces, n + 1);
    }
}

/// A path without detours consists of names only: it leads neither to the root, nor up.
pub proof fn law_normal_paths_stay_inside(pieces: Seq<Seq<u8>>)
    ensures
        resolved(pieces) is Some ==> forall|i: int|
            0 <= i < resolved(pieces)->0.len() ==> is_name(#[trigger] resolved(pieces)->0[i]),
    decreases pieces.len(),
{
    if pieces.len() > 0 {
        law_normal_paths_stay_inside(pieces.drop_last());
    }
}

/// The last place of a byte, or -1.
pub open spec fn last_place(s: Seq<u8>, byte: u8) -> int
    decreases s.len(),
{
    if s.len() == 0 {
        -1
    } else if s.last() == byte {
        s.len() - 1
    } else {
        last_place(s.drop_last(), byte)
    }
}

/// How much of a path comes before the last place of a byte in it.
fn before_last(path: &[u8], byte: u8) -> (at: Option<usize>)
    ensures
        match at {
            Some(at) => at == last_place(path@, byte) && at < path.len() && path@[at as int]
                == byte,
            None => last_place(path@, byte) == -1,
        },
{
    let mut n: usize = path.len();
    assert(path@.take(n as int) =~= path@);
    while n > 0
        invariant
            n <= path.len(),
            last_place(path@, byte) == last_place(path@.take(n as int), byte),
        decreases n,
    {
        if path[n - 1] == byte {
            return Some(n - 1);
        }
        assert(path@.take(n as int).drop_last() =~= path@.take(n - 1));
        n -= 1;
    }
    None
}

/// How much of a path says where it begins: a slash at the root, a dot where one is.
pub open spec fn lead(path: Seq<u8>) -> int {
    if absolute(path) || (path.len() > 0 && path[0] == DOT && (path.len() == 1 || path[1]
        == SLASH)) {
        1
    } else {
        0
    }
}

/// A path without the slashes and the dots at its end that lead nowhere.
pub open spec fn trimmed(path: Seq<u8>) -> Seq<u8>
    decreases path.len(),
{
    if path.len() <= lead(path) {
        path
    } else if path.last() == SLASH || (path.last() == DOT && path.len() > 1 && path[path.len() - 2]
        == SLASH) {
        trimmed(path.drop_last())
    } else {
        path
    }
}

/// The last component of a path, as it is written there.
pub open spec fn final_piece(path: Seq<u8>) -> Seq<u8> {
    trimmed(path).skip(last_place(trimmed(path), SLASH) + 1)
}

/// Where something is: its path without the last component; nowhere for the empty path and for
/// the root.
pub open spec fn directory_of(path: Seq<u8>) -> Option<Seq<u8>> {
    let whole = trimmed(path);
    if whole.len() == 0 || whole == seq![SLASH] {
        None
    } else {
        Some(trimmed(whole.take(last_place(whole, SLASH) + 1)))
    }
}

fn has_lead(path: &[u8]) -> (yes: bool)
    ensures
        yes == (lead(path@) == 1),
{
    is_absolute(path) || (path.len() > 0 && path[0] == DOT && (path.len() == 1 || path[1]
        == SLASH))
}

/// How long a path is without the slashes and the dots at its end that lead nowhere.
fn trimmed_len(path: &[u8]) -> (n: usize)
    ensures
        n <= path.len(),
        path@.take(n as int) == trimmed(path@),
{
    let front: usize = if has_lead(path) {
        1
    } else {
        0
    };
    let mut n: usize = path.len();
    assert(path@.take(n as int) =~= path@);
    while n > front && (path[n - 1] == SLASH || (path[n - 1] == DOT && n > 1 && path[n - 2]
        == SLASH))
        invariant
            front <= n <= path.len(),
            front == lead(path@),
            lead(path@.take(n as int)) == front,
            trimmed(path@.take(n as int)) == trimmed(path@),
        decreases n,
    {
        assert(path@.take(n as int).drop_last() =~= path@.take(n - 1));
        n -= 1;
    }
    n
}

/// How a path ends once it is trimmed.
proof fn lemma_trimmed(path: Seq<u8>)
    ensures
        trimmed(path).len() <= path.len(),
        trimmed(path).len() > lead(trimmed(path)) ==> {
            let whole = trimmed(path);
            &&& whole.last() != SLASH
            &&& !(whole.last() == DOT && whole.len() > 1 && whole[whole.len() - 2] == SLASH)
        },
    decreases path.len(),
{
    if path.len() > lead(path) && (path.last() == SLASH || (path.last() == DOT && path.len() > 1
        && path[path.len() - 2] == SLASH)) {
        lemma_trimmed(path.drop_last());
    }
}

/// Where something is has a shorter path.
pub proof fn lemma_directory_is_shorter(path: Seq<u8>)
    ensures
        directory_of(path) matches Some(parent) ==> parent.len() < path.len(),
{
    lemma_trimmed(path);
    let whole = trimmed(path);
    if whole.len() > 0 && whole != seq![SLASH] {
        lemma_last_place(whole, SLASH);
        let front = whole.take(last_place(whole, SLASH) + 1);
        lemma_trimmed(front);
        if front.len() == whole.len() {
            assert(whole.last() == SLASH);
            if whole.len() == 1 {
                assert(whole =~= seq![SLASH]);
            }
        }
    }
}

/// Where something is, by its path.
pub fn parent(path: &[u8]) -> (result: Option<Vec<u8>>)
    ensures
        match result {
            Some(parent) => directory_of(path@) == Some(parent@) && parent@.len() < path@.len(),
            None => directory_of(path@) is None,
        },
{
    let n = trimmed_len(path);
    let whole = &path[0..n];
    proof {
        lemma_trimmed(path@);
        assert(whole@ =~= trimmed(path@));
    }
    if n == 0 {
        return None;
    }
    if n == 1 && whole[0] == SLASH {
        assert(whole@ =~= seq![SLASH]);
        return None;
    }
    let at: usize = match before_last(whole, SLASH) {
        None => 0,
        Some(at) => at + 1,
    };
    let front = &whole[0..at];
    let m = trimmed_len(front);
    proof {
        assert(front@ =~= whole@.take(last_place(whole@, SLASH) + 1));
        lemma_trimmed(front@);
    }
    Some(vstd::slice::slice_to_vec(&front[0..m]))
}

/// The last component of a path, as it is written there.
pub fn last_piece(path: &[u8]) -> (piece: Vec<u8>)
    ensures
        piece@ == final_piece(path@),
{
    let n = trimmed_len(path);
    let whole = &path[0..n];
    let at: usize = match before_last(whole, SLASH) {
        None => 0,
        Some(at) => at + 1,
    };
    let piece = vstd::slice::slice_to_vec(&whole[at..n]);
    assert(whole@ =~= trimmed(path@));
    assert(piece@ =~= final_piece(path@));
    piece
}

/// Where the extension of the name at the end of a path begins, with its dot. A name may begin
/// with a dot.
pub open spec fn extension_place(path: Seq<u8>) -> Option<int> {
    let whole = trimmed(path);
    let dot = last_place(whole, DOT);
    if is_name(final_piece(path)) && dot > last_place(whole, SLASH) + 1 {
        Some(dot)
    } else {
        None
    }
}

/// The extension of the name at the end of a path.
pub open spec fn extension_of(path: Seq<u8>) -> Option<Seq<u8>> {
    match extension_place(path) {
        Some(at) => Some(trimmed(path).skip(at + 1)),
        None => None,
    }
}

fn ends_in_name(path: &[u8]) -> (yes: bool)
    ensures
        yes == is_name(final_piece(path@)),
{
    let piece = last_piece(path);
    piece.len() > 0 && !is_dots(&piece, 1) && !is_dots(&piece, 2)
}

/// Where the extension of the name at the end of a path begins, with its dot.
fn extension_start(path: &[u8]) -> (at: Option<usize>)
    ensures
        match at {
            Some(at) => extension_place(path@) == Some(at as int) && at < trimmed(path@).len()
                <= path.len(),
            None => extension_place(path@) is None,
        },
{
    if !ends_in_name(path) {
        return None;
    }
    let n = trimmed_len(path);
    let whole = &path[0..n];
    proof {
        assert(whole@ =~= trimmed(path@));
        lemma_last_place(whole@, SLASH);
    }
    match before_last(whole, DOT) {
        None => None,
        Some(dot) => match before_last(whole, SLASH) {
            None => {
                if dot > 0 {
                    Some(dot)
                } else {
                    None
                }
            },
            Some(slash) => {
                if dot > slash && dot - slash > 1 {
                    Some(dot)
                } else {
                    None
                }
            },
        },
    }
}

/// The extension of the name at the end of a path.
pub fn extension(path: &[u8]) -> (result: Option<Vec<u8>>)
    ensures
        match result {
            Some(extension) => extension_of(path@) == Some(extension@),
            None => extension_of(path@) is None,
        },
{
    let n = trimmed_len(path);
    match extension_start(path) {
        Some(at) => {
            let own = vstd::slice::slice_to_vec(&path[at + 1..n]);
            assert(own@ =~= trimmed(path@).skip(at + 1));
            Some(own)
        },
        None => None,
    }
}

proof fn lemma_last_place(path: Seq<u8>, byte: u8)
    ensures
        -1 <= last_place(path, byte) < path.len(),
        last_place(path, byte) >= 0 ==> path[last_place(path, byte)] == byte,
        forall|i: int| last_place(path, byte) < i < path.len() ==> path[i] != byte,
    decreases path.len(),
{
    if path.len() > 0 && path.last() != byte {
        lemma_last_place(path.drop_last(), byte);
        assert forall|i: int| last_place(path, byte) < i < path.len() implies path[i] != byte by {
            if i < path.len() - 1 {
                assert(path.drop_last()[i] == path[i]);
            }
        }
    }
}

/// A path with another extension in place of that of the name at its end. A path that does not
/// end in a name stays as it is.
pub open spec fn with_extension_of(path: Seq<u8>, extension: Seq<u8>) -> Seq<u8> {
    if !is_name(final_piece(path)) {
        path
    } else {
        let stem = match extension_place(path) {
            Some(at) => trimmed(path).take(at),
            None => trimmed(path),
        };
        if extension.len() == 0 {
            stem
        } else {
            stem.push(DOT) + extension
        }
    }
}

/// `path` with another extension in place of its own.
pub fn with_extension(path: &[u8], extension: &[u8]) -> (result: Vec<u8>)
    ensures
        result@ == with_extension_of(path@, extension@),
{
    if !ends_in_name(path) {
        return vstd::slice::slice_to_vec(path);
    }
    let n = trimmed_len(path);
    let mut result = match extension_start(path) {
        Some(at) => {
            let stem = vstd::slice::slice_to_vec(&path[0..at]);
            assert(stem@ =~= trimmed(path@).take(at as int));
            stem
        },
        None => vstd::slice::slice_to_vec(&path[0..n]),
    };
    if extension.len() > 0 {
        result.push(DOT);
        result.extend_from_slice(extension);
    }
    result
}

/// The pieces of a path that are not empty and do not stay where they are.
pub open spec fn solid(pieces: Seq<Seq<u8>>) -> Seq<Seq<u8>>
    decreases pieces.len(),
{
    if pieces.len() == 0 {
        Seq::empty()
    } else if pieces.last().len() > 0 && pieces.last() != seq![DOT] {
        solid(pieces.drop_last()).push(pieces.last())
    } else {
        solid(pieces.drop_last())
    }
}

/// The components of a path: where it begins, if it says so, and what it leads through.
pub open spec fn components(path: Seq<u8>) -> Seq<Seq<u8>> {
    if lead(path) == 1 {
        seq![path.take(1)] + solid(pieces(path))
    } else {
        solid(pieces(path))
    }
}

/// Whether two paths have the same components.
pub open spec fn same_components(path: Seq<u8>, other: Seq<u8>) -> bool {
    components(path) == components(other)
}

/// Whether a path is that of a directory, or of something below it: its components begin with
/// those of the directory.
pub open spec fn below(path: Seq<u8>, directory: Seq<u8>) -> bool {
    let outer = components(directory);
    let inner = components(path);
    outer.len() <= inner.len() && inner.take(outer.len() as int) == outer
}

fn solid_pieces(path: &[u8]) -> (result: Vec<Vec<u8>>)
    ensures
        byte_views(result@) == solid(pieces(path@)),
{
    let parts = split(path);
    let ghost all = byte_views(parts@);
    let mut result: Vec<Vec<u8>> = Vec::new();
    let mut i: usize = 0;
    assert(byte_views(result@) =~= Seq::<Seq<u8>>::empty());
    while i < parts.len()
        invariant
            i <= parts.len(),
            all == byte_views(parts@),
            byte_views(result@) == solid(all.take(i as int)),
        decreases parts.len() - i,
    {
        let ghost before = byte_views(result@);
        proof {
            assert(all.take(i + 1).drop_last() =~= all.take(i as int));
            assert(all.take(i + 1).last() == parts@[i as int]@);
        }
        if parts[i].len() > 0 && !is_dots(&parts[i], 1) {
            result.push(parts[i].clone());
            assert(byte_views(result@) =~= before.push(parts@[i as int]@));
        }
        i += 1;
    }
    assert(all.take(i as int) =~= all);
    result
}

fn component_list(path: &[u8]) -> (result: Vec<Vec<u8>>)
    ensures
        byte_views(result@) == components(path@),
{
    let mut result = solid_pieces(path);
    if has_lead(path) {
        let first = vstd::slice::slice_to_vec(&path[0..1]);
        assert(first@ =~= path@.take(1));
        result.insert(0, first);
        assert(byte_views(result@) =~= components(path@));
    }
    result
}

fn begins_with(inner: &Vec<Vec<u8>>, outer: &Vec<Vec<u8>>) -> (yes: bool)
    ensures
        yes == (outer.len() <= inner.len() && byte_views(inner@).take(outer.len() as int)
            == byte_views(outer@)),
{
    let ghost outside = byte_views(outer@);
    let ghost inside = byte_views(inner@);
    if outer.len() > inner.len() {
        return false;
    }
    let mut i: usize = 0;
    while i < outer.len()
        invariant
            i <= outer.len() <= inner.len(),
            outside == byte_views(outer@),
            inside == byte_views(inner@),
            forall|k: int| 0 <= k < i ==> outside[k] == inside[k],
        decreases outer.len() - i,
    {
        if !crate::text::same_bytes(outer[i].as_slice(), inner[i].as_slice()) {
            proof {
                assert(outside[i as int] == outer@[i as int]@);
                assert(inside[i as int] == inner@[i as int]@);
                if inside.take(outside.len() as int) == outside {
                    assert(inside.take(outside.len() as int)[i as int] == outside[i as int]);
                }
            }
            return false;
        }
        i += 1;
    }
    assert(inside.take(outside.len() as int) =~= outside);
    true
}

/// Whether a path is that of a directory, or of something below it.
pub fn starts_with(path: &[u8], directory: &[u8]) -> (yes: bool)
    ensures
        yes == below(path@, directory@),
{
    let outer = component_list(directory);
    let inner = component_list(path);
    begins_with(&inner, &outer)
}

/// Whether two paths have the same components.
pub fn same_path(path: &[u8], other: &[u8]) -> (yes: bool)
    ensures
        yes == same_components(path@, other@),
{
    let list = component_list(path);
    let others = component_list(other);
    assert(byte_views(list@).take(list.len() as int) =~= byte_views(list@));
    list.len() == others.len() && begins_with(&list, &others)
}

/// What follows the last slash of a path is its last piece.
proof fn lemma_last_piece(path: Seq<u8>, k: int)
    requires
        0 <= k < path.len(),
        k == 0 || path[k - 1] == SLASH,
        forall|i: int| k <= i < path.len() ==> path[i] != SLASH,
    ensures
        pieces(path.take(k)).len() > 0,
        pieces(path.take(k)).last().len() == 0,
        pieces(path) == pieces(path.take(k)).drop_last().push(path.skip(k)),
    decreases path.len(),
{
    let front = path.take(k);
    if k > 0 {
        assert(front.last() == SLASH);
    }
    if path.len() == k + 1 {
        assert(path.drop_last() =~= front);
        assert(path.skip(k) =~= pieces(front).last().push(path.last()));
    } else {
        assert(path.drop_last().take(k) =~= front);
        lemma_last_piece(path.drop_last(), k);
        assert(path.skip(k) =~= path.drop_last().skip(k).push(path.last()));
        let before = pieces(path.drop_last());
        assert(before.drop_last() =~= pieces(front).drop_last());
    }
}

/// What leads nowhere at the end of a path is no component of it.
pub proof fn law_trimming_keeps_components(path: Seq<u8>)
    ensures
        components(trimmed(path)) == components(path),
    decreases path.len(),
{
    if path.len() > lead(path) && (path.last() == SLASH || (path.last() == DOT && path.len() > 1
        && path[path.len() - 2] == SLASH)) {
        let less = path.drop_last();
        law_trimming_keeps_components(less);
        assert(lead(less) == lead(path));
        if lead(path) == 1 {
            assert(less.take(1) =~= path.take(1));
        }
        let before = pieces(less);
        if path.last() == SLASH {
            assert(pieces(path).drop_last() =~= before);
        } else {
            let front = pieces(less.drop_last());
            assert(less.last() == SLASH);
            assert(before.drop_last() =~= front);
            assert(pieces(path).drop_last() =~= front);
            assert(before.last().push(DOT) =~= seq![DOT]);
        }
    }
}

/// Where something is has all of its components but the last one.
pub proof fn law_directories_drop_the_last_component(path: Seq<u8>)
    ensures
        directory_of(path) matches Some(directory) ==> components(path).len() > 0 && components(
            directory,
        ) == components(path).drop_last(),
{
    law_trimming_keeps_components(path);
    let whole = trimmed(path);
    if whole.len() > 0 && whole != seq![SLASH] {
        let k = last_place(whole, SLASH) + 1;
        let front = whole.take(k);
        lemma_last_place(whole, SLASH);
        law_trimming_keeps_components(front);
        lemma_trimmed(path);
        if whole.len() == 1 && whole[0] == SLASH {
            assert(whole =~= seq![SLASH]);
        }
        lemma_last_piece(whole, k);
        let name = whole.skip(k);
        assert(pieces(whole).drop_last() =~= pieces(front).drop_last());
        if whole.len() == 1 && whole[0] == DOT {
            assert(name =~= seq![DOT]);
            assert(front =~= Seq::<u8>::empty());
            assert(pieces(front).drop_last() =~= Seq::<Seq<u8>>::empty());
            assert(solid(Seq::<Seq<u8>>::empty()) =~= Seq::<Seq<u8>>::empty());
            assert(solid(pieces(whole)) =~= Seq::<Seq<u8>>::empty());
            assert(solid(pieces(front)) =~= Seq::<Seq<u8>>::empty());
            assert(components(whole).drop_last() =~= components(front));
        } else {
            assert(name.len() > 0);
            assert(name != seq![DOT]) by {
                if name == seq![DOT] {
                    assert(name[0] == whole[k]);
                    assert(name.len() == whole.len() - k);
                }
            }
            assert(lead(front) == lead(whole));
            if lead(whole) == 1 {
                assert(front.take(1) =~= whole.take(1));
            }
            assert(components(whole).drop_last() =~= components(front));
        }
    }
}

/// Whether the pieces of a path lead through names only: it is not absolute, goes nowhere up,
/// and does not begin where it is.
pub open spec fn plain_path(path: Seq<u8>) -> bool {
    let all = pieces(path);
    &&& !absolute(path)
    &&& solid(all).len() > 0
    &&& all[0] != seq![DOT]
    &&& forall|i: int|
        0 <= i < all.len() ==> #[trigger] all[i] != seq![DOT, DOT]
}

/// The names that a relative path leads through, if it leads through names only.
pub fn plain_names(path: &[u8]) -> (result: Option<Vec<Vec<u8>>>)
    ensures
        match result {
            Some(names) => plain_path(path@) && byte_views(names@) == solid(
                pieces(path@),
            ),
            None => !plain_path(path@),
        },
{
    if is_absolute(path) {
        return None;
    }
    let parts = split(path);
    let ghost all = byte_views(parts@);
    assert(all[0] == parts@[0]@);
    if is_dots(&parts[0], 1) {
        return None;
    }
    let mut i: usize = 0;
    while i < parts.len()
        invariant
            i <= parts.len(),
            all == byte_views(parts@),
            all == pieces(path@),
            forall|k: int| 0 <= k < i ==> #[trigger] all[k] != seq![DOT, DOT],
        decreases parts.len() - i,
    {
        if is_dots(&parts[i], 2) {
            assert(all[i as int] == seq![DOT, DOT]);
            return None;
        }
        assert(all[i as int] == parts@[i as int]@);
        i += 1;
    }
    let names = solid_pieces(path);
    if names.len() == 0 {
        assert(byte_views(names@).len() == 0);
        return None;
    }
    assert(byte_views(names@).len() > 0);
    Some(names)
}

} // verus!
