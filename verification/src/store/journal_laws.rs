//! What holds of the changes between generations, and of how they are remembered.

use crate::store::publish;
use crate::store::publish::Changed;
use crate::store::publish::FileState;
use crate::store::publish::Observation;
use crate::store::publish::Window;
use vstd::prelude::*;
use vstd::utf8;

verus! {

/// Whether what is stored of a file says that it has other content, or was read otherwise.
pub open spec fn differs(before: FileState, after: FileState) -> bool {
    ||| before.bytes != after.bytes
    ||| before.status@ != after.status@
    ||| before.revision is Some && after.revision is None
    ||| before.revision is None && after.revision is Some
    ||| before.revision is Some && after.revision is Some && before.revision->0@
        != after.revision->0@
}

/// Every file that came, went or differs is among the changes, unless there are more than the
/// limit: then as many changes as that are told.
pub proof fn law_every_difference_is_a_change(
    before: Seq<FileState>,
    after: Seq<FileState>,
    changes: Seq<Changed>,
    limit: int,
)
    requires
        publish::first_changes(before, after, changes, limit),
        changes.len() < limit,
        before.len() <= usize::MAX,
        after.len() <= usize::MAX,
    ensures
        forall|i: int, j: int|
            0 <= i < before.len() && 0 <= j < after.len() && (#[trigger] before[i]).path@ == (
            #[trigger] after[j]).path@ && differs(before[i], after[j]) ==> changes.contains(
                (Changed { before: Some(i as usize), after: Some(j as usize) }),
            ),
        forall|i: int|
            0 <= i < before.len() && (forall|j: int|
                0 <= j < after.len() ==> (#[trigger] after[j]).path@ != before[i].path@)
                ==> #[trigger] changes.contains(
                (Changed { before: Some(i as usize), after: None }),
            ),
        forall|j: int|
            0 <= j < after.len() && (forall|i: int|
                0 <= i < before.len() ==> (#[trigger] before[i]).path@ != after[j].path@)
                ==> #[trigger] changes.contains(
                (Changed { before: None, after: Some(j as usize) }),
            ),
{
    assert forall|i: int, j: int|
        0 <= i < before.len() && 0 <= j < after.len() && (#[trigger] before[i]).path@ == (
        #[trigger] after[j]).path@ && differs(before[i], after[j]) implies changes.contains(
        (Changed { before: Some(i as usize), after: Some(j as usize) }),
    ) by {
        let change = Changed { before: Some(i as usize), after: Some(j as usize) };
        assert(publish::is_change(before, after, change));
    }
    assert forall|i: int|
        0 <= i < before.len() && (forall|j: int|
            0 <= j < after.len() ==> (#[trigger] after[j]).path@
                != before[i].path@) implies #[trigger] changes.contains(
        (Changed { before: Some(i as usize), after: None }),
    ) by {
        let change = Changed { before: Some(i as usize), after: None };
        assert(publish::is_change(before, after, change));
    }
    assert forall|j: int|
        0 <= j < after.len() && (forall|i: int|
            0 <= i < before.len() ==> (#[trigger] before[i]).path@
                != after[j].path@) implies #[trigger] changes.contains(
        (Changed { before: None, after: Some(j as usize) }),
    ) by {
        let change = Changed { before: None, after: Some(j as usize) };
        assert(publish::is_change(before, after, change));
    }
}

/// A change that is told is one: a file that differs, or one whose path is only on one side.
pub proof fn law_changes_are_differences(
    before: Seq<FileState>,
    after: Seq<FileState>,
    changes: Seq<Changed>,
    limit: int,
    k: int,
)
    requires
        publish::first_changes(before, after, changes, limit),
        0 <= k < changes.len(),
    ensures
        changes.len() <= limit,
        match (changes[k].before, changes[k].after) {
            (Some(i), Some(j)) => {
                &&& i < before.len()
                &&& j < after.len()
                &&& before[i as int].path@ == after[j as int].path@
                &&& differs(before[i as int], after[j as int])
            },
            (Some(i), None) => {
                &&& i < before.len()
                &&& forall|j: int|
                    0 <= j < after.len() ==> (#[trigger] after[j]).path@ != before[i as int].path@
            },
            (None, Some(j)) => {
                &&& j < after.len()
                &&& forall|i: int|
                    0 <= i < before.len() ==> (#[trigger] before[i]).path@ != after[j as int].path@
            },
            (None, None) => false,
        },
{
    assert(publish::is_change(before, after, changes[k]));
}

/// How many bytes changes take.
pub open spec fn bytes_of(observations: Seq<Observation>) -> int
    decreases observations.len(),
{
    if observations.len() == 0 {
        0
    } else {
        bytes_of(observations.drop_last()) + utf8::encode_utf8(observations.last().value@).len()
            + utf8::encode_utf8(observations.last().path@).len()
    }
}

proof fn lemma_bytes_of(observations: Seq<Observation>)
    ensures
        bytes_of(observations) == publish::sizes(observations),
        bytes_of(observations) >= 0,
    decreases observations.len(),
{
    if observations.len() > 0 {
        lemma_bytes_of(observations.drop_last());
    }
}

proof fn lemma_bytes_grow(observations: Seq<Observation>, n: int)
    requires
        0 <= n <= observations.len(),
    ensures
        bytes_of(observations.take(n)) <= bytes_of(observations),
    decreases observations.len(),
{
    if n == observations.len() {
        assert(observations.take(n) =~= observations);
    } else {
        lemma_bytes_grow(observations.drop_last(), n);
        assert(observations.drop_last().take(n) =~= observations.take(n));
    }
}

proof fn lemma_changes_of_older(windows: Seq<Window>, from: i64, to: i64)
    requires
        forall|i: int|
            0 <= i < windows.len() ==> !publish::within(#[trigger] windows[i], from, to),
    ensures
        publish::changes_within(windows, from, to).len() == 0,
        publish::windows_within(windows, from, to) == 0,
    decreases windows.len(),
{
    if windows.len() > 0 {
        let less = windows.drop_last();
        assert forall|i: int| 0 <= i < less.len() implies !publish::within(
            #[trigger] less[i],
            from,
            to,
        ) by {
            assert(less[i] == windows[i]);
        }
        lemma_changes_of_older(less, from, to);
        assert(windows.last() == windows[windows.len() - 1]);
    }
}

/// What was noted of a generation is observed since the one before it, all of it and nothing
/// else: where it is no more than 4096 changes of four mebibytes together, the interval is
/// complete.
pub proof fn law_noted_changes_are_observed(
    before: Seq<Window>,
    generation: i64,
    observations: Seq<Observation>,
    after: Seq<Window>,
)
    requires
        publish::appended(before, generation, observations, after),
        publish::generations_rise(before),
        before.len() > 0 ==> before.last().generation < generation,
        0 < generation,
        observations.len() <= 4096,
        bytes_of(observations) <= 4194304,
    ensures
        publish::changes_within(after, (generation - 1) as i64, generation) == observations,
        publish::interval_complete(after, (generation - 1) as i64, generation),
{
    let from = (generation - 1) as i64;
    let (window, n) = choose|window: Window, n: int|
        {
            &&& #[trigger] publish::records(generation, observations, window)
            &&& #[trigger] publish::forgotten(before.push(window), generation, n)
            &&& after == before.push(window).skip(n)
        };
    let all = before.push(window);
    let taken = window.observations@.len() as int;
    if !window.complete {
        let more = observations.take(taken + 1);
        lemma_bytes_grow(observations, taken + 1);
        lemma_bytes_of(more);
    }
    assert(window.observations@ =~= observations) by {
        assert(observations.take(observations.len() as int) =~= observations);
    }
    let last = all.len() - 1;
    assert(all[last] == window);
    lemma_bytes_of(observations);
    assert(all.skip(last) =~= seq![window]);
    assert(seq![window].skip(1) =~= Seq::<Window>::empty());
    assert(publish::count_in(Seq::<Window>::empty()) == 0);
    assert(publish::size_in(Seq::<Window>::empty()) == 0);
    assert(publish::remembered(all.skip(last)));
    if n > last {
        assert forall|i: int|
            0 <= i < all.len() && #[trigger] all[i].generation <= generation
                - publish::MAX_WINDOWS implies i < last by {}
    }
    assert(n <= last);
    assert(after.last() == window);
    let less = after.drop_last();
    assert forall|i: int| 0 <= i < less.len() implies !publish::within(
        #[trigger] less[i],
        from,
        generation,
    ) by {
        assert(less[i] == before[i + n]);
        if i + n < before.len() - 1 {
            assert(before[i + n].generation < before[before.len() - 1].generation);
        }
    }
    lemma_changes_of_older(less, from, generation);
    assert(publish::changes_within(after, from, generation) =~= observations);
    assert forall|i: int|
        0 <= i < after.len() && publish::within(
            #[trigger] after[i],
            from,
            generation,
        ) implies after[i].complete by {
        if i < less.len() {
            assert(less[i] == after[i]);
        }
    }
}

/// A generation of the last 256 is still remembered as it was, unless what came since takes it
/// over the bounds of the journal.
pub proof fn law_younger_generations_stay(
    before: Seq<Window>,
    generation: i64,
    observations: Seq<Observation>,
    after: Seq<Window>,
    k: int,
)
    requires
        publish::appended(before, generation, observations, after),
        publish::generations_rise(before),
        before.len() > 0 ==> before.last().generation < generation,
        0 <= k < before.len(),
        before[k].generation > generation - 256,
        counted(before) + observations.len() <= 4096,
        weighed(before) + bytes_of(observations) <= 4194304,
    ensures
        after.contains(before[k]),
{
    let (window, n) = choose|window: Window, n: int|
        {
            &&& #[trigger] publish::records(generation, observations, window)
            &&& #[trigger] publish::forgotten(before.push(window), generation, n)
            &&& after == before.push(window).skip(n)
        };
    let all = before.push(window);
    let taken = window.observations@.len() as int;
    lemma_bytes_grow(observations, taken);
    lemma_bytes_of(window.observations@);
    let aged = lemma_first_young(before, generation);
    assert(aged <= k) by {
        if aged > k {
            assert(before[k].generation <= generation - 256);
        }
    }
    lemma_held(before, window, aged);
    assert forall|i: int|
        0 <= i < all.len() && #[trigger] all[i].generation <= generation
            - publish::MAX_WINDOWS implies i < aged by {
        if i < before.len() {
            assert(all[i] == before[i]);
        }
    }
    if n > aged {
        assert(!publish::remembered(all.skip(aged)));
    }
    assert(after[k - n] == all[k]);
    assert(all[k] == before[k]);
}

/// How many changes windows hold.
pub open spec fn counted(windows: Seq<Window>) -> int
    decreases windows.len(),
{
    if windows.len() == 0 {
        0
    } else {
        counted(windows.drop_last()) + windows.last().observations@.len()
    }
}

/// How many bytes windows hold.
pub open spec fn weighed(windows: Seq<Window>) -> int
    decreases windows.len(),
{
    if windows.len() == 0 {
        0
    } else {
        weighed(windows.drop_last()) + bytes_of(windows.last().observations@)
    }
}

proof fn lemma_push_held(windows: Seq<Window>, window: Window)
    ensures
        publish::count_in(windows.push(window)) == publish::count_in(windows)
            + window.observations@.len(),
        publish::size_in(windows.push(window)) == publish::size_in(windows) + bytes_of(
            window.observations@,
        ),
    decreases windows.len(),
{
    let all = windows.push(window);
    lemma_bytes_of(window.observations@);
    if windows.len() == 0 {
        assert(all.skip(1) =~= Seq::<Window>::empty());
        assert(windows =~= Seq::<Window>::empty());
        assert(publish::count_in(Seq::<Window>::empty()) == 0);
        assert(publish::size_in(Seq::<Window>::empty()) == 0);
    } else {
        lemma_push_held(windows.skip(1), window);
        assert(all.skip(1) =~= windows.skip(1).push(window));
        assert(all[0] == windows[0]);
    }
}

proof fn lemma_counted(windows: Seq<Window>)
    ensures
        publish::count_in(windows) == counted(windows),
        publish::size_in(windows) == weighed(windows),
        0 <= counted(windows),
        0 <= weighed(windows),
    decreases windows.len(),
{
    if windows.len() > 0 {
        lemma_counted(windows.drop_last());
        lemma_push_held(windows.drop_last(), windows.last());
        assert(windows.drop_last().push(windows.last()) =~= windows);
        lemma_bytes_of(windows.last().observations@);
    }
}

proof fn lemma_skip_held(windows: Seq<Window>, n: int)
    requires
        0 <= n <= windows.len(),
    ensures
        publish::count_in(windows.skip(n)) <= publish::count_in(windows),
        publish::size_in(windows.skip(n)) <= publish::size_in(windows),
    decreases n,
{
    if n == 0 {
        assert(windows.skip(0) =~= windows);
    } else {
        lemma_skip_held(windows.skip(1), n - 1);
        assert(windows.skip(1).skip(n - 1) =~= windows.skip(n));
        lemma_bytes_of(windows[0].observations@);
    }
}

proof fn lemma_held(before: Seq<Window>, window: Window, n: int)
    requires
        0 <= n <= before.len(),
        counted(before) + window.observations@.len() <= 4096,
        weighed(before) + bytes_of(window.observations@) <= 4194304,
    ensures
        publish::remembered(before.push(window).skip(n)),
{
    lemma_counted(before);
    lemma_push_held(before, window);
    lemma_skip_held(before.push(window), n);
}

proof fn lemma_first_young(before: Seq<Window>, generation: i64) -> (aged: int)
    requires
        publish::generations_rise(before),
    ensures
        0 <= aged <= before.len(),
        forall|i: int|
            0 <= i < before.len() ==> ((#[trigger] before[i]).generation <= generation - 256 <==> i
                < aged),
    decreases before.len(),
{
    if before.len() == 0 {
        0
    } else {
        let less = before.drop_last();
        assert forall|i: int, j: int| 0 <= i < j < less.len() implies (
        #[trigger] less[i]).generation < (#[trigger] less[j]).generation by {
            assert(less[i] == before[i] && less[j] == before[j]);
        }
        let aged = lemma_first_young(less, generation);
        assert forall|i: int| 0 <= i < less.len() implies #[trigger] before[i] == less[i] by {}
        let last = before.len() - 1;
        if before[last].generation <= generation - 256 {
            assert forall|i: int| 0 <= i < before.len() implies ((
            #[trigger] before[i]).generation <= generation - 256 <==> i < before.len()) by {
                if i < last {
                    assert(before[i].generation < before[last].generation);
                }
            }
            before.len() as int
        } else {
            assert forall|i: int| 0 <= i < before.len() implies ((
            #[trigger] before[i]).generation <= generation - 256 <==> i < aged) by {
                if i < last {
                    assert(before[i] == less[i]);
                }
            }
            aged
        }
    }
}

/// The changes of an interval are those of its first part, and then those of the rest.
pub proof fn law_intervals_follow_each_other(
    windows: Seq<Window>,
    from: i64,
    middle: i64,
    to: i64,
)
    requires
        publish::generations_rise(windows),
        from <= middle <= to,
    ensures
        publish::changes_within(windows, from, to) == publish::changes_within(
            windows,
            from,
            middle,
        ) + publish::changes_within(windows, middle, to),
    decreases windows.len(),
{
    let all = publish::changes_within(windows, from, to);
    if windows.len() > 0 {
        let less = windows.drop_last();
        let last = windows.last();
        assert forall|i: int, j: int| 0 <= i < j < less.len() implies (
        #[trigger] less[i]).generation < (#[trigger] less[j]).generation by {
            assert(less[i] == windows[i] && less[j] == windows[j]);
        }
        law_intervals_follow_each_other(less, from, middle, to);
        if last.generation <= middle {
            assert forall|i: int| 0 <= i < less.len() implies !publish::within(
                #[trigger] less[i],
                middle,
                to,
            ) by {
                assert(less[i] == windows[i]);
                assert(windows[i].generation < windows[windows.len() - 1].generation);
            }
            lemma_changes_of_older(less, middle, to);
        }
        assert(all =~= publish::changes_within(windows, from, middle) + publish::changes_within(
            windows,
            middle,
            to,
        ));
    } else {
        assert(all =~= publish::changes_within(windows, from, middle) + publish::changes_within(
            windows,
            middle,
            to,
        ));
    }
}

/// The changes of a window are among those of every interval that its generation is in.
pub proof fn law_changes_of_the_interval_are_told(
    windows: Seq<Window>,
    from: i64,
    to: i64,
    i: int,
    k: int,
)
    requires
        0 <= i < windows.len(),
        from < windows[i].generation <= to,
        0 <= k < windows[i].observations@.len(),
    ensures
        publish::changes_within(windows, from, to).contains(windows[i].observations@[k]),
    decreases windows.len(),
{
    let less = windows.drop_last();
    let before = publish::changes_within(less, from, to);
    let all = publish::changes_within(windows, from, to);
    if i == windows.len() - 1 {
        assert(all[before.len() + k] == windows[i].observations@[k]);
    } else {
        assert(less[i] == windows[i]);
        law_changes_of_the_interval_are_told(less, from, to, i, k);
        let j = choose|j: int| 0 <= j < before.len() && before[j] == windows[i].observations@[k];
        assert(all[j] == windows[i].observations@[k]);
    }
}

/// An interval is complete where each of its generations has a window with all of its changes.
pub proof fn law_gapless_intervals_are_complete(windows: Seq<Window>, from: i64, to: i64)
    requires
        publish::generations_rise(windows),
        0 <= from <= to,
        forall|g: int| from < g <= to ==> #[trigger] publish::has_window(windows, g),
        forall|i: int|
            0 <= i < windows.len() && from < (#[trigger] windows[i]).generation <= to
                ==> windows[i].complete,
    ensures
        publish::interval_complete(windows, from, to),
{
    lemma_gapless(windows, from, to);
    assert forall|i: int|
        0 <= i < windows.len() && publish::within(
            #[trigger] windows[i],
            from,
            to,
        ) implies windows[i].complete by {}
}

proof fn lemma_gapless(windows: Seq<Window>, from: i64, to: i64)
    requires
        publish::generations_rise(windows),
        0 <= from <= to,
        forall|g: int| from < g <= to ==> #[trigger] publish::has_window(windows, g),
    ensures
        publish::windows_within(windows, from, to) == to - from,
    decreases windows.len(),
{
    if windows.len() == 0 {
        if from < to {
            assert(publish::has_window(windows, to as int));
        }
    } else {
        let less = windows.drop_last();
        let last = windows.last();
        assert forall|i: int, j: int| 0 <= i < j < less.len() implies (
        #[trigger] less[i]).generation < (#[trigger] less[j]).generation by {
            assert(less[i] == windows[i] && less[j] == windows[j]);
        }
        if from < last.generation <= to {
            let below = (last.generation - 1) as i64;
            if last.generation < to {
                assert(publish::has_window(windows, to as int));
                let i = choose|i: int|
                    0 <= i < windows.len() && (#[trigger] windows[i]).generation == to;
                assert(i == windows.len() - 1 || windows[i].generation < windows[windows.len()
                    - 1].generation);
            }
            lemma_gapless_below(windows, from, below);
            lemma_gapless(less, from, below);
            lemma_same_count(less, from, to, below);
        } else {
            if last.generation <= from && from < to {
                assert(publish::has_window(windows, to as int));
                let i = choose|i: int|
                    0 <= i < windows.len() && (#[trigger] windows[i]).generation == to;
                assert(i == windows.len() - 1 || windows[i].generation < windows[windows.len()
                    - 1].generation);
            }
            assert forall|g: int| from < g <= to implies #[trigger] publish::has_window(
                less,
                g,
            ) by {
                assert(publish::has_window(windows, g));
                let i = choose|i: int|
                    0 <= i < windows.len() && (#[trigger] windows[i]).generation == g;
                assert(less[i] == windows[i]);
            }
            lemma_gapless(less, from, to);
        }
    }
}

proof fn lemma_gapless_below(windows: Seq<Window>, from: i64, below: i64)
    requires
        windows.len() > 0,
        windows.last().generation == below + 1,
        forall|g: int| from < g <= below ==> #[trigger] publish::has_window(windows, g),
    ensures
        forall|g: int| from < g <= below ==> #[trigger] publish::has_window(windows.drop_last(), g),
{
    let less = windows.drop_last();
    assert forall|g: int| from < g <= below implies #[trigger] publish::has_window(less, g) by {
        assert(publish::has_window(windows, g));
        let i = choose|i: int| 0 <= i < windows.len() && (#[trigger] windows[i]).generation == g;
        assert(less[i] == windows[i]);
    }
}

proof fn lemma_same_count(windows: Seq<Window>, from: i64, to: i64, below: i64)
    requires
        below <= to,
        forall|i: int| 0 <= i < windows.len() ==> (#[trigger] windows[i]).generation <= below,
    ensures
        publish::windows_within(windows, from, to) == publish::windows_within(windows, from, below),
    decreases windows.len(),
{
    if windows.len() > 0 {
        let less = windows.drop_last();
        assert forall|i: int| 0 <= i < less.len() implies (#[trigger] less[i]).generation
            <= below by {
            assert(less[i] == windows[i]);
        }
        assert(windows[windows.len() - 1].generation <= below);
        lemma_same_count(less, from, to, below);
    }
}

} // verus!
