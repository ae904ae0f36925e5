//! What holds of the order in which work is served.

use crate::semantic::worker::scheduler;
use crate::semantic::worker::scheduler::RequestClass;
use crate::semantic::worker::scheduler::SchedulerView;
use vstd::prelude::*;

verus! {

/// Whether some root has a query that waits.
pub open spec fn has_queries<T>(view: SchedulerView<T>) -> bool {
    exists|i: int| 0 <= i < view.roots.len() && (#[trigger] view.roots[i]).query.len() > 0
}

/// Whether some root has background work that waits.
pub open spec fn has_background<T>(view: SchedulerView<T>) -> bool {
    exists|i: int| 0 <= i < view.roots.len() && (#[trigger] view.roots[i]).background.len() > 0
}

proof fn lemma_waiting_classes<T>(view: SchedulerView<T>)
    ensures
        has_queries(view) <==> view.any(RequestClass::Query),
        has_background(view) <==> view.any(RequestClass::Background),
{
    if has_queries(view) {
        let i = choose|i: int|
            0 <= i < view.roots.len() && (#[trigger] view.roots[i]).query.len() > 0;
        assert(view.has(RequestClass::Query, i));
    }
    if has_background(view) {
        let i = choose|i: int|
            0 <= i < view.roots.len() && (#[trigger] view.roots[i]).background.len() > 0;
        assert(view.has(RequestClass::Background, i));
    }
    if view.any(RequestClass::Query) {
        let i = choose|i: int|
            0 <= i < view.roots.len() && #[trigger] view.has(RequestClass::Query, i);
        assert(view.roots[i].query.len() > 0);
    }
    if view.any(RequestClass::Background) {
        let i = choose|i: int|
            0 <= i < view.roots.len() && #[trigger] view.has(RequestClass::Background, i);
        assert(view.roots[i].background.len() > 0);
    }
}

/// A query is served before background work, unless three queries were served since the last of
/// that and some waits; without queries that is served.
pub proof fn law_queries_go_first<T>(view: SchedulerView<T>)
    ensures
        has_queries(view) && view.query_turns < 3 ==> view.served() == RequestClass::Query,
        has_queries(view) && !has_background(view) ==> view.served() == RequestClass::Query,
        !has_queries(view) && has_background(view) ==> view.served() == RequestClass::Background,
        has_background(view) && view.query_turns >= 3 ==> view.served()
            == RequestClass::Background,
{
    lemma_waiting_classes(view);
}

proof fn lemma_next_is_first<T>(view: SchedulerView<T>, offset: int)
    requires
        view.first_turn(view.served(), offset),
    ensures
        view.next_root() == view.roots[view.turn(offset)].root,
{
    let chosen = choose|offset: int| view.first_turn(view.served(), offset);
    scheduler::lemma_one_first(view, view.served(), offset, chosen);
}

proof fn lemma_turns(cursor: int, offset: int, n: int)
    requires
        0 <= cursor < n,
        0 <= offset < n,
    ensures
        (cursor + offset) % n == if cursor + offset < n {
            cursor + offset
        } else {
            cursor + offset - n
        },
{
    if cursor + offset < n {
        vstd::arithmetic::div_mod::lemma_small_mod((cursor + offset) as nat, n as nat);
    } else {
        vstd::arithmetic::div_mod::lemma_small_mod((cursor + offset - n) as nat, n as nat);
        vstd::arithmetic::div_mod::lemma_mod_add_multiples_vanish(cursor + offset - n, n);
        assert(cursor + offset == n + (cursor + offset - n));
    }
}

/// Roots take turns: after a root was served, another one is, as long as one has work of the class
/// that is served.
pub proof fn law_roots_take_turns<T>(
    first: SchedulerView<T>,
    item: T,
    second: SchedulerView<T>,
    next: T,
    third: SchedulerView<T>,
    other: int,
)
    requires
        first.well_formed(),
        second.well_formed(),
        first.pops(item, second),
        second.pops(next, third),
        0 <= other < second.roots.len(),
        second.roots[other].queue(second.served()).len() > 0,
        second.roots[other].root != first.next_root(),
    ensures
        second.next_root() != first.next_root(),
{
    let class = first.served();
    let offset = choose|offset: int|
        {
            &&& #[trigger] first.first_turn(class, offset)
            &&& item == first.roots[first.turn(offset)].queue(class)[0]
            &&& second == first.after_pop(class, first.turn(offset))
        };
    lemma_next_is_first(first, offset);
    let n = first.roots.len() as int;
    lemma_turns(first.cursor, offset, n);
    let p = first.turn(offset);
    let name = first.roots[p].root;
    let root = first.roots[p].with_queue(class, first.roots[p].queue(class).drop_first());
    let served = second.served();
    let at = choose|at: int|
        {
            &&& #[trigger] second.first_turn(served, at)
            &&& next == second.roots[second.turn(at)].queue(served)[0]
            &&& third == second.after_pop(served, second.turn(at))
        };
    lemma_next_is_first(second, at);
    let m = second.roots.len() as int;
    lemma_turns(second.cursor, at, m);
    let q = second.turn(at);
    if root.is_empty() {
        assert(second.roots == first.roots.remove(p));
        if q < p {
            assert(second.roots[q] == first.roots[q]);
            assert(first.roots[q].root != first.roots[p].root);
        } else {
            assert(second.roots[q] == first.roots[q + 1]);
            assert(first.roots[p].root != first.roots[q + 1].root);
        }
    } else {
        assert(second.roots == first.roots.update(p, root));
        if q == p {
            assert(m == n);
            if p + 1 < n {
                vstd::arithmetic::div_mod::lemma_small_mod((p + 1) as nat, n as nat);
            } else {
                vstd::arithmetic::div_mod::lemma_mod_self_0(n);
            }
            assert(second.cursor == if p + 1 < n {
                p + 1
            } else {
                0
            });
            assert(at == n - 1);
            assert(other != p);
            let o = if other >= second.cursor {
                other - second.cursor
            } else {
                other - second.cursor + n
            };
            assert(0 <= o < n - 1);
            lemma_turns(second.cursor, o, n);
            assert(second.turn(o) == other);
            assert(second.has(served, second.turn(o)));
            assert(false);
        } else if q < p {
            assert(second.roots[q] == first.roots[q]);
            assert(first.roots[q].root != first.roots[p].root);
        } else {
            assert(second.roots[q] == first.roots[q]);
            assert(first.roots[p].root != first.roots[q].root);
        }
    }
}

} // verus!
