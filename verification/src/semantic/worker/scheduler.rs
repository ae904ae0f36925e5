//! A queue that is fair between roots and between interactive and background work.
//!
//! Each root has a queue of queries and one of background work. Roots are served in
//! turn. Queries come first, but after three of them in a row background work is due.

use crate::text;
use std::collections::VecDeque;
use vstd::prelude::*;

verus! {

#[derive(Clone, Copy, Debug, PartialEq, Eq, Structural)]
pub enum RequestClass {
    Query,
    Background,
}

/// A request with what the scheduler needs to know of it.
pub struct ScheduledRequest<T> {
    pub class: RequestClass,
    pub root_id: String,
    pub request: T,
}

/// Work that belongs to a root.
pub trait RootIdent {
    /// The root that the work belongs to.
    fn root_id(&self) -> &str;
}

struct RootQueue<T> {
    root_id: String,
    query: VecDeque<T>,
    background: VecDeque<T>,
}

/// The queues of one root, oldest work first.
pub struct RootView<T> {
    pub root: Seq<char>,
    pub query: Seq<T>,
    pub background: Seq<T>,
}

/// The roots with work, the place of the root whose turn it is, and how many queries
/// were served since the last background work.
pub struct SchedulerView<T> {
    pub roots: Seq<RootView<T>>,
    pub cursor: int,
    pub query_turns: int,
}

impl<T> RootView<T> {
    pub open spec fn queue(self, class: RequestClass) -> Seq<T> {
        match class {
            RequestClass::Query => self.query,
            RequestClass::Background => self.background,
        }
    }

    pub open spec fn with_queue(self, class: RequestClass, queue: Seq<T>) -> Self {
        match class {
            RequestClass::Query => RootView { query: queue, ..self },
            RequestClass::Background => RootView { background: queue, ..self },
        }
    }

    pub open spec fn is_empty(self) -> bool {
        self.query.len() == 0 && self.background.len() == 0
    }
}

/// How many items wait in the first `n` roots.
pub open spec fn waiting<T>(roots: Seq<RootView<T>>, n: int) -> nat
    decreases n,
{
    if n <= 0 {
        0
    } else {
        waiting(roots, n - 1) + roots[n - 1].query.len() + roots[n - 1].background.len()
    }
}

impl<T> SchedulerView<T> {
    /// Every root is listed once and has work, and the cursor names a root if there is
    /// one.
    pub open spec fn well_formed(self) -> bool {
        &&& forall|i: int, j: int|
            0 <= i < j < self.roots.len() ==> (#[trigger] self.roots[i]).root != (
            #[trigger] self.roots[j]).root
        &&& forall|i: int| 0 <= i < self.roots.len() ==> !(#[trigger] self.roots[i]).is_empty()
        &&& self.roots.len() > 0 ==> 0 <= self.cursor < self.roots.len()
        &&& self.roots.len() == 0 ==> self.cursor == 0
        &&& 0 <= self.query_turns <= 255
    }

    /// How many items wait.
    pub open spec fn pending(self) -> nat {
        waiting(self.roots, self.roots.len() as int)
    }

    pub open spec fn has(self, class: RequestClass, i: int) -> bool {
        self.roots[i].queue(class).len() > 0
    }

    /// Whether any root has work of a class.
    pub open spec fn any(self, class: RequestClass) -> bool {
        exists|i: int| 0 <= i < self.roots.len() && #[trigger] self.has(class, i)
    }

    /// The root that is `offset` turns away.
    pub open spec fn turn(self, offset: int) -> int {
        (self.cursor + offset) % (self.roots.len() as int)
    }

    /// The class that is due: queries, until three were served in a row.
    pub open spec fn due(self) -> RequestClass {
        if self.query_turns < 3 {
            RequestClass::Query
        } else {
            RequestClass::Background
        }
    }

    /// The class that is served next: the one that is due if any root has such work, else
    /// the other.
    pub open spec fn served(self) -> RequestClass {
        if self.any(self.due()) {
            self.due()
        } else if self.due() == RequestClass::Query {
            RequestClass::Background
        } else {
            RequestClass::Query
        }
    }

    /// Whether the root `offset` turns away is the first with work of a class.
    pub open spec fn first_turn(self, class: RequestClass, offset: int) -> bool {
        &&& 0 <= offset < self.roots.len()
        &&& self.has(class, self.turn(offset))
        &&& forall|o: int| 0 <= o < offset ==> !#[trigger] self.has(class, self.turn(o))
    }

    /// The queues after the oldest work of a class was taken from root `i`. A root left
    /// without work is dropped, and the root behind it is next.
    pub open spec fn after_pop(self, class: RequestClass, i: int) -> Self {
        let root = self.roots[i].with_queue(class, self.roots[i].queue(class).drop_first());
        let roots = if root.is_empty() {
            self.roots.remove(i)
        } else {
            self.roots.update(i, root)
        };
        SchedulerView {
            roots,
            cursor: if roots.len() == 0 {
                0
            } else if root.is_empty() {
                i % (roots.len() as int)
            } else {
                (i + 1) % (roots.len() as int)
            },
            query_turns: if class == RequestClass::Background {
                0
            } else if self.query_turns < 255 {
                self.query_turns + 1
            } else {
                255
            },
        }
    }

    /// Whether taking the next work gives `item` and leaves `after`.
    pub open spec fn pops(self, item: T, after: Self) -> bool {
        exists|offset: int|
            {
                &&& #[trigger] self.first_turn(self.served(), offset)
                &&& item == self.roots[self.turn(offset)].queue(self.served())[0]
                &&& after == self.after_pop(self.served(), self.turn(offset))
            }
    }

    /// Whether root `i` carries the name `root`, or `i` is the place behind the last root
    /// and no root carries it.
    pub open spec fn place_of(self, root: Seq<char>, i: int) -> bool {
        &&& 0 <= i <= self.roots.len()
        &&& i < self.roots.len() ==> self.roots[i].root == root
        &&& i == self.roots.len() ==> forall|j: int|
            0 <= j < self.roots.len() ==> (#[trigger] self.roots[j]).root != root
    }

    /// The queues after work was added for the root at place `i`.
    pub open spec fn after_push(
        self,
        root: Seq<char>,
        i: int,
        class: RequestClass,
        item: T,
    ) -> Self {
        let known = if i < self.roots.len() {
            self.roots[i]
        } else {
            RootView { root, query: Seq::empty(), background: Seq::empty() }
        };
        let grown = known.with_queue(class, known.queue(class).push(item));
        SchedulerView {
            roots: if i < self.roots.len() {
                self.roots.update(i, grown)
            } else {
                self.roots.push(grown)
            },
            ..self
        }
    }

    /// Whether adding work for a root leaves `after`.
    pub open spec fn pushes(
        self,
        root: Seq<char>,
        class: RequestClass,
        item: T,
        after: Self,
    ) -> bool {
        exists|i: int|
            #[trigger] self.place_of(root, i) && after == self.after_push(root, i, class, item)
    }
}

pub struct FairScheduler<T> {
    roots: Vec<RootQueue<T>>,
    cursor: usize,
    query_turns: u8,
}

impl<T> View for RootQueue<T> {
    type V = RootView<T>;

    closed spec fn view(&self) -> RootView<T> {
        RootView { root: self.root_id@, query: self.query@, background: self.background@ }
    }
}

impl<T> View for FairScheduler<T> {
    type V = SchedulerView<T>;

    closed spec fn view(&self) -> SchedulerView<T> {
        SchedulerView {
            roots: Seq::new(self.roots@.len(), |i: int| self.roots@[i]@),
            cursor: self.cursor as int,
            query_turns: self.query_turns as int,
        }
    }
}

impl<T> Default for FairScheduler<T> {
    fn default() -> (scheduler: Self)
        ensures
            scheduler@.roots.len() == 0,
            scheduler@.cursor == 0,
            scheduler@.query_turns == 0,
            scheduler@.well_formed(),
    {
        FairScheduler { roots: Vec::new(), cursor: 0, query_turns: 0 }
    }
}

impl<T> FairScheduler<T> {
    /// Adds work for the root that it names.
    pub fn push(&mut self, class: RequestClass, item: T) where T: RootIdent
        requires
            old(self)@.well_formed(),
        ensures
            final(self)@.well_formed(),
            exists|root_id: &str|
                #[trigger] call_ensures(T::root_id, (&item,), root_id) && old(self)@.pushes(
                    root_id@,
                    class,
                    item,
                    final(self)@,
                ),
    {
        let root_id = item.root_id();
        assert(call_ensures(T::root_id, (&item,), root_id));
        let owned = root_id.to_owned();
        self.enqueue(owned, class, item)
    }

    /// Adds work for a root.
    pub fn enqueue(&mut self, root_id: String, class: RequestClass, item: T)
        requires
            old(self)@.well_formed(),
        ensures
            final(self)@.well_formed(),
            old(self)@.pushes(root_id@, class, item, final(self)@),
    {
        let ghost before = self@;
        let mut i: usize = 0;
        while i < self.roots.len() && !text::same_text(
            self.roots[i].root_id.as_str(),
            root_id.as_str(),
        )
            invariant
                i <= self.roots.len(),
                before == self@,
                forall|j: int| 0 <= j < i ==> (#[trigger] self@.roots[j]).root != root_id@,
            decreases self.roots.len() - i,
        {
            assert(self@.roots[i as int].root == self.roots@[i as int].root_id@);
            i += 1;
        }
        if i < self.roots.len() {
            assert(self@.roots[i as int].root == root_id@);
            match class {
                RequestClass::Query => self.roots[i].query.push_back(item),
                RequestClass::Background => self.roots[i].background.push_back(item),
            }
        } else {
            let mut queue = RootQueue {
                root_id,
                query: VecDeque::new(),
                background: VecDeque::new(),
            };
            match class {
                RequestClass::Query => queue.query.push_back(item),
                RequestClass::Background => queue.background.push_back(item),
            }
            self.roots.push(queue);
        }
        proof {
            assert(before.place_of(root_id@, i as int));
            let after = before.after_push(root_id@, i as int, class, item);
            assert(self@.roots =~= after.roots);
            assert(before.pushes(root_id@, class, item, self@));
            assert forall|a: int, b: int| 0 <= a < b < self@.roots.len() implies (
            #[trigger] self@.roots[a]).root != (#[trigger] self@.roots[b]).root by {
                if b < before.roots.len() {
                    assert(before.roots[a].root != before.roots[b].root);
                }
            }
            assert forall|a: int| 0 <= a < self@.roots.len() implies !(
            #[trigger] self@.roots[a]).is_empty() by {
                if a < before.roots.len() {
                    assert(!before.roots[a].is_empty());
                }
            }
        }
    }
}

impl<T> FairScheduler<T> {
    /// The place of the first root, in turn, with work of a class.
    fn find(&self, class: RequestClass) -> (found: Option<usize>)
        requires
            self@.well_formed(),
            self@.roots.len() > 0,
        ensures
            match found {
                Some(i) => i < self.roots.len() && exists|offset: int|
                    #[trigger] self@.first_turn(class, offset) && i == self@.turn(offset),
                None => !self@.any(class),
            },
    {
        let len: usize = self.roots.len();
        let mut offset: usize = 0;
        let mut index: usize = self.cursor;
        assert(self@.turn(0) == self.cursor) by {
            vstd::arithmetic::div_mod::lemma_small_mod(self.cursor as nat, len as nat);
        }
        while offset < len
            invariant
                offset <= len,
                len == self.roots.len(),
                len > 0,
                self@.well_formed(),
                index < len,
                index == self@.turn(offset as int),
                forall|o: int| 0 <= o < offset ==> !#[trigger] self@.has(class, self@.turn(o)),
            decreases len - offset,
        {
            let waits = match class {
                RequestClass::Query => self.roots[index].query.len() > 0,
                RequestClass::Background => self.roots[index].background.len() > 0,
            };
            assert(waits == self@.has(class, self@.turn(offset as int)));
            if waits {
                assert(self@.first_turn(class, offset as int));
                return Some(index);
            }
            proof {
                lemma_next_turn(self.cursor as int, offset as int, len as int);
            }
            offset += 1;
            index = if index + 1 < len {
                index + 1
            } else {
                0
            };
        }
        proof {
            assert forall|i: int| 0 <= i < self@.roots.len() implies !#[trigger] self@.has(
                class,
                i,
            ) by {
                let o = if i >= self.cursor {
                    i - self.cursor
                } else {
                    i - self.cursor + len
                };
                lemma_turn_reaches(self.cursor as int, i, len as int);
                assert(self@.turn(o) == i);
            }
        }
        None
    }

    /// Takes the next work: the class that is due, from the next root in turn that has
    /// such work. Without such work the other class is served.
    pub fn pop(&mut self) -> (item: Option<T>)
        requires
            old(self)@.well_formed(),
        ensures
            final(self)@.well_formed(),
            match item {
                Some(item) => old(self)@.roots.len() > 0 && old(self)@.pops(item, final(self)@),
                None => old(self)@.roots.len() == 0 && final(self)@ == old(self)@,
            },
    {
        if self.roots.len() == 0 {
            return None;
        }
        let ghost before = self@;
        let preferred = if self.query_turns < 3 {
            RequestClass::Query
        } else {
            RequestClass::Background
        };
        let fallback = match preferred {
            RequestClass::Query => RequestClass::Background,
            RequestClass::Background => RequestClass::Query,
        };
        let (class, index) = match self.find(preferred) {
            Some(index) => (preferred, index),
            None => match self.find(fallback) {
                Some(index) => (fallback, index),
                None => {
                    proof {
                        assert(!before.roots[0].is_empty());
                        assert(before.has(RequestClass::Query, 0) || before.has(
                            RequestClass::Background,
                            0,
                        ));
                    }
                    return None;
                },
            },
        };
        assert(class == before.served());
        let ghost offset = choose|offset: int|
            #[trigger] before.first_turn(class, offset) && index == before.turn(offset);
        let item = match class {
            RequestClass::Query => self.roots[index].query.pop_front(),
            RequestClass::Background => self.roots[index].background.pop_front(),
        };
        let ghost taken = before.roots[index as int].with_queue(
            class,
            before.roots[index as int].queue(class).drop_first(),
        );
        assert(self@.roots =~= before.roots.update(index as int, taken));
        if class == RequestClass::Query {
            if self.query_turns < 255 {
                self.query_turns = self.query_turns + 1;
            }
        } else {
            self.query_turns = 0;
        }
        let next: usize = index + 1;
        if self.roots[index].query.len() == 0 && self.roots[index].background.len() == 0 {
            assert(self@.roots[index as int] == taken);
            let emptied = self.roots.remove(index);
            assert(self@.roots =~= before.roots.remove(index as int));
            self.cursor = if index < self.roots.len() {
                index
            } else {
                0
            };
            proof {
                if self.roots.len() > 0 {
                    if index < self.roots.len() {
                        vstd::arithmetic::div_mod::lemma_small_mod(
                            index as nat,
                            self.roots.len() as nat,
                        );
                    } else {
                        vstd::arithmetic::div_mod::lemma_mod_self_0(index as int);
                    }
                }
            }
        } else {
            assert(self@.roots[index as int] == taken);
            self.cursor = if next < self.roots.len() {
                next
            } else {
                0
            };
            proof {
                if next < self.roots.len() {
                    vstd::arithmetic::div_mod::lemma_small_mod(
                        next as nat,
                        self.roots.len() as nat,
                    );
                } else {
                    vstd::arithmetic::div_mod::lemma_mod_self_0(next as int);
                }
            }
        }
        proof {
            let after = before.after_pop(class, index as int);
            assert(self@.roots =~= after.roots);
            assert(self@ == after);
            assert(before.pops(item->0, self@));
            lemma_pop_keeps_form(before, class, index as int);
        }
        item
    }

    /// How many items wait.
    pub fn pending(&self) -> (count: usize)
        requires
            self@.pending() <= usize::MAX,
        ensures
            count == self@.pending(),
    {
        let mut count: usize = 0;
        let mut i: usize = 0;
        while i < self.roots.len()
            invariant
                i <= self.roots.len(),
                self@.roots.len() == self.roots.len(),
                self@.pending() <= usize::MAX,
                count == waiting(self@.roots, i as int),
            decreases self.roots.len() - i,
        {
            assert(self@.roots[i as int] == self.roots@[i as int]@);
            proof {
                lemma_waiting_grows(self@.roots, i + 1, self@.roots.len() as int);
            }
            count = count + self.roots[i].query.len() + self.roots[i].background.len();
            i += 1;
        }
        count
    }
}

proof fn lemma_next_turn(cursor: int, offset: int, len: int)
    requires
        0 <= cursor < len,
        0 <= offset,
    ensures
        (cursor + offset + 1) % len == if (cursor + offset) % len + 1 < len {
            (cursor + offset) % len + 1
        } else {
            0
        },
{
    let at = (cursor + offset) % len;
    vstd::arithmetic::div_mod::lemma_fundamental_div_mod(cursor + offset, len);
    let q = (cursor + offset) / len;
    if at + 1 < len {
        vstd::arithmetic::div_mod::lemma_fundamental_div_mod_converse(
            cursor + offset + 1,
            len,
            q,
            at + 1,
        );
    } else {
        assert(len * (q + 1) == len * q + len) by (nonlinear_arith);
        vstd::arithmetic::div_mod::lemma_fundamental_div_mod_converse(
            cursor + offset + 1,
            len,
            q + 1,
            0,
        );
    }
}

proof fn lemma_turn_reaches(cursor: int, i: int, len: int)
    requires
        0 <= cursor < len,
        0 <= i < len,
    ensures
        (cursor + if i >= cursor {
            i - cursor
        } else {
            i - cursor + len
        }) % len == i,
{
    if i >= cursor {
        vstd::arithmetic::div_mod::lemma_small_mod(i as nat, len as nat);
    } else {
        vstd::arithmetic::div_mod::lemma_fundamental_div_mod_converse(i + len, len, 1, i);
    }
}

proof fn lemma_waiting_grows<T>(roots: Seq<RootView<T>>, a: int, b: int)
    requires
        a <= b,
    ensures
        waiting(roots, a) <= waiting(roots, b),
    decreases b - a,
{
    if a < b {
        lemma_waiting_grows(roots, a, b - 1);
    }
}

proof fn lemma_pop_keeps_form<T>(view: SchedulerView<T>, class: RequestClass, i: int)
    requires
        view.well_formed(),
        0 <= i < view.roots.len(),
        view.has(class, i),
    ensures
        view.after_pop(class, i).well_formed(),
{
    let after = view.after_pop(class, i);
    let root = view.roots[i].with_queue(class, view.roots[i].queue(class).drop_first());
    assert forall|a: int, b: int| 0 <= a < b < after.roots.len() implies (
    #[trigger] after.roots[a]).root != (#[trigger] after.roots[b]).root by {
        let x = if root.is_empty() && a >= i { a + 1 } else { a };
        let y = if root.is_empty() && b >= i { b + 1 } else { b };
        assert(view.roots[x].root != view.roots[y].root);
    }
    assert forall|a: int| 0 <= a < after.roots.len() implies !(
    #[trigger] after.roots[a]).is_empty() by {
        let x = if root.is_empty() && a >= i { a + 1 } else { a };
        assert(!view.roots[x].is_empty());
    }
}

/// Adding work makes one more item wait, taking it one less.
pub proof fn law_work_is_conserved<T>(
    before: SchedulerView<T>,
    after: SchedulerView<T>,
    root: Seq<char>,
    class: RequestClass,
    item: T,
)
    requires
        before.well_formed(),
    ensures
        before.pushes(root, class, item, after) ==> after.pending() == before.pending() + 1,
        before.roots.len() > 0 && before.pops(item, after) ==> after.pending() + 1
            == before.pending(),
{
    if before.pushes(root, class, item, after) {
        let i = choose|i: int|
            #[trigger] before.place_of(root, i) && after == before.after_push(root, i, class, item);
        if i < before.roots.len() {
            lemma_waiting_update(before.roots, i, after.roots[i], before.roots.len() as int);
        } else {
            lemma_waiting_same(before.roots, after.roots, before.roots.len() as int);
        }
    }
    if before.roots.len() > 0 && before.pops(item, after) {
        let served = before.served();
        let offset = choose|offset: int|
            {
                &&& #[trigger] before.first_turn(served, offset)
                &&& item == before.roots[before.turn(offset)].queue(served)[0]
                &&& after == before.after_pop(served, before.turn(offset))
            };
        let i = before.turn(offset);
        assert(0 <= i < before.roots.len());
        let root = before.roots[i].with_queue(served, before.roots[i].queue(served).drop_first());
        let updated = before.roots.update(i, root);
        lemma_waiting_update(before.roots, i, root, before.roots.len() as int);
        if root.is_empty() {
            assert(after.roots == updated.remove(i)) by {
                assert(before.roots.remove(i) =~= updated.remove(i));
            }
            lemma_waiting_remove(updated, i, updated.len() as int);
        }
    }
}

proof fn lemma_waiting_same<T>(a: Seq<RootView<T>>, b: Seq<RootView<T>>, n: int)
    requires
        n <= a.len(),
        n <= b.len(),
        forall|k: int| 0 <= k < n ==> a[k] == b[k],
    ensures
        waiting(a, n) == waiting(b, n),
    decreases n,
{
    if n > 0 {
        lemma_waiting_same(a, b, n - 1);
    }
}

proof fn lemma_waiting_update<T>(roots: Seq<RootView<T>>, i: int, root: RootView<T>, n: int)
    requires
        0 <= i < roots.len(),
        n <= roots.len(),
    ensures
        waiting(roots.update(i, root), n) == if i < n {
            waiting(roots, n) + root.query.len() + root.background.len() - roots[i].query.len()
                - roots[i].background.len()
        } else {
            waiting(roots, n) as int
        },
    decreases n,
{
    if n > 0 {
        lemma_waiting_update(roots, i, root, n - 1);
    }
}

proof fn lemma_waiting_remove<T>(roots: Seq<RootView<T>>, i: int, n: int)
    requires
        0 <= i < n <= roots.len(),
        roots[i].is_empty(),
    ensures
        waiting(roots.remove(i), n - 1) == waiting(roots, n),
    decreases n,
{
    if i == n - 1 {
        lemma_waiting_same(roots, roots.remove(i), n - 1);
    } else {
        lemma_waiting_remove(roots, i, n - 1);
        assert(roots.remove(i)[n - 2] == roots[n - 1]);
    }
}

/// Background work is never held back by more than three queries: when three queries
/// were served in a row and background work waits, it is served next; and a query that
/// is served before waiting background work brings its turn nearer.
pub proof fn law_background_work_progresses<T>(
    before: SchedulerView<T>,
    item: T,
    after: SchedulerView<T>,
)
    requires
        before.well_formed(),
        before.any(RequestClass::Background),
        before.pops(item, after),
    ensures
        before.query_turns >= 3 ==> before.served() == RequestClass::Background,
        before.served() == RequestClass::Query ==> {
            &&& before.query_turns < 3
            &&& after.query_turns == before.query_turns + 1
            &&& after.any(RequestClass::Background)
        },
        before.served() == RequestClass::Background ==> after.query_turns == 0,
{
    let served = before.served();
    if served == RequestClass::Query {
        let offset = choose|offset: int|
            {
                &&& #[trigger] before.first_turn(served, offset)
                &&& item == before.roots[before.turn(offset)].queue(served)[0]
                &&& after == before.after_pop(served, before.turn(offset))
            };
        let i = before.turn(offset);
        assert(0 <= i < before.roots.len());
        let b = choose|b: int|
            0 <= b < before.roots.len() && #[trigger] before.has(RequestClass::Background, b);
        let root = before.roots[i].with_queue(served, before.roots[i].queue(served).drop_first());
        let x = if root.is_empty() && b > i { b - 1 } else { b };
        assert(after.roots[x].background == before.roots[b].background);
        assert(after.has(RequestClass::Background, x));
    }
}

/// Of four items taken in a row while background work waits, one is background work.
pub proof fn law_background_within_four_turns<T>(
    v0: SchedulerView<T>,
    v1: SchedulerView<T>,
    v2: SchedulerView<T>,
    v3: SchedulerView<T>,
    i0: T,
    i1: T,
    i2: T,
)
    requires
        v0.well_formed(),
        v1.well_formed(),
        v2.well_formed(),
        v3.well_formed(),
        v0.any(RequestClass::Background),
        v0.pops(i0, v1),
        v1.pops(i1, v2),
        v2.pops(i2, v3),
    ensures
        v0.served() == RequestClass::Background || v1.served() == RequestClass::Background
            || v2.served() == RequestClass::Background || v3.served() == RequestClass::Background,
{
    law_background_work_progresses(v0, i0, v1);
    if v0.served() == RequestClass::Query {
        law_background_work_progresses(v1, i1, v2);
        if v1.served() == RequestClass::Query {
            law_background_work_progresses(v2, i2, v3);
        }
    }
}

impl<T> SchedulerView<T> {
    /// What waits for a root in a class, oldest first.
    pub open spec fn queue_of(self, root: Seq<char>, class: RequestClass) -> Seq<T> {
        if exists|i: int| 0 <= i < self.roots.len() && (#[trigger] self.roots[i]).root == root {
            let i = choose|i: int|
                0 <= i < self.roots.len() && (#[trigger] self.roots[i]).root == root;
            self.roots[i].queue(class)
        } else {
            Seq::empty()
        }
    }

    /// The root that is served next.
    pub open spec fn next_root(self) -> Seq<char> {
        let offset = choose|offset: int| self.first_turn(self.served(), offset);
        self.roots[self.turn(offset)].root
    }
}

proof fn lemma_queue_of<T>(view: SchedulerView<T>, i: int, class: RequestClass)
    requires
        view.well_formed(),
        0 <= i < view.roots.len(),
    ensures
        view.queue_of(view.roots[i].root, class) == view.roots[i].queue(class),
{
    let root = view.roots[i].root;
    let j = choose|j: int| 0 <= j < view.roots.len() && (#[trigger] view.roots[j]).root == root;
    if i < j {
        assert(view.roots[i].root != view.roots[j].root);
    } else if j < i {
        assert(view.roots[j].root != view.roots[i].root);
    }
}

/// Only one root is the first in turn.
pub proof fn lemma_one_first<T>(view: SchedulerView<T>, class: RequestClass, a: int, b: int)
    requires
        view.first_turn(class, a),
        view.first_turn(class, b),
    ensures
        a == b,
{
    if a < b {
        assert(!view.has(class, view.turn(a)));
    } else if b < a {
        assert(!view.has(class, view.turn(b)));
    }
}

/// Work that is added for a root comes last in its class, and nothing else moves.
pub proof fn law_added_work_comes_last<T>(
    before: SchedulerView<T>,
    root: Seq<char>,
    class: RequestClass,
    item: T,
    after: SchedulerView<T>,
)
    requires
        before.well_formed(),
        after.well_formed(),
        before.pushes(root, class, item, after),
    ensures
        after.pending() == before.pending() + 1,
        after.queue_of(root, class) == before.queue_of(root, class).push(item),
        forall|other: Seq<char>, kind: RequestClass|
            other != root || kind != class ==> #[trigger] after.queue_of(other, kind)
                == before.queue_of(other, kind),
{
    law_work_is_conserved(before, after, root, class, item);
    let i = choose|i: int|
        #[trigger] before.place_of(root, i) && after == before.after_push(root, i, class, item);
    assert(after.roots[i].root == root);
    lemma_queue_of(after, i, class);
    if i < before.roots.len() {
        lemma_queue_of(before, i, class);
    }
    assert forall|other: Seq<char>, kind: RequestClass|
        other != root || kind != class implies #[trigger] after.queue_of(other, kind)
        == before.queue_of(other, kind) by {
        if other == root {
            lemma_queue_of(after, i, kind);
            if i < before.roots.len() {
                lemma_queue_of(before, i, kind);
            }
        } else {
            if exists|j: int| 0 <= j < before.roots.len() && (#[trigger] before.roots[j]).root
                == other {
                let j = choose|j: int|
                    0 <= j < before.roots.len() && (#[trigger] before.roots[j]).root == other;
                assert(after.roots[j] == before.roots[j]);
                lemma_queue_of(before, j, kind);
                lemma_queue_of(after, j, kind);
            } else {
                assert forall|j: int| 0 <= j < after.roots.len() implies (
                #[trigger] after.roots[j]).root != other by {
                    if j < before.roots.len() {
                        assert(before.roots[j].root != other);
                    }
                }
            }
        }
    }
}

/// Work that is taken was first in its class for its root, and nothing else moves.
pub proof fn law_taken_work_came_first<T>(
    before: SchedulerView<T>,
    item: T,
    after: SchedulerView<T>,
)
    requires
        before.well_formed(),
        before.roots.len() > 0,
        before.pops(item, after),
    ensures
        after.well_formed(),
        after.pending() + 1 == before.pending(),
        before.queue_of(before.next_root(), before.served()).len() > 0,
        item == before.queue_of(before.next_root(), before.served())[0],
        after.queue_of(before.next_root(), before.served()) == before.queue_of(
            before.next_root(),
            before.served(),
        ).drop_first(),
        forall|root: Seq<char>, class: RequestClass|
            root != before.next_root() || class != before.served() ==> #[trigger] after.queue_of(
                root,
                class,
            ) == before.queue_of(root, class),
{
    let served = before.served();
    let offset = choose|offset: int|
        {
            &&& #[trigger] before.first_turn(served, offset)
            &&& item == before.roots[before.turn(offset)].queue(served)[0]
            &&& after == before.after_pop(served, before.turn(offset))
        };
    let chosen = choose|offset: int| before.first_turn(served, offset);
    lemma_one_first(before, served, offset, chosen);
    let i = before.turn(offset);
    assert(0 <= i < before.roots.len());
    law_work_is_conserved(before, after, Seq::empty(), served, item);
    lemma_pop_keeps_form(before, served, i);
    lemma_queue_of(before, i, served);
    let name = before.roots[i].root;
    let root = before.roots[i].with_queue(served, before.roots[i].queue(served).drop_first());
    if root.is_empty() {
        assert forall|j: int| 0 <= j < after.roots.len() implies (#[trigger] after.roots[j]).root
            != name by {
            if j < i {
                assert(before.roots[j].root != before.roots[i].root);
            } else {
                assert(before.roots[i].root != before.roots[j + 1].root);
            }
        }
        assert(root.queue(served) =~= Seq::<T>::empty());
    } else {
        lemma_queue_of(after, i, served);
    }
    assert forall|other: Seq<char>, class: RequestClass|
        other != name || class != served implies #[trigger] after.queue_of(other, class)
        == before.queue_of(other, class) by {
        if other == name {
            lemma_queue_of(before, i, class);
            if root.is_empty() {
                assert(root.queue(class) =~= Seq::<T>::empty());
            } else {
                lemma_queue_of(after, i, class);
            }
        } else if exists|j: int| 0 <= j < before.roots.len() && (#[trigger] before.roots[j]).root
            == other {
            let j = choose|j: int|
                0 <= j < before.roots.len() && (#[trigger] before.roots[j]).root == other;
            let k = if root.is_empty() && j > i { j - 1 } else { j };
            assert(after.roots[k] == before.roots[j]);
            lemma_queue_of(before, j, class);
            lemma_queue_of(after, k, class);
        } else {
            assert forall|j: int| 0 <= j < after.roots.len() implies (
            #[trigger] after.roots[j]).root != other by {
                let k = if root.is_empty() && j >= i { j + 1 } else { j };
                assert(before.roots[k].root != other);
            }
        }
    }
}

/// Whether `items` were taken one after the other, from the first of `views` to the last.
pub open spec fn taken_in_turn<T>(views: Seq<SchedulerView<T>>, items: Seq<T>) -> bool {
    &&& views.len() == items.len() + 1
    &&& forall|k: int|
        0 <= k < items.len() ==> (#[trigger] views[k]).roots.len() > 0 && views[k].pops(
            items[k],
            views[k + 1],
        )
}

/// The items that were taken for a root in a class, in order.
pub open spec fn taken_for<T>(
    views: Seq<SchedulerView<T>>,
    items: Seq<T>,
    root: Seq<char>,
    class: RequestClass,
) -> Seq<T>
    decreases items.len(),
{
    if items.len() == 0 {
        Seq::empty()
    } else {
        let before = taken_for(views.drop_last(), items.drop_last(), root, class);
        let view = views[items.len() - 1];
        if view.next_root() == root && view.served() == class {
            before.push(items.last())
        } else {
            before
        }
    }
}

/// Taking work serves each root and class in the order in which its work was added: what was
/// taken for it, followed by what still waits, is what waited before. Where nothing waits any
/// more, everything was taken, each item once.
pub proof fn law_work_is_served_in_order<T>(
    views: Seq<SchedulerView<T>>,
    items: Seq<T>,
    root: Seq<char>,
    class: RequestClass,
)
    requires
        views.len() > 0,
        views[0].well_formed(),
        taken_in_turn(views, items),
    ensures
        views.last().well_formed(),
        views.last().pending() + items.len() == views[0].pending(),
        taken_for(views, items, root, class) + views.last().queue_of(root, class)
            == views[0].queue_of(root, class),
        views.last().roots.len() == 0 ==> items.len() == views[0].pending() && taken_for(
            views,
            items,
            root,
            class,
        ) == views[0].queue_of(root, class),
    decreases items.len(),
{
    if items.len() == 0 {
        assert(taken_for(views, items, root, class) + views[0].queue_of(root, class)
            =~= views[0].queue_of(root, class));
    } else {
        let fewer = views.drop_last();
        let less = items.drop_last();
        assert forall|k: int| 0 <= k < less.len() implies (#[trigger] fewer[k]).roots.len() > 0
            && fewer[k].pops(less[k], fewer[k + 1]) by {
            assert(fewer[k] == views[k] && fewer[k + 1] == views[k + 1]);
        }
        law_work_is_served_in_order(fewer, less, root, class);
        let view = views[items.len() - 1];
        assert(fewer.last() == view);
        assert(views[items.len() - 1 + 1] == views.last());
        law_taken_work_came_first(view, items.last(), views.last());
        let before = taken_for(fewer, less, root, class);
        let queue = view.queue_of(root, class);
        if view.next_root() == root && view.served() == class {
            assert(before.push(items.last()) + queue.drop_first() =~= before + queue);
        }
    }
    if views.last().roots.len() == 0 {
        assert(taken_for(views, items, root, class) + Seq::<T>::empty() =~= taken_for(
            views,
            items,
            root,
            class,
        ));
    }
}

} // verus!
