//! The roots that have background work outstanding.

use crate::text;
use vstd::prelude::*;

verus! {

#[derive(Debug)]
pub struct RootSet {
    names: Vec<String>,
}

impl View for RootSet {
    type V = Set<Seq<char>>;

    closed spec fn view(&self) -> Set<Seq<char>> {
        Set::new(|name: Seq<char>| self.holds(name))
    }
}

impl RootSet {
    pub closed spec fn holds(&self, name: Seq<char>) -> bool {
        exists|i: int| 0 <= i < self.names@.len() && (#[trigger] self.names@[i])@ == name
    }

    pub fn new() -> (set: RootSet)
        ensures
            set@ == Set::<Seq<char>>::empty(),
    {
        let set = RootSet { names: Vec::new() };
        assert(set@ =~= Set::<Seq<char>>::empty());
        set
    }

    pub fn contains(&self, name: &str) -> (found: bool)
        ensures
            found == self@.contains(name@),
    {
        let mut i: usize = 0;
        while i < self.names.len()
            invariant
                i <= self.names.len(),
                forall|k: int| 0 <= k < i ==> (#[trigger] self.names@[k])@ != name@,
            decreases self.names.len() - i,
        {
            if text::same_text(self.names[i].as_str(), name) {
                assert(self.holds(name@));
                return true;
            }
            i += 1;
        }
        false
    }

    pub fn insert(&mut self, name: &str)
        ensures
            final(self)@ == old(self)@.insert(name@),
    {
        let ghost before = self.names@;
        self.names.push(name.to_owned());
        proof {
            assert(self.names@ == before.push(self.names@.last()));
            assert forall|n: Seq<char>| self.holds(n) == (old(self).holds(n) || n == name@) by {
                if old(self).holds(n) {
                    let i = choose|i: int| 0 <= i < before.len() && (#[trigger] before[i])@ == n;
                    assert(self.names@[i]@ == n);
                }
                if n == name@ {
                    assert(self.names@[before.len() as int]@ == n);
                }
                if self.holds(n) {
                    let i = choose|i: int|
                        0 <= i < self.names@.len() && (#[trigger] self.names@[i])@ == n;
                    if i < before.len() {
                        assert(before[i]@ == n);
                    }
                }
            }
            assert(self@ =~= old(self)@.insert(name@));
        }
    }

    pub fn remove(&mut self, name: &str)
        ensures
            final(self)@ == old(self)@.remove(name@),
    {
        let mut kept: Vec<String> = Vec::new();
        let mut i: usize = 0;
        while i < self.names.len()
            invariant
                i <= self.names.len(),
                forall|k: int|
                    0 <= k < kept.len() ==> (#[trigger] kept@[k])@ != name@ && self.holds(
                        kept@[k]@,
                    ),
                forall|j: int|
                    0 <= j < i && (#[trigger] self.names@[j])@ != name@ ==> exists|k: int|
                        0 <= k < kept.len() && (#[trigger] kept@[k])@ == self.names@[j]@,
            decreases self.names.len() - i,
        {
            let ghost before = kept@;
            if !text::same_text(self.names[i].as_str(), name) {
                let copy = self.names[i].clone();
                assert(self.holds(copy@)) by {
                    assert(self.names@[i as int]@ == copy@);
                }
                kept.push(copy);
                proof {
                    assert forall|j: int|
                        0 <= j < i + 1 && (#[trigger] self.names@[j])@ != name@ implies exists|
                        k: int,
                    | 0 <= k < kept.len() && (#[trigger] kept@[k])@ == self.names@[j]@ by {
                        if j < i {
                            let k = choose|k: int|
                                0 <= k < before.len() && (#[trigger] before[k])@
                                    == self.names@[j]@;
                            assert(kept@[k] == before[k]);
                        } else {
                            assert(kept@[before.len() as int]@ == self.names@[j]@);
                        }
                    }
                }
            }
            i += 1;
        }
        self.names = kept;
        proof {
            assert forall|n: Seq<char>| self.holds(n) == (old(self).holds(n) && n != name@) by {
                if self.holds(n) {
                    let k = choose|k: int|
                        0 <= k < self.names@.len() && (#[trigger] self.names@[k])@ == n;
                }
                if old(self).holds(n) && n != name@ {
                    let j = choose|j: int|
                        0 <= j < old(self).names@.len() && (#[trigger] old(self).names@[j])@ == n;
                }
            }
            assert(self@ =~= old(self)@.remove(name@));
        }
    }
}

} // verus!
