//! Sets of names.

use vstd::prelude::*;

verus! {

/// Whether `name` is among the given texts.
pub open spec fn among(names: Seq<String>, name: Seq<char>) -> bool {
    exists|i: int| 0 <= i < names.len() && (#[trigger] names[i])@ == name
}

/// A set of names, in which no name occurs twice.
pub struct NameSet {
    names: Vec<String>,
}

impl View for NameSet {
    type V = Set<Seq<char>>;

    closed spec fn view(&self) -> Set<Seq<char>> {
        Set::new(|name: Seq<char>| among(self.names@, name))
    }
}

impl NameSet {
    #[verifier::type_invariant]
    spec fn distinct(self) -> bool {
        forall|i: int, j: int|
            0 <= i < j < self.names@.len() ==> (#[trigger] self.names@[i])@ != (
            #[trigger] self.names@[j])@
    }

    /// The empty set.
    pub fn new() -> (r: NameSet)
        ensures
            r@ == Set::<Seq<char>>::empty(),
    {
        let r = NameSet { names: Vec::new() };
        assert(r@ =~= Set::<Seq<char>>::empty());
        r
    }

    /// Whether `name` is in the set.
    pub fn contains(&self, name: &String) -> (r: bool)
        ensures
            r == self@.contains(name@),
    {
        let mut i: usize = 0;
        while i < self.names.len()
            invariant
                i <= self.names@.len(),
                forall|k: int| 0 <= k < i ==> (#[trigger] self.names@[k])@ != name@,
            decreases self.names@.len() - i,
        {
            if self.names[i] == *name {
                assert(self.names@[i as int]@ == name@);
                return true;
            }
            i = i + 1;
        }
        false
    }

    /// Adds `name`; tells whether it is new.
    pub fn insert(&mut self, name: String) -> (r: bool)
        ensures
            r == !old(self)@.contains(name@),
            final(self)@ == old(self)@.insert(name@),
    {
        proof {
            use_type_invariant(&*self);
        }
        if self.contains(&name) {
            assert(self@ =~= old(self)@.insert(name@));
            return false;
        }
        let ghost before = self.names@;
        let ghost added = name@;
        let mut names = Vec::new();
        std::mem::swap(&mut names, &mut self.names);
        names.push(name);
        proof {
            assert forall|i: int| 0 <= i < before.len() implies (#[trigger] before[i])@ != added by {
                assert(among(before, before[i]@));
            }
        }
        self.names = names;
        proof {
            assert forall|n: Seq<char>| among(self.names@, n) == (among(before, n) || n == added) by {
                if among(before, n) {
                    let i = choose|i: int| 0 <= i < before.len() && (#[trigger] before[i])@ == n;
                    assert(self.names@[i]@ == n);
                }
                if n == added {
                    assert(self.names@[before.len() as int]@ == n);
                }
            }
            assert(self@ =~= old(self)@.insert(added));
        }
        true
    }

    /// A copy of the set.
    pub fn duplicate(&self) -> (r: NameSet)
        ensures
            r@ == self@,
    {
        let mut r = NameSet::new();
        r.extend(self);
        assert(r@ =~= self@);
        r
    }

    /// Adds every name of `other`.
    pub fn extend(&mut self, other: &NameSet)
        ensures
            final(self)@ == old(self)@.union(other@),
    {
        let mut i: usize = 0;
        assert(self@ =~= old(self)@.union(Set::new(|n: Seq<char>| among(other.names@.take(0), n))));
        while i < other.names.len()
            invariant
                i <= other.names@.len(),
                self@ == old(self)@.union(
                    Set::new(|n: Seq<char>| among(other.names@.take(i as int), n)),
                ),
            decreases other.names@.len() - i,
        {
            let ghost seen = other.names@.take(i as int);
            let ghost more = other.names@.take(i + 1);
            let ghost before = self@;
            self.insert(other.names[i].clone());
            proof {
                assert forall|n: Seq<char>| among(more, n) == (among(seen, n) || n
                    == other.names@[i as int]@) by {
                    if among(seen, n) {
                        let k = choose|k: int| 0 <= k < seen.len() && (#[trigger] seen[k])@ == n;
                        assert(more[k]@ == n);
                    }
                    if n == other.names@[i as int]@ {
                        assert(more[i as int]@ == n);
                    }
                    if among(more, n) {
                        let k = choose|k: int| 0 <= k < more.len() && (#[trigger] more[k])@ == n;
                        if k < i {
                            assert(seen[k]@ == n);
                        }
                    }
                }
                assert(self@ =~= old(self)@.union(Set::new(|n: Seq<char>| among(more, n))));
            }
            i = i + 1;
        }
        assert(other.names@.take(i as int) =~= other.names@);
    }

    /// The names that are in both sets.
    pub fn common(&self, other: &NameSet) -> (r: NameSet)
        ensures
            r@ == self@.intersect(other@),
    {
        let mut r = NameSet::new();
        let mut i: usize = 0;
        assert(r@ =~= Set::new(|n: Seq<char>| among(self.names@.take(0), n)).intersect(other@));
        while i < self.names.len()
            invariant
                i <= self.names@.len(),
                r@ == Set::new(|n: Seq<char>| among(self.names@.take(i as int), n)).intersect(
                    other@,
                ),
            decreases self.names@.len() - i,
        {
            let ghost seen = self.names@.take(i as int);
            let ghost more = self.names@.take(i + 1);
            if other.contains(&self.names[i]) {
                r.insert(self.names[i].clone());
            }
            proof {
                assert forall|n: Seq<char>| among(more, n) == (among(seen, n) || n
                    == self.names@[i as int]@) by {
                    if among(seen, n) {
                        let k = choose|k: int| 0 <= k < seen.len() && (#[trigger] seen[k])@ == n;
                        assert(more[k]@ == n);
                    }
                    if n == self.names@[i as int]@ {
                        assert(more[i as int]@ == n);
                    }
                    if among(more, n) {
                        let k = choose|k: int| 0 <= k < more.len() && (#[trigger] more[k])@ == n;
                        if k < i {
                            assert(seen[k]@ == n);
                        }
                    }
                }
                assert(r@ =~= Set::new(|n: Seq<char>| among(more, n)).intersect(other@));
            }
            i = i + 1;
        }
        assert(self.names@.take(i as int) =~= self.names@);
        r
    }
}

} // verus!
