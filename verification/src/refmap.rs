//! The mapping from identifiers to canonical networks, for one colour.

use vstd::prelude::*;

verus! {

/// For every identifier that was referenced, the canonical identifier of its
/// network.
pub type Resolution = Map<Seq<char>, Seq<char>>;

/// `m` after `target` was recorded as the network of `name`. Where `name`
/// had a network before, every identifier of that network moves to `target`
/// with it.
pub open spec fn assign(m: Resolution, name: Seq<char>, target: Seq<char>) -> Resolution {
    if m.dom().contains(name) {
        let previous = m[name];
        Map::new(
            |k: Seq<char>| m.dom().contains(k),
            |k: Seq<char>|
                if k == name || m[k] == previous {
                    target
                } else {
                    m[k]
                },
        )
    } else {
        m.insert(name, target)
    }
}

/// One identifier with the canonical identifier of its network.
struct Reference {
    name: String,
    target: String,
}

/// The canonical network of every identifier of one colour.
pub struct ReferenceMap {
    entries: Vec<Reference>,
}

spec fn names_distinct(entries: Seq<Reference>) -> bool {
    forall|i: int, j: int|
        0 <= i < entries.len() && 0 <= j < entries.len() && i != j ==> (#[trigger] entries[i]).name@
            != (#[trigger] entries[j]).name@
}

spec fn has_name(entries: Seq<Reference>, name: Seq<char>) -> bool {
    exists|i: int| 0 <= i < entries.len() && (#[trigger] entries[i]).name@ == name
}

spec fn place_of(entries: Seq<Reference>, name: Seq<char>) -> int {
    choose|i: int| 0 <= i < entries.len() && (#[trigger] entries[i]).name@ == name
}

spec fn resolution_of(entries: Seq<Reference>) -> Resolution {
    Map::new(
        |name: Seq<char>| has_name(entries, name),
        |name: Seq<char>| entries[place_of(entries, name)].target@,
    )
}

proof fn lemma_entry_resolves(entries: Seq<Reference>, i: int)
    requires
        names_distinct(entries),
        0 <= i < entries.len(),
    ensures
        resolution_of(entries).dom().contains(entries[i].name@),
        resolution_of(entries)[entries[i].name@] == entries[i].target@,
{
    assert(has_name(entries, entries[i].name@));
    assert(place_of(entries, entries[i].name@) == i);
}

impl View for ReferenceMap {
    type V = Resolution;

    closed spec fn view(&self) -> Resolution {
        resolution_of(self.entries@)
    }
}

impl ReferenceMap {
    #[verifier::type_invariant]
    spec fn well_formed(&self) -> bool {
        names_distinct(self.entries@)
    }

    /// A map without identifiers.
    pub fn new() -> (map: ReferenceMap)
        ensures
            map@ == Map::<Seq<char>, Seq<char>>::empty(),
    {
        let map = ReferenceMap { entries: Vec::new() };
        proof {
            assert(map@ =~= Map::<Seq<char>, Seq<char>>::empty());
        }
        map
    }

    fn position(&self, name: &String) -> (r: Option<usize>)
        ensures
            match r {
                Some(i) => i < self.entries.len() && self.entries[i as int].name@ == name@,
                None => !self@.dom().contains(name@),
            },
    {
        let mut i: usize = 0;
        while i < self.entries.len()
            invariant
                i <= self.entries.len(),
                forall|j: int| 0 <= j < i ==> (#[trigger] self.entries[j]).name@ != name@,
            decreases self.entries.len() - i,
        {
            if self.entries[i].name == *name {
                return Some(i);
            }
            i += 1;
        }
        None
    }

    /// The canonical network of `name`, if `name` was ever referenced.
    pub fn get(&self, name: &String) -> (r: Option<String>)
        ensures
            match r {
                Some(target) => self@.dom().contains(name@) && target@ == self@[name@],
                None => !self@.dom().contains(name@),
            },
    {
        proof {
            use_type_invariant(self);
        }
        match self.position(name) {
            Some(i) => {
                proof {
                    lemma_entry_resolves(self.entries@, i as int);
                }
                Some(self.entries[i].target.clone())
            },
            None => None,
        }
    }

    /// Records `target` as the network of `name`. Where `name` had a network
    /// before, every identifier of that network moves to `target` with it.
    pub fn assign(self, name: &String, target: &String) -> (map: ReferenceMap)
        ensures
            map@ == assign(self@, name@, target@),
    {
        proof {
            use_type_invariant(&self);
        }
        let ghost before = self.entries@;
        let found = self.position(name);
        let mut entries = self.entries;
        match found {
            None => {
                entries.push(Reference { name: name.clone(), target: target.clone() });
                proof {
                    let after = entries@;
                    assert forall|k: Seq<char>| has_name(after, k) <==> (has_name(before, k) || k
                        == name@) by {
                        if has_name(before, k) {
                            let i = place_of(before, k);
                            assert(after[i].name@ == k);
                        }
                        if k == name@ {
                            assert(after[before.len() as int].name@ == k);
                        }
                        if has_name(after, k) {
                            let i = place_of(after, k);
                            if i < before.len() {
                                assert(before[i].name@ == k);
                            }
                        }
                    }
                    assert forall|k: Seq<char>| has_name(after, k) implies resolution_of(after)[k]
                        == assign(resolution_of(before), name@, target@)[k] by {
                        let i = place_of(after, k);
                        lemma_entry_resolves(after, i);
                        if i < before.len() {
                            lemma_entry_resolves(before, i);
                        }
                    }
                    assert(resolution_of(after) =~= assign(resolution_of(before), name@, target@));
                    assert(names_distinct(after));
                }
            },
            Some(at) => {
                let previous = entries[at].target.clone();
                entries[at].target = target.clone();
                let mut j: usize = 0;
                while j < entries.len()
                    invariant
                        j <= entries.len(),
                        at < entries.len(),
                        entries.len() == before.len(),
                        names_distinct(before),
                        previous@ == before[at as int].target@,
                        forall|i: int|
                            0 <= i < before.len() ==> (#[trigger] entries[i]).name@
                                == before[i].name@,
                        forall|i: int|
                            0 <= i < j ==> (#[trigger] entries[i]).target@ == (if i == at
                                || before[i].target@ == previous@ {
                                target@
                            } else {
                                before[i].target@
                            }),
                        forall|i: int|
                            j <= i < before.len() ==> (#[trigger] entries[i]).target@ == (if i
                                == at {
                                target@
                            } else {
                                before[i].target@
                            }),
                    decreases entries.len() - j,
                {
                    if entries[j].target == previous {
                        entries[j].target = target.clone();
                    }
                    j += 1;
                }
                proof {
                    let after = entries@;
                    assert(before[at as int].name@ == name@);
                    lemma_entry_resolves(before, at as int);
                    assert forall|k: Seq<char>| has_name(after, k) <==> has_name(before, k) by {
                        if has_name(before, k) {
                            let i = place_of(before, k);
                            assert(after[i].name@ == k);
                        }
                        if has_name(after, k) {
                            let i = place_of(after, k);
                            assert(before[i].name@ == k);
                        }
                    }
                    assert(names_distinct(after));
                    assert forall|k: Seq<char>| has_name(after, k) implies resolution_of(after)[k]
                        == assign(resolution_of(before), name@, target@)[k] by {
                        let i = place_of(after, k);
                        lemma_entry_resolves(after, i);
                        lemma_entry_resolves(before, i);
                    }
                    assert(resolution_of(after) =~= assign(resolution_of(before), name@, target@));
                }
            },
        }
        ReferenceMap { entries }
    }
}

} // verus!
