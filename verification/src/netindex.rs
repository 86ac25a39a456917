//! A number for every network that was met.

use vstd::prelude::*;

verus! {

struct Slot {
    name: String,
    value: usize,
}

/// A finite map from network identifiers to numbers.
pub struct NetworkIndex {
    slots: Vec<Slot>,
}

spec fn names_distinct(slots: Seq<Slot>) -> bool {
    forall|i: int, j: int|
        0 <= i < slots.len() && 0 <= j < slots.len() && i != j ==> (#[trigger] slots[i]).name@ != (
        #[trigger] slots[j]).name@
}

spec fn has_name(slots: Seq<Slot>, name: Seq<char>) -> bool {
    exists|i: int| 0 <= i < slots.len() && (#[trigger] slots[i]).name@ == name
}

spec fn place_of(slots: Seq<Slot>, name: Seq<char>) -> int {
    choose|i: int| 0 <= i < slots.len() && (#[trigger] slots[i]).name@ == name
}

spec fn numbers_of(slots: Seq<Slot>) -> Map<Seq<char>, usize> {
    Map::new(
        |name: Seq<char>| has_name(slots, name),
        |name: Seq<char>| slots[place_of(slots, name)].value,
    )
}

proof fn lemma_slot_found(slots: Seq<Slot>, i: int)
    requires
        names_distinct(slots),
        0 <= i < slots.len(),
    ensures
        numbers_of(slots).dom().contains(slots[i].name@),
        numbers_of(slots)[slots[i].name@] == slots[i].value,
{
    assert(has_name(slots, slots[i].name@));
    assert(place_of(slots, slots[i].name@) == i);
}

impl View for NetworkIndex {
    type V = Map<Seq<char>, usize>;

    closed spec fn view(&self) -> Map<Seq<char>, usize> {
        numbers_of(self.slots@)
    }
}

impl NetworkIndex {
    #[verifier::type_invariant]
    spec fn well_formed(&self) -> bool {
        names_distinct(self.slots@)
    }

    /// An index without networks.
    pub fn new() -> (index: NetworkIndex)
        ensures
            index@ == Map::<Seq<char>, usize>::empty(),
    {
        let index = NetworkIndex { slots: Vec::new() };
        proof {
            assert(index@ =~= Map::<Seq<char>, usize>::empty());
        }
        index
    }

    fn position(&self, name: &String) -> (r: Option<usize>)
        ensures
            match r {
                Some(i) => i < self.slots.len() && self.slots[i as int].name@ == name@,
                None => !self@.dom().contains(name@),
            },
    {
        let mut i: usize = 0;
        while i < self.slots.len()
            invariant
                i <= self.slots.len(),
                forall|j: int| 0 <= j < i ==> (#[trigger] self.slots[j]).name@ != name@,
            decreases self.slots.len() - i,
        {
            if self.slots[i].name == *name {
                return Some(i);
            }
            i += 1;
        }
        None
    }

    /// The number of `name`, if it has one.
    pub fn get(&self, name: &String) -> (r: Option<usize>)
        ensures
            match r {
                Some(value) => self@.dom().contains(name@) && value == self@[name@],
                None => !self@.dom().contains(name@),
            },
    {
        proof {
            use_type_invariant(self);
        }
        match self.position(name) {
            Some(i) => {
                proof {
                    lemma_slot_found(self.slots@, i as int);
                }
                Some(self.slots[i].value)
            },
            None => None,
        }
    }

    /// Gives `name` the number `value`, whether it had one or not.
    pub fn insert(self, name: &String, value: usize) -> (index: NetworkIndex)
        ensures
            index@ == self@.insert(name@, value),
    {
        proof {
            use_type_invariant(&self);
        }
        let ghost before = self.slots@;
        let found = self.position(name);
        let mut slots = self.slots;
        match found {
            None => {
                slots.push(Slot { name: name.clone(), value });
            },
            Some(at) => {
                slots[at].value = value;
            },
        }
        proof {
            let after = slots@;
            assert forall|k: Seq<char>| has_name(after, k) <==> (has_name(before, k) || k
                == name@) by {
                if has_name(before, k) {
                    let i = place_of(before, k);
                    assert(after[i].name@ == k);
                }
                if k == name@ {
                    match found {
                        None => {
                            assert(after[before.len() as int].name@ == k);
                        },
                        Some(at) => {
                            assert(after[at as int].name@ == k);
                        },
                    }
                }
                if has_name(after, k) {
                    let i = place_of(after, k);
                    if i < before.len() {
                        assert(before[i].name@ == after[i].name@);
                    }
                }
            }
            assert(names_distinct(after)) by {
                assert forall|i: int, j: int|
                    0 <= i < after.len() && 0 <= j < after.len() && i != j implies (
                #[trigger] after[i]).name@ != (#[trigger] after[j]).name@ by {
                    if i < before.len() {
                        assert(before[i].name@ == after[i].name@);
                        assert(has_name(before, before[i].name@));
                    }
                    if j < before.len() {
                        assert(before[j].name@ == after[j].name@);
                        assert(has_name(before, before[j].name@));
                    }
                }
            }
            assert forall|k: Seq<char>| has_name(after, k) implies numbers_of(after)[k]
                == numbers_of(before).insert(name@, value)[k] by {
                let i = place_of(after, k);
                lemma_slot_found(after, i);
                if i < before.len() {
                    assert(before[i].name@ == after[i].name@);
                    lemma_slot_found(before, i);
                }
            }
            assert(numbers_of(after) =~= numbers_of(before).insert(name@, value));
        }
        NetworkIndex { slots }
    }
}

} // verus!
