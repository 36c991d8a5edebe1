//! World and requirement states: sets of facts, built by appending.

use crate::fact::{fact_id, fact_label, ConditionId};
use std::collections::HashSet;
use vstd::prelude::*;

verus! {

/// The identifiers of a sequence of facts, in order.
pub open spec fn ids_of(conditions: Seq<ConditionId>) -> Seq<u64> {
    conditions.map_values(|c: ConditionId| c.fact())
}

/// A set of facts. The facts are kept in the order in which they first came,
/// beside an index of their identifiers for constant-time membership.
///
/// The set cannot tell that `name=true` and `name=false` contradict each other:
/// they are two different facts, and it is the caller's part never to assert
/// both.
#[derive(Debug)]
pub struct State {
    conditions: Vec<ConditionId>,
    index: HashSet<u64>,
}

impl View for State {
    type V = Set<u64>;

    /// The identifiers of the facts in this state.
    closed spec fn view(&self) -> Set<u64> {
        self.facts().to_set()
    }
}

impl Default for State {
    /// The empty state.
    fn default() -> (state: Self)
        ensures
            state@ == Set::<u64>::empty(),
            state.facts() == Seq::<u64>::empty(),
            state.labels() == Seq::<Seq<char>>::empty(),
    {
        State::new()
    }
}

impl State {
    #[verifier::type_invariant]
    spec fn well_formed(&self) -> bool {
        &&& self.index@ == self.facts().to_set()
        &&& self.facts().no_duplicates()
    }

    /// The identifiers of the facts, in the order in which they were first
    /// pushed.
    pub closed spec fn facts(&self) -> Seq<u64> {
        ids_of(self.conditions@)
    }

    /// The diagnostic labels of the facts, in the same order as `facts`.
    pub closed spec fn labels(&self) -> Seq<Seq<char>> {
        self.conditions@.map_values(|c: ConditionId| c.label())
    }

    /// The view of a state is the set of its facts, and it is finite.
    pub proof fn lemma_view(&self)
        ensures
            self@ == self.facts().to_set(),
            self@.finite(),
            self.labels().len() == self.facts().len(),
            forall|i: int| 0 <= i < self.facts().len() ==> self@.contains(#[trigger] self.facts()[i]),
    {
        vstd::seq_lib::seq_to_set_is_finite(self.facts());
    }

    /// The empty state.
    pub fn new() -> (state: Self)
        ensures
            state@ == Set::<u64>::empty(),
            state.facts() == Seq::<u64>::empty(),
            state.labels() == Seq::<Seq<char>>::empty(),
    {
        let conditions: Vec<ConditionId> = Vec::new();
        let index: HashSet<u64> = HashSet::new();
        assert(ids_of(conditions@) =~= Seq::<u64>::empty());
        assert(ids_of(conditions@).to_set() =~= Set::<u64>::empty());
        let state = Self { conditions, index };
        assert(state.facts() =~= Seq::<u64>::empty());
        assert(state.labels() =~= Seq::<Seq<char>>::empty());
        assert(state.facts().to_set() =~= Set::<u64>::empty());
        state
    }

    /// Adds the fact "name = value". A fact that the state already holds is
    /// not added again, and the label it came with first stays.
    pub fn push(self, name: &str, value: bool) -> (state: Self)
        ensures
            state@ == self@.insert(fact_id(name@, value)),
            self@.contains(fact_id(name@, value)) ==> state.facts() == self.facts()
                && state.labels() == self.labels(),
            !self@.contains(fact_id(name@, value)) ==> state.facts() == self.facts().push(
                fact_id(name@, value),
            ) && state.labels() == self.labels().push(fact_label(name@, value)),
    {
        proof {
            use_type_invariant(&self);
        }
        let condition = ConditionId::new(name, value);
        let id = condition.id();
        let ghost before = self;
        if self.index.contains(&id) {
            assert(self@.insert(id) =~= self@);
            self
        } else {
            let mut conditions = self.conditions;
            let mut index = self.index;
            conditions.push(condition);
            index.insert(id);
            proof {
                let after = ids_of(conditions@);
                assert(after =~= before.facts().push(id));
                assert(after.to_set() =~= before.facts().to_set().insert(id)) by {
                    assert forall|f: u64| #[trigger]
                        after.to_set().contains(f) == before.facts().to_set().insert(
                            id,
                        ).contains(f) by {
                        if before.facts().contains(f) {
                            let k = choose|k: int|
                                0 <= k < before.facts().len() && before.facts()[k] == f;
                            assert(after[k] == f);
                        }
                        if f == id {
                            assert(after[before.facts().len() as int] == f);
                        }
                    }
                }
                assert(after.no_duplicates());
            }
            let state = Self { conditions, index };
            assert(state.labels() =~= before.labels().push(fact_label(name@, value)));
            state
        }
    }

    /// The number of facts.
    pub fn len(&self) -> (n: usize)
        ensures
            n == self.facts().len(),
            n == self@.len(),
    {
        proof {
            use_type_invariant(self);
            self.facts().unique_seq_to_set();
        }
        self.conditions.len()
    }

    /// Whether the state holds no fact.
    pub fn is_empty(&self) -> (empty: bool)
        ensures
            empty == (self@ == Set::<u64>::empty()),
    {
        proof {
            use_type_invariant(self);
            if self.facts().len() == 0 {
                assert(self.facts().to_set() =~= Set::<u64>::empty());
            } else {
                assert(self.facts().to_set().contains(self.facts()[0]));
            }
        }
        self.conditions.len() == 0
    }

    /// The `i`-th fact in the order of first insertion.
    pub fn condition(&self, i: usize) -> (condition: &ConditionId)
        requires
            i < self.facts().len(),
        ensures
            condition.fact() == self.facts()[i as int],
            condition.label() == self.labels()[i as int],
            self@.contains(condition.fact()),
    {
        &self.conditions[i]
    }

    /// Whether the fact with identifier `id` is in the state.
    pub fn contains_id(&self, id: u64) -> (found: bool)
        ensures
            found == self@.contains(id),
    {
        proof {
            use_type_invariant(self);
        }
        self.index.contains(&id)
    }

    /// Whether the state holds the fact "name = value".
    pub fn contains(&self, name: &str, value: bool) -> (found: bool)
        ensures
            found == self@.contains(fact_id(name@, value)),
    {
        let condition = ConditionId::new(name, value);
        self.contains_id(condition.id())
    }

    /// Whether every fact of this state is also in `other`: the test by
    /// which a state meets a goal or a precondition. It looks each fact up
    /// by its identifier, once.
    pub fn is_satisfied_by(&self, other: &State) -> (satisfied: bool)
        ensures
            satisfied == self@.subset_of(other@),
    {
        let n = self.conditions.len();
        let mut i: usize = 0;
        while i < n
            invariant
                n == self.facts().len(),
                i <= n,
                forall|k: int| 0 <= k < i ==> other@.contains(#[trigger] self.facts()[k]),
            decreases n - i,
        {
            let id = self.conditions[i].id();
            if !other.contains_id(id) {
                assert(self@.contains(self.facts()[i as int]));
                return false;
            }
            i += 1;
        }
        true
    }
}

} // verus!
