//! The planner's working sets of facts: identifiers kept in increasing
//! order, so that equal sets are stored the same way and can be compared
//! and counted directly.

use crate::action::Action;
use crate::model::{regress, supplies};
use crate::state::State;
use vstd::prelude::*;

verus! {

/// Each identifier is less than the ones after it.
pub open spec fn increasing(ids: Seq<u64>) -> bool {
    forall|i: int, j: int| 0 <= i < j < ids.len() ==> ids[i] < ids[j]
}

/// Two increasing sequences with the same elements are the same sequence.
pub proof fn lemma_increasing_unique(a: Seq<u64>, b: Seq<u64>)
    requires
        increasing(a),
        increasing(b),
        a.to_set() == b.to_set(),
    ensures
        a == b,
    decreases a.len(),
{
    if a.len() == 0 {
        if b.len() > 0 {
            assert(b.to_set().contains(b[0]));
            assert(a.to_set().contains(b[0]));
        }
        assert(a =~= b);
    } else {
        let x = a.last();
        assert(a.to_set().contains(x));
        assert(b.to_set().contains(x));
        let j = choose|j: int| 0 <= j < b.len() && b[j] == x;
        let y = b.last();
        assert(b.to_set().contains(y));
        assert(a.to_set().contains(y));
        let i = choose|i: int| 0 <= i < a.len() && a[i] == y;
        assert(y == x);
        assert(j == b.len() - 1);
        let a0 = a.drop_last();
        let b0 = b.drop_last();
        assert forall|f: u64| a0.to_set().contains(f) == b0.to_set().contains(f) by {
            if a0.to_set().contains(f) {
                let k = choose|k: int| 0 <= k < a0.len() && a0[k] == f;
                assert(a[k] == f && f < x);
                assert(a.to_set().contains(f));
                assert(b.to_set().contains(f));
                let m = choose|m: int| 0 <= m < b.len() && b[m] == f;
                assert(b0[m] == f);
            }
            if b0.to_set().contains(f) {
                let k = choose|k: int| 0 <= k < b0.len() && b0[k] == f;
                assert(b[k] == f && f < x);
                assert(b.to_set().contains(f));
                assert(a.to_set().contains(f));
                let m = choose|m: int| 0 <= m < a.len() && a[m] == f;
                assert(a0[m] == f);
            }
        }
        assert(a0.to_set() =~= b0.to_set());
        lemma_increasing_unique(a0, b0);
        assert(a =~= a0.push(x));
        assert(b =~= b0.push(x));
    }
}

/// A finite set of fact identifiers, held in increasing order.
pub struct FactSet {
    ids: Vec<u64>,
}

impl View for FactSet {
    type V = Set<u64>;

    closed spec fn view(&self) -> Set<u64> {
        self.ids@.to_set()
    }
}

impl FactSet {
    #[verifier::type_invariant]
    spec fn ordered(&self) -> bool {
        increasing(self.ids@)
    }

    /// Every fact set is finite.
    pub proof fn lemma_finite(&self)
        ensures
            self@.finite(),
    {
        vstd::seq_lib::seq_to_set_is_finite(self.ids@);
    }

    /// The empty set.
    pub fn new() -> (set: Self)
        ensures
            set@ == Set::<u64>::empty(),
    {
        let ids: Vec<u64> = Vec::new();
        assert(ids@.to_set() =~= Set::<u64>::empty());
        Self { ids }
    }

    /// The number of facts in the set.
    pub fn len(&self) -> (n: usize)
        ensures
            n == self@.len(),
            self@.finite(),
            (n == 0) == (self@ == Set::<u64>::empty()),
    {
        proof {
            use_type_invariant(self);
            self.lemma_finite();
            self.ids@.unique_seq_to_set();
            if self.ids@.len() == 0 {
                assert(self.ids@.to_set() =~= Set::<u64>::empty());
            } else {
                assert(self.ids@.to_set().contains(self.ids@[0]));
            }
        }
        self.ids.len()
    }

    /// Whether `id` is in the set.
    pub fn contains(&self, id: u64) -> (found: bool)
        ensures
            found == self@.contains(id),
    {
        let n = self.ids.len();
        let mut i: usize = 0;
        while i < n
            invariant
                n == self.ids@.len(),
                i <= n,
                forall|k: int| 0 <= k < i ==> self.ids@[k] != id,
            decreases n - i,
        {
            if self.ids[i] == id {
                return true;
            }
            i += 1;
        }
        false
    }

    /// Adds `id` to the set.
    pub fn insert(&mut self, id: u64)
        ensures
            final(self)@ == old(self)@.insert(id),
    {
        proof {
            use_type_invariant(&*self);
        }
        let n = self.ids.len();
        let mut i: usize = 0;
        while i < n && self.ids[i] < id
            invariant
                n == self.ids@.len(),
                i <= n,
                forall|k: int| 0 <= k < i ==> self.ids@[k] < id,
            decreases n - i,
        {
            i += 1;
        }
        let ghost before = self.ids@;
        if i < n && self.ids[i] == id {
            assert(before.to_set().insert(id) =~= before.to_set());
        } else {
            let mut ids: Vec<u64> = Vec::new();
            std::mem::swap(&mut ids, &mut self.ids);
            ids.insert(i, id);
            proof {
                let after = ids@;
                assert(after == before.insert(i as int, id));
                assert(increasing(after)) by {
                    assert forall|a: int, b: int| 0 <= a < b < after.len() implies after[a]
                        < after[b] by {
                        let a0 = if a < i { a } else { a - 1 };
                        let b0 = if b < i { b } else { b - 1 };
                        if a != i && b != i {
                            assert(after[a] == before[a0] && after[b] == before[b0]);
                        } else if a == i {
                            assert(after[b] == before[b0]);
                            assert(before[i as int] <= before[b0]);
                        } else {
                            assert(after[a] == before[a0]);
                        }
                    }
                }
                assert(after.to_set() =~= before.to_set().insert(id)) by {
                    assert forall|f: u64| after.to_set().contains(f) == before.to_set().insert(
                        id,
                    ).contains(f) by {
                        if after.to_set().contains(f) {
                            let k = choose|k: int| 0 <= k < after.len() && after[k] == f;
                            if k < i {
                                assert(before[k] == f);
                            } else if k > i {
                                assert(before[k - 1] == f);
                            }
                        }
                        if before.to_set().contains(f) {
                            let k = choose|k: int| 0 <= k < before.len() && before[k] == f;
                            if k < i {
                                assert(after[k] == f);
                            } else {
                                assert(after[k + 1] == f);
                            }
                        }
                        if f == id {
                            assert(after[i as int] == f);
                        }
                    }
                }
            }
            self.ids = ids;
        }
    }

    /// Whether the two sets hold the same facts.
    pub fn same_as(&self, other: &FactSet) -> (same: bool)
        ensures
            same == (self@ == other@),
    {
        proof {
            use_type_invariant(self);
            use_type_invariant(other);
            if self@ == other@ {
                lemma_increasing_unique(self.ids@, other.ids@);
            }
        }
        let n = self.ids.len();
        if other.ids.len() != n {
            return false;
        }
        let mut i: usize = 0;
        while i < n
            invariant
                n == self.ids@.len(),
                n == other.ids@.len(),
                i <= n,
                self@ == other@ ==> self.ids@ == other.ids@,
                forall|k: int| 0 <= k < i ==> self.ids@[k] == other.ids@[k],
            decreases n - i,
        {
            if self.ids[i] != other.ids[i] {
                return false;
            }
            i += 1;
        }
        assert(self.ids@ =~= other.ids@);
        true
    }

    /// A copy of the set.
    pub fn duplicate(&self) -> (copy: Self)
        ensures
            copy@ == self@,
    {
        proof {
            use_type_invariant(self);
        }
        let copy = self.ids.clone();
        assert(copy@ =~= self.ids@);
        Self { ids: copy }
    }

    /// Whether the action brings about a fact of this set.
    pub fn supplied_by(&self, action: &Action) -> (found: bool)
        ensures
            found == supplies(action@, self@),
    {
        let n = self.ids.len();
        let mut i: usize = 0;
        while i < n
            invariant
                n == self.ids@.len(),
                i <= n,
                forall|k: int| 0 <= k < i ==> !action@.eff.contains(self.ids@[k]),
            decreases n - i,
        {
            if action.effects().contains_id(self.ids[i]) {
                assert(self@.contains(self.ids@[i as int]));
                return true;
            }
            i += 1;
        }
        assert(!supplies(action@, self@)) by {
            if supplies(action@, self@) {
                let f = choose|f: u64| action@.eff.contains(f) && self@.contains(f);
                let k = choose|k: int| 0 <= k < self.ids@.len() && self.ids@[k] == f;
                assert(!action@.eff.contains(self.ids@[k]));
            }
        }
        false
    }

    /// The facts of `required` that `world` lacks.
    pub fn missing_from(required: &State, world: &State) -> (set: Self)
        ensures
            set@ == required@.difference(world@),
    {
        let mut set = FactSet::new();
        set.add_missing(required, world);
        assert(set@ =~= required@.difference(world@));
        set
    }

    /// Adds the facts of `required` that `world` lacks.
    pub fn add_missing(&mut self, required: &State, world: &State)
        ensures
            final(self)@ == old(self)@.union(required@.difference(world@)),
    {
        let n = required.len();
        let mut i: usize = 0;
        proof {
            required.lemma_view();
        }
        while i < n
            invariant
                n == required.facts().len(),
                i <= n,
                required@ == required.facts().to_set(),
                self@ == old(self)@.union(required.facts().take(i as int).to_set().difference(world@)),
            decreases n - i,
        {
            let id = required.condition(i).id();
            let ghost seen = required.facts().take(i as int);
            let ghost more = required.facts().take(i + 1);
            proof {
                assert(more =~= seen.push(id));
                assert(more.to_set() =~= seen.to_set().insert(id)) by {
                    assert forall|f: u64| more.to_set().contains(f) == seen.to_set().insert(
                        id,
                    ).contains(f) by {
                        if seen.to_set().contains(f) {
                            let k = choose|k: int| 0 <= k < seen.len() && seen[k] == f;
                            assert(more[k] == f);
                        }
                        if f == id {
                            assert(more[i as int] == f);
                        }
                    }
                }
            }
            if !world.contains_id(id) {
                self.insert(id);
            }
            assert(self@ =~= old(self)@.union(more.to_set().difference(world@)));
            i += 1;
        }
        assert(required.facts().take(n as int) =~= required.facts());
    }

    /// The facts missing before `action` runs, when this set is missing
    /// after it: what the action brings about leaves, what it needs and the
    /// world lacks comes in.
    pub fn regress(&self, action: &Action, world: &State) -> (set: Self)
        ensures
            set@ == regress(self@, action@, world@),
    {
        proof {
            use_type_invariant(self);
        }
        let mut kept: Vec<u64> = Vec::new();
        let n = self.ids.len();
        let mut i: usize = 0;
        while i < n
            invariant
                n == self.ids@.len(),
                i <= n,
                increasing(self.ids@),
                increasing(kept@),
                forall|k: int, m: int|
                    0 <= k < kept@.len() && i <= m < n ==> kept@[k] < self.ids@[m],
                forall|k: int|
                    0 <= k < kept@.len() ==> self.ids@.contains(#[trigger] kept@[k])
                        && !action@.eff.contains(kept@[k]) && !world@.contains(kept@[k]),
                forall|m: int|
                    0 <= m < i && !action@.eff.contains(self.ids@[m]) && !world@.contains(
                        self.ids@[m],
                    ) ==> kept@.contains(#[trigger] self.ids@[m]),
            decreases n - i,
        {
            let id = self.ids[i];
            let ghost before = kept@;
            if !action.effects().contains_id(id) && !world.contains_id(id) {
                kept.push(id);
                proof {
                    assert(kept@[before.len() as int] == id);
                    assert forall|m: int|
                        0 <= m < i + 1 && !action@.eff.contains(self.ids@[m]) && !world@.contains(
                            self.ids@[m],
                        ) implies kept@.contains(#[trigger] self.ids@[m]) by {
                        if m < i {
                            let k = choose|k: int|
                                0 <= k < before.len() && before[k] == self.ids@[m];
                            assert(kept@[k] == self.ids@[m]);
                        }
                    }
                }
            }
            i += 1;
        }
        let mut set = Self { ids: kept };
        proof {
            assert(set@ =~= self@.difference(action@.eff).difference(world@)) by {
                assert forall|f: u64| set@.contains(f) == self@.difference(
                    action@.eff,
                ).difference(world@).contains(f) by {
                    if set@.contains(f) {
                        let k = choose|k: int| 0 <= k < kept@.len() && kept@[k] == f;
                        assert(self.ids@.contains(kept@[k]));
                    }
                    if self@.contains(f) && !action@.eff.contains(f) && !world@.contains(f) {
                        let k = choose|k: int| 0 <= k < self.ids@.len() && self.ids@[k] == f;
                        assert(kept@.contains(self.ids@[k]));
                    }
                }
            }
        }
        set.add_missing(action.pre_conditions(), world);
        assert(set@ =~= regress(self@, action@, world@));
        set
    }
}

} // verus!
