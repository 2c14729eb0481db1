//! A partial assignment of field values to wires.

use vstd::prelude::*;
use crate::error::WitnessError;
use crate::field::Field;
use crate::wire::Wire;

verus! {

/// The assignment that a list of writes amounts to, as canonical residues.
pub open spec fn assignments<F: Field>(writes: Seq<(Wire, F)>) -> Map<Wire, int>
    decreases writes.len(),
{
    if writes.len() == 0 {
        Map::empty()
    } else {
        assignments(writes.drop_last()).insert(writes.last().0, writes.last().1.value())
    }
}

/// The values of the first `len` wires of `row` in an assignment.
pub open spec fn row_values(assignment: Map<Wire, int>, row: usize, len: nat) -> Seq<int> {
    Seq::new(len, |i: int| assignment[Wire { gate: row, input: i as usize }])
}

/// Two assignments agree wherever both hold a value.
pub open spec fn compatible(a: Map<Wire, int>, b: Map<Wire, int>) -> bool {
    forall|w: Wire| a.contains_key(w) && b.contains_key(w) ==> a[w] == b[w]
}

/// A larger assignment holds every wire of a smaller one, with its value.
pub proof fn lemma_submap_value(smaller: Map<Wire, int>, larger: Map<Wire, int>, wire: Wire)
    requires
        smaller.submap_of(larger),
        smaller.dom().contains(wire),
    ensures
        larger.dom().contains(wire) && larger[wire] == smaller[wire],
{
}

/// A wire is assigned exactly when some write names it.
pub proof fn lemma_assignments_dom<F: Field>(writes: Seq<(Wire, F)>, w: Wire)
    ensures
        assignments(writes).contains_key(w) <==> exists|i: int|
            0 <= i < writes.len() && (#[trigger] writes[i]).0 == w,
    decreases writes.len(),
{
    if writes.len() > 0 {
        let front = writes.drop_last();
        lemma_assignments_dom(front, w);
        if assignments(writes).contains_key(w) {
            if writes.last().0 == w {
                assert(writes[writes.len() - 1].0 == w);
            } else {
                let i = choose|i: int| 0 <= i < front.len() && (#[trigger] front[i]).0 == w;
                assert(writes[i].0 == w);
            }
        }
        if exists|i: int| 0 <= i < writes.len() && (#[trigger] writes[i]).0 == w {
            let i = choose|i: int| 0 <= i < writes.len() && (#[trigger] writes[i]).0 == w;
            if i < front.len() {
                assert(front[i].0 == w);
            }
        }
    }
}

/// The value of a wire is that of the last write that names it.
pub proof fn lemma_assignments_last<F: Field>(writes: Seq<(Wire, F)>, i: int)
    requires
        0 <= i < writes.len(),
        forall|j: int| i < j < writes.len() ==> (#[trigger] writes[j]).0 != writes[i].0,
    ensures
        assignments(writes).contains_key(writes[i].0),
        assignments(writes)[writes[i].0] == writes[i].1.value(),
    decreases writes.len(),
{
    if i < writes.len() - 1 {
        let front = writes.drop_last();
        assert(writes[writes.len() - 1].0 != writes[i].0);
        assert forall|j: int| i < j < front.len() implies (#[trigger] front[j]).0 != front[i].0 by {
            assert(writes[j].0 != writes[i].0);
        }
        lemma_assignments_last(front, i);
    }
}

/// Every assigned value is a canonical residue.
pub proof fn lemma_assignments_canonical<F: Field>(writes: Seq<(Wire, F)>, w: Wire)
    requires
        assignments(writes).contains_key(w),
    ensures
        0 <= assignments(writes)[w] < F::modulus(),
    decreases writes.len(),
{
    if writes.len() > 0 {
        if writes.last().0 == w {
            writes.last().1.lemma_value_is_canonical();
        } else {
            lemma_assignments_canonical(writes.drop_last(), w);
        }
    }
}

/// A sparse map from wires to field values, grown by generators.
#[derive(Debug)]
pub struct PartialWitness<F: Field> {
    writes: Vec<(Wire, F)>,
}

impl<F: Field> View for PartialWitness<F> {
    type V = Map<Wire, int>;

    closed spec fn view(&self) -> Map<Wire, int> {
        assignments(self.writes@)
    }
}

impl<F: Field> PartialWitness<F> {
    /// The witness that assigns nothing.
    pub fn new() -> (r: Self)
        ensures
            r@ == Map::<Wire, int>::empty(),
    {
        PartialWitness { writes: Vec::new() }
    }

    /// Every value held is a canonical residue.
    pub proof fn lemma_canonical(&self, w: Wire)
        requires
            self@.contains_key(w),
        ensures
            0 <= self@[w] < F::modulus(),
    {
        lemma_assignments_canonical(self.writes@, w);
    }

    /// The value on `w`, if it has one.
    pub fn try_get_wire(&self, w: Wire) -> (r: Option<F>)
        ensures
            match r {
                Some(v) => self@.contains_key(w) && v.value() == self@[w],
                None => !self@.contains_key(w),
            },
    {
        let mut i: usize = self.writes.len();
        while i > 0
            invariant
                i <= self.writes.len(),
                forall|j: int| i <= j < self.writes.len() ==> (#[trigger] self.writes@[j]).0 != w,
            decreases i,
        {
            i = i - 1;
            if self.writes[i].0 == w {
                proof {
                    lemma_assignments_last(self.writes@, i as int);
                }
                return Some(self.writes[i].1);
            }
        }
        proof {
            lemma_assignments_dom(self.writes@, w);
        }
        None
    }

    /// Whether `w` has a value.
    pub fn contains_wire(&self, w: Wire) -> (r: bool)
        ensures
            r == self@.contains_key(w),
    {
        self.try_get_wire(w).is_some()
    }

    /// The value on a wire that has one.
    pub fn get_wire(&self, w: Wire) -> (r: F)
        requires
            self@.contains_key(w),
        ensures
            r.value() == self@[w],
    {
        match self.try_get_wire(w) {
            Some(v) => v,
            None => F::zero(),
        }
    }

    /// Assigns `v` to `w`. A wire that already holds another value keeps it,
    /// and the conflict is reported.
    pub fn set_wire(&mut self, w: Wire, v: F) -> (r: Result<(), WitnessError>)
        ensures
            r is Err <==> old(self)@.contains_key(w) && old(self)@[w] != v.value(),
            r is Ok ==> final(self)@ == old(self)@.insert(w, v.value()),
            r is Err ==> final(self)@ == old(self)@ && r == Err::<(), WitnessError>(
                WitnessError::ConflictingAssignment(w),
            ),
    {
        match self.try_get_wire(w) {
            Some(held) => {
                if held.equals(v) {
                    assert(self@.insert(w, v.value()) =~= self@);
                    Ok(())
                } else {
                    Err(WitnessError::ConflictingAssignment(w))
                }
            },
            None => {
                self.writes.push((w, v));
                proof {
                    assert(self.writes@.drop_last() =~= old(self).writes@);
                }
                Ok(())
            },
        }
    }

    /// The first wire, in the order of `other`'s writes, on which the two
    /// witnesses disagree.
    fn find_conflict(&self, other: &PartialWitness<F>) -> (r: Option<Wire>)
        ensures
            r is None <==> compatible(self@, other@),
            r matches Some(w) ==> self@.contains_key(w) && other@.contains_key(w) && self@[w]
                != other@[w],
    {
        let mut i: usize = 0;
        while i < other.writes.len()
            invariant
                i <= other.writes.len(),
                forall|j: int|
                    0 <= j < i ==> !(self@.contains_key((#[trigger] other.writes@[j]).0)
                        && other@.contains_key(other.writes@[j].0) && self@[other.writes@[j].0]
                        != other@[other.writes@[j].0]),
            decreases other.writes.len() - i,
        {
            let w = other.writes[i].0;
            proof {
                lemma_assignments_dom(other.writes@, w);
            }
            let theirs = other.get_wire(w);
            if let Some(ours) = self.try_get_wire(w) {
                if !ours.equals(theirs) {
                    return Some(w);
                }
            }
            i = i + 1;
        }
        proof {
            assert forall|w: Wire| self@.contains_key(w) && other@.contains_key(w) implies self@[w]
                == other@[w] by {
                lemma_assignments_dom(other.writes@, w);
                let j = choose|j: int|
                    0 <= j < other.writes.len() && (#[trigger] other.writes@[j]).0 == w;
                assert(other.writes@[j].0 == w);
            }
        }
        None
    }

    /// Takes over every assignment of `other`. Where the two disagree on a
    /// wire, nothing is taken over and the conflict is reported.
    pub fn merge(&mut self, other: &PartialWitness<F>) -> (r: Result<(), WitnessError>)
        ensures
            r is Ok <==> compatible(old(self)@, other@),
            r is Ok ==> final(self)@ == old(self)@.union_prefer_right(other@),
            r matches Err(e) ==> final(self)@ == old(self)@ && exists|w: Wire|
                e == WitnessError::ConflictingAssignment(w) && old(self)@.contains_key(w)
                    && other@.contains_key(w) && old(self)@[w] != other@[w],
    {
        if let Some(w) = self.find_conflict(other) {
            return Err(WitnessError::ConflictingAssignment(w));
        }
        let mut i: usize = 0;
        while i < other.writes.len()
            invariant
                i <= other.writes.len(),
                self@ == old(self)@.union_prefer_right(assignments(other.writes@.take(i as int))),
            decreases other.writes.len() - i,
        {
            let ghost before = self.writes@;
            let ghost done = other.writes@.take(i as int);
            let entry = other.writes[i];
            self.writes.push(entry);
            proof {
                let next = other.writes@.take(i + 1);
                assert(self.writes@.drop_last() =~= before);
                assert(next.drop_last() =~= done);
                assert(next.last() == entry);
                assert(old(self)@.union_prefer_right(assignments(done)).insert(
                    entry.0,
                    entry.1.value(),
                ) =~= old(self)@.union_prefer_right(assignments(next)));
            }
            i = i + 1;
        }
        proof {
            assert(other.writes@.take(i as int) =~= other.writes@);
        }
        Ok(())
    }
}

} // verus!
