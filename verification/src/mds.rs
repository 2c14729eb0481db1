//! The fixed matrix that mixes the state of a permutation round.

use vstd::prelude::*;
use vstd::arithmetic::div_mod::lemma_small_mod;
use crate::field::Field;
use crate::modular::{inverse_mod, lemma_inverse_mod, lemma_inverse_unique};

verus! {

/// The entry in row `i` and column `j` of the Cauchy matrix of size `size`
/// modulo `p`: the inverse of `i + size + j`.
pub open spec fn mds_entry(i: int, j: int, size: int, p: int) -> int {
    inverse_mod(i + size + j, p)
}

/// A square matrix of field elements.
#[derive(Debug)]
pub struct MdsMatrix<F: Field> {
    rows: Vec<Vec<F>>,
}

impl<F: Field> MdsMatrix<F> {
    /// The number of rows, which is the number of columns.
    pub closed spec fn size(&self) -> nat {
        self.rows@.len()
    }

    /// Every row is as long as the matrix is high.
    pub closed spec fn wf(&self) -> bool {
        forall|i: int| 0 <= i < self.rows@.len() ==> (#[trigger] self.rows@[i])@.len() == self.rows@.len()
    }

    /// The residue in row `i` and column `j`.
    pub closed spec fn entry(&self, i: int, j: int) -> int {
        self.rows@[i]@[j].value()
    }

    /// The matrix is the Cauchy matrix of its size.
    pub open spec fn is_cauchy(&self) -> bool {
        &&& self.wf()
        &&& forall|i: int, j: int|
            0 <= i < self.size() && 0 <= j < self.size() ==> #[trigger] self.entry(i, j)
                == mds_entry(i, j, self.size() as int, F::modulus())
    }

    /// The element in row `i` and column `j`.
    pub fn get(&self, i: usize, j: usize) -> (r: F)
        requires
            self.wf(),
            i < self.size(),
            j < self.size(),
        ensures
            r.value() == self.entry(i as int, j as int),
    {
        self.rows[i][j]
    }
}

/// The Cauchy matrix of size `size`, whose entry in row `i` and column `j`
/// is the inverse of `i + size + j`. The field has to hold these sums as
/// residues other than zero.
pub fn mds_matrix<F: Field>(size: usize) -> (r: MdsMatrix<F>)
    requires
        3 * size - 2 < F::modulus(),
    ensures
        r.size() == size,
        r.is_cauchy(),
{
    let ghost p = F::modulus();
    let mut rows: Vec<Vec<F>> = Vec::new();
    let mut i: usize = 0;
    while i < size
        invariant
            i <= size,
            3 * size - 2 < p,
            p == F::modulus(),
            rows@.len() == i,
            forall|a: int| 0 <= a < i ==> (#[trigger] rows@[a])@.len() == size,
            forall|a: int, b: int|
                0 <= a < i && 0 <= b < size ==> (#[trigger] rows@[a]@[b]).value() == mds_entry(
                    a,
                    b,
                    size as int,
                    p,
                ),
        decreases size - i,
    {
        let mut row: Vec<F> = Vec::new();
        let mut j: usize = 0;
        while j < size
            invariant
                i < size,
                j <= size,
                3 * size - 2 < p,
                p == F::modulus(),
                row@.len() == j,
                forall|b: int|
                    0 <= b < j ==> (#[trigger] row@[b]).value() == mds_entry(
                        i as int,
                        b,
                        size as int,
                        p,
                    ),
            decreases size - j,
        {
            let x = F::from_canonical_usize(i);
            let y = F::from_canonical_usize(size).add(F::from_canonical_usize(j));
            let sum = x.add(y);
            proof {
                lemma_small_mod((size + j) as nat, p as nat);
                lemma_small_mod((i + size + j) as nat, p as nat);
                assert(sum.value() == i + size + j);
            }
            let entry = match sum.multiplicative_inverse() {
                Some(inv) => inv,
                None => unreached(),
            };
            proof {
                F::lemma_modulus_is_prime();
                lemma_inverse_mod(sum.value(), p);
                lemma_inverse_unique(entry.value(), inverse_mod(sum.value(), p), sum.value(), p);
            }
            row.push(entry);
            j = j + 1;
        }
        rows.push(row);
        i = i + 1;
    }
    MdsMatrix { rows }
}

} // verus!
