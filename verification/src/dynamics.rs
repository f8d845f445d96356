//! The shape of the Lotka-Volterra interaction matrix.

use vstd::prelude::*;
use crate::error::Error;
use crate::text::{decimal, push_decimal};

verus! {

/// `i` is the first row whose length differs from the number of rows.
pub open spec fn first_mismatch<T>(rows: Seq<Vec<T>>, i: int) -> bool {
    &&& 0 <= i < rows.len()
    &&& rows[i]@.len() != rows.len()
    &&& forall|j: int| 0 <= j < i ==> (#[trigger] rows[j])@.len() == rows.len()
}

/// Every row has one coefficient per species.
pub open spec fn is_square<T>(rows: Seq<Vec<T>>) -> bool {
    forall|j: int| 0 <= j < rows.len() ==> (#[trigger] rows[j])@.len() == rows.len()
}

/// Build the interaction matrix `A[i][j]` (effect of species `j` on species
/// `i`) from the interaction coefficients of each species, one row per
/// species. There must be at least one species, and every row must have
/// exactly one coefficient per species; the first row that does not is
/// reported with its length.
pub fn build_interaction_matrix<T: Copy, V>(rows: &Vec<Vec<T>>) -> (res: Result<Vec<Vec<T>>, Error<V>>)
    ensures
        rows@.len() == 0 ==> res matches Err(Error::EmptyEcosystem),
        rows@.len() > 0 && is_square(rows@) ==> (res matches Ok(m) && m@.len() == rows@.len()
            && forall|i: int| 0 <= i < rows@.len() ==> (#[trigger] m@[i])@ == rows@[i]@),
        forall|i: int| #[trigger] first_mismatch(rows@, i) ==> (res matches Err(
            Error::InteractionMatrixMismatch { expected, got },
        ) && expected == rows@.len() && got == rows@[i]@.len()),
{
    let n = rows.len();
    if n == 0 {
        return Err(Error::EmptyEcosystem);
    }
    let mut m: Vec<Vec<T>> = Vec::new();
    let mut i: usize = 0;
    while i < n
        invariant
            n == rows@.len(),
            i <= n,
            m@.len() == i,
            forall|j: int| 0 <= j < i ==> (#[trigger] rows@[j])@.len() == n,
            forall|j: int| 0 <= j < i ==> (#[trigger] m@[j])@ == rows@[j]@,
        decreases n - i,
    {
        let row = &rows[i];
        if row.len() != n {
            let got = row.len();
            proof {
                assert(first_mismatch(rows@, i as int));
                assert forall|k: int| #[trigger] first_mismatch(rows@, k) implies k == i by {
                    if k < i {
                        assert(rows@[k]@.len() == n);
                    } else if k > i {
                        assert(rows@[i as int]@.len() == n);
                    }
                }
            }
            return Err(Error::InteractionMatrixMismatch { expected: n, got });
        }
        let mut copy: Vec<T> = Vec::new();
        let mut j: usize = 0;
        while j < n
            invariant
                n == row@.len(),
                j <= n,
                copy@ == row@.subrange(0, j as int),
            decreases n - j,
        {
            copy.push(row[j]);
            assert(row@.subrange(0, j + 1) =~= row@.subrange(0, j as int).push(row@[j as int]));
            j = j + 1;
        }
        assert(row@.subrange(0, n as int) =~= row@);
        m.push(copy);
        i = i + 1;
    }
    proof {
        assert forall|k: int| #[trigger] first_mismatch(rows@, k) implies false by {
            assert(rows@[k]@.len() == n);
        }
    }
    Ok(m)
}

/// The label under which a diverging population of species `i` is reported:
/// `species_<i>`.
pub fn species_label(i: usize) -> (label: String)
    ensures
        label@ == "species_"@ + decimal(i as nat),
{
    let mut s = String::new();
    s.append("species_");
    push_decimal(&mut s, i as u64);
    s
}

/// An ecosystem needs at least one species to be stepped or analysed.
pub fn require_species<V>(species: usize) -> (res: Result<(), Error<V>>)
    ensures
        species > 0 ==> res is Ok,
        species == 0 ==> res matches Err(Error::EmptyEcosystem),
{
    if species == 0 {
        Err(Error::EmptyEcosystem)
    } else {
        Ok(())
    }
}

/// MIDI output needs at least one species and at least one recorded
/// history step.
pub fn require_species_and_history<V>(species: usize, history: usize) -> (res: Result<(), Error<V>>)
    ensures
        species > 0 && history > 0 ==> res is Ok,
        species == 0 || history == 0 ==> res matches Err(Error::EmptyEcosystem),
{
    if species == 0 || history == 0 {
        Err(Error::EmptyEcosystem)
    } else {
        Ok(())
    }
}

} // verus!
