//! Stability classification of fixed points and fusion-genre naming.

use vstd::prelude::*;

verus! {

/// Stability classification of a fixed point.
#[derive(Debug, Clone, Copy, PartialEq, Eq, Structural)]
pub enum Stability {
    /// All eigenvalues have negative real parts.
    Stable,
    /// At least one eigenvalue has positive real part.
    Unstable,
    /// Mixed positive and negative eigenvalues.
    Saddle,
    /// Eigenvalues are purely imaginary or zero.
    Neutral,
}

/// Sign of the real part of one Jacobian eigenvalue, after the caller's
/// tolerance has been applied (a real part within the tolerance of zero is
/// `Zero`).
#[derive(Debug, Clone, Copy, PartialEq, Eq, Structural)]
pub enum EigenSign {
    Negative,
    Zero,
    Positive,
}

/// Some eigenvalue has a positive real part.
pub open spec fn has_positive(signs: Seq<EigenSign>) -> bool {
    exists|i: int| 0 <= i < signs.len() && signs[i] == EigenSign::Positive
}

/// Some eigenvalue has a negative real part.
pub open spec fn has_negative(signs: Seq<EigenSign>) -> bool {
    exists|i: int| 0 <= i < signs.len() && signs[i] == EigenSign::Negative
}

/// The classification of a fixed point whose eigenvalue signs are `signs`.
pub open spec fn classify(signs: Seq<EigenSign>) -> Stability {
    if has_positive(signs) && has_negative(signs) {
        Stability::Saddle
    } else if has_positive(signs) {
        Stability::Unstable
    } else if has_negative(signs) {
        Stability::Stable
    } else {
        Stability::Neutral
    }
}

/// Classify a fixed point from the signs of the real parts of the
/// eigenvalues of its Jacobian.
pub fn analyze_stability(signs: &Vec<EigenSign>) -> (res: Stability)
    ensures
        res == classify(signs@),
{
    let mut pos = false;
    let mut neg = false;
    let mut i: usize = 0;
    while i < signs.len()
        invariant
            i <= signs.len(),
            pos <==> exists|k: int| 0 <= k < i && signs@[k] == EigenSign::Positive,
            neg <==> exists|k: int| 0 <= k < i && signs@[k] == EigenSign::Negative,
        decreases signs.len() - i,
    {
        match signs[i] {
            EigenSign::Positive => { pos = true; },
            EigenSign::Negative => { neg = true; },
            EigenSign::Zero => {},
        }
        i = i + 1;
    }
    if pos && neg {
        Stability::Saddle
    } else if pos {
        Stability::Unstable
    } else if neg {
        Stability::Stable
    } else {
        Stability::Neutral
    }
}

/// How the population distribution at a fixed point names its fusion genre,
/// by species index: nothing lives (`Void`); one species holds most of the
/// population (`Pure`); the two leading species both hold a large share
/// (`Crossover`, leader first); or one species leads (`Dominated`).
#[derive(Debug, Clone, Copy, PartialEq, Eq, Structural)]
pub enum GenreNaming {
    Void,
    Pure(usize),
    Crossover(usize, usize),
    Dominated(usize),
}

/// The species indices that a naming refers to are valid.
pub open spec fn naming_in_range(naming: GenreNaming, count: nat) -> bool {
    match naming {
        GenreNaming::Void => true,
        GenreNaming::Pure(i) => i < count,
        GenreNaming::Crossover(i, j) => i < count && j < count,
        GenreNaming::Dominated(i) => i < count,
    }
}

/// The name of a fusion genre.
pub open spec fn genre_name_text(names: Seq<String>, naming: GenreNaming) -> Seq<char> {
    match naming {
        GenreNaming::Void => "Void"@,
        GenreNaming::Pure(i) => "Pure "@ + names[i as int]@ + " Fusion"@,
        GenreNaming::Crossover(i, j) => names[i as int]@ + "-"@ + names[j as int]@ + " Crossover"@,
        GenreNaming::Dominated(i) => names[i as int]@ + "-dominated Equilibrium"@,
    }
}

/// Name a fusion genre after the species that shape it.
pub fn genre_name(names: &Vec<String>, naming: GenreNaming) -> (name: String)
    requires
        naming_in_range(naming, names@.len()),
    ensures
        name@ == genre_name_text(names@, naming),
        // The name spells out the species it is given, in the given order.
        naming matches GenreNaming::Dominated(i) ==> {
            let lead = names@[i as int]@;
            &&& name@.take(lead.len() as int) == lead
            &&& name@.skip(lead.len() as int) == "-dominated Equilibrium"@
        },
        naming matches GenreNaming::Pure(i) ==> {
            let lead = names@[i as int]@;
            let p = "Pure "@.len() as int;
            &&& name@.take(p) == "Pure "@
            &&& name@.subrange(p, p + lead.len()) == lead
            &&& name@.skip(p + lead.len()) == " Fusion"@
        },
        naming matches GenreNaming::Crossover(i, j) ==> {
            let first = names@[i as int]@;
            let second = names@[j as int]@;
            let a = first.len() as int;
            let b = a + "-"@.len();
            &&& name@.take(a) == first
            &&& name@.subrange(a, b) == "-"@
            &&& name@.subrange(b, b + second.len()) == second
            &&& name@.skip(b + second.len()) == " Crossover"@
        },
{
    let mut s = String::new();
    match naming {
        GenreNaming::Void => {
            s.append("Void");
        },
        GenreNaming::Pure(i) => {
            s.append("Pure ");
            s.append(names[i].as_str());
            s.append(" Fusion");
        },
        GenreNaming::Crossover(i, j) => {
            s.append(names[i].as_str());
            s.append("-");
            s.append(names[j].as_str());
            s.append(" Crossover");
        },
        GenreNaming::Dominated(i) => {
            s.append(names[i].as_str());
            s.append("-dominated Equilibrium");
        },
    }
    proof {
        match naming {
            GenreNaming::Dominated(i) => {
                let lead = names@[i as int]@;
                assert(s@.take(lead.len() as int) =~= lead);
                assert(s@.skip(lead.len() as int) =~= "-dominated Equilibrium"@);
            },
            GenreNaming::Pure(i) => {
                let lead = names@[i as int]@;
                let p = "Pure "@.len() as int;
                assert(s@.take(p) =~= "Pure "@);
                assert(s@.subrange(p, p + lead.len()) =~= lead);
                assert(s@.skip(p + lead.len()) =~= " Fusion"@);
            },
            GenreNaming::Crossover(i, j) => {
                let first = names@[i as int]@;
                let second = names@[j as int]@;
                let a = first.len() as int;
                let b = a + "-"@.len();
                assert(s@.take(a) =~= first);
                assert(s@.subrange(a, b) =~= "-"@);
                assert(s@.subrange(b, b + second.len()) =~= second);
                assert(s@.skip(b + second.len()) =~= " Crossover"@);
            },
            GenreNaming::Void => {},
        }
    }
    s
}

/// A fixed point whose eigenvalues all have negative real parts is stable;
/// one where some grow and none decay is unstable; one where some grow and
/// some decay is a saddle; one where none grows or decays is neutral.
pub proof fn lemma_stability_classes(signs: Seq<EigenSign>)
    ensures
        signs.len() > 0 && (forall|i: int| 0 <= i < signs.len() ==> #[trigger] signs[i] == EigenSign::Negative)
            ==> classify(signs) == Stability::Stable,
        signs.len() > 0 && (forall|i: int| 0 <= i < signs.len() ==> #[trigger] signs[i] == EigenSign::Positive)
            ==> classify(signs) == Stability::Unstable,
        has_positive(signs) && has_negative(signs) ==> classify(signs) == Stability::Saddle,
        (forall|i: int| 0 <= i < signs.len() ==> #[trigger] signs[i] == EigenSign::Zero)
            ==> classify(signs) == Stability::Neutral,
        classify(signs) == Stability::Stable <==> has_negative(signs) && !has_positive(signs),
{
    if signs.len() > 0 {
        if forall|i: int| 0 <= i < signs.len() ==> #[trigger] signs[i] == EigenSign::Negative {
            assert(signs[0] == EigenSign::Negative);
        }
        if forall|i: int| 0 <= i < signs.len() ==> #[trigger] signs[i] == EigenSign::Positive {
            assert(signs[0] == EigenSign::Positive);
        }
    }
}

} // verus!
