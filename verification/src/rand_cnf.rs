//! Drawing the clauses of a random formula: each clause has `k` literals
//! over `k` different variables below `n`, each negated or not by the toss
//! of a coin.

use crate::cnf::{CNFClause, CNFLiteral};
use rand::rngs::StdRng;
use rand::Rng;
use vstd::prelude::*;

verus! {

/// `rand::rngs::StdRng`, the random source that the draws are made from.
/// Nothing is known of what it holds.
#[verifier::external_type_specification]
#[verifier::external_body]
pub struct ExStdRng(StdRng);

/// `Rng::gen_range` on the range from 0 up to `n`, without `n`. The
/// result lies in that range; which value comes is open.
#[verifier::external_body]
fn random_below(rng: &mut StdRng, n: u32) -> (v: u32)
    requires
        n > 0,
    ensures
        v < n,
{
    rng.gen_range(0..n)
}

/// `Rng::gen_ratio` with a chance of 1 in 2. Nothing is known of the
/// result.
#[verifier::external_body]
fn random_bool(rng: &mut StdRng) -> (b: bool) {
    rng.gen_ratio(1, 2)
}

/// What a clause that is being drawn needs next.
#[derive(Clone, Copy, Debug, PartialEq, Eq, Structural)]
pub enum NextDraw {
    /// A candidate for the next variable.
    Variable,
    /// The polarity of the next literal.
    Polarity,
    /// Nothing: the clause is complete.
    Nothing,
}

/// A clause that is being drawn: first its variables, one candidate after
/// the other, where a candidate that the clause has already is passed
/// over; then the polarity of each literal.
pub struct ClauseDraw {
    k: u8,
    n: u32,
    variables: Vec<u32>,
    negations: Vec<bool>,
}

/// The sequence with `candidate` at its end, unless it holds it already.
pub open spec fn with_candidate(variables: Seq<u32>, candidate: u32) -> Seq<u32> {
    if variables.contains(candidate) {
        variables
    } else {
        variables.push(candidate)
    }
}

impl ClauseDraw {
    #[verifier::type_invariant]
    closed spec fn well_formed(&self) -> bool {
        &&& self.variables.len() <= self.k
        &&& self.k <= self.n
        &&& self.negations.len() <= self.variables.len()
        &&& self.negations.len() > 0 ==> self.variables.len() == self.k
        &&& self.variables@.no_duplicates()
        &&& forall|i: int| 0 <= i < self.variables.len() ==> self.variables[i] < self.n
    }

    /// How many literals the clause is to have.
    pub closed spec fn width(&self) -> int {
        self.k as int
    }

    /// The bound below which the variables are drawn.
    pub closed spec fn bound(&self) -> int {
        self.n as int
    }

    /// The variables drawn so far.
    pub closed spec fn variables(&self) -> Seq<u32> {
        self.variables@
    }

    /// The polarities drawn so far.
    pub closed spec fn negations(&self) -> Seq<bool> {
        self.negations@
    }

    /// What the clause needs next.
    pub open spec fn next_draw(&self) -> NextDraw {
        if self.variables().len() < self.width() {
            NextDraw::Variable
        } else if self.negations().len() < self.width() {
            NextDraw::Polarity
        } else {
            NextDraw::Nothing
        }
    }

    /// A clause of `k` literals over variables below `n`, with nothing
    /// drawn yet.
    pub fn new(k: u8, n: u32) -> (draw: Self)
        requires
            n >= k,
        ensures
            draw.width() == k,
            draw.bound() == n,
            draw.variables() == Seq::<u32>::empty(),
            draw.negations() == Seq::<bool>::empty(),
    {
        ClauseDraw { k, n, variables: Vec::new(), negations: Vec::new() }
    }

    /// What the clause needs next.
    pub fn next(&self) -> (next: NextDraw)
        ensures
            next == self.next_draw(),
    {
        if self.variables.len() < self.k as usize {
            NextDraw::Variable
        } else if self.negations.len() < self.k as usize {
            NextDraw::Polarity
        } else {
            NextDraw::Nothing
        }
    }

    /// Whether `candidate` is among the variables drawn so far.
    fn has_variable(&self, candidate: u32) -> (found: bool)
        ensures
            found == self.variables().contains(candidate),
    {
        let mut i: usize = 0;
        while i < self.variables.len()
            invariant
                i <= self.variables.len(),
                forall|j: int| 0 <= j < i ==> self.variables@[j] != candidate,
            decreases self.variables.len() - i,
        {
            if self.variables[i] == candidate {
                return true;
            }
            i += 1;
        }
        false
    }

    /// Takes `candidate` as the next variable unless the clause has it.
    pub fn offer_variable(self, candidate: u32) -> (next: Self)
        requires
            self.next_draw() == NextDraw::Variable,
            candidate < self.bound(),
        ensures
            next.width() == self.width(),
            next.bound() == self.bound(),
            next.negations() == self.negations(),
            next.variables() == with_candidate(self.variables(), candidate),
    {
        proof {
            use_type_invariant(&self);
        }
        if self.has_variable(candidate) {
            self
        } else {
            let ClauseDraw { k, n, mut variables, negations } = self;
            variables.push(candidate);
            ClauseDraw { k, n, variables, negations }
        }
    }

    /// Takes `negate` as the polarity of the next literal.
    pub fn offer_polarity(self, negate: bool) -> (next: Self)
        requires
            self.next_draw() == NextDraw::Polarity,
        ensures
            next.width() == self.width(),
            next.bound() == self.bound(),
            next.variables() == self.variables(),
            next.negations() == self.negations().push(negate),
    {
        proof {
            use_type_invariant(&self);
        }
        let ClauseDraw { k, n, variables, mut negations } = self;
        negations.push(negate);
        ClauseDraw { k, n, variables, negations }
    }

    /// Draws what the clause needs next from `rng` and takes it; changes
    /// nothing where the clause is complete.
    pub fn step(self, rng: &mut StdRng) -> (next: Self)
        ensures
            next.width() == self.width(),
            next.bound() == self.bound(),
            match self.next_draw() {
                NextDraw::Variable => next.negations() == self.negations() && exists|
                    candidate: u32,
                |
                    candidate < self.bound() && next.variables() == #[trigger] with_candidate(
                        self.variables(),
                        candidate,
                    ),
                NextDraw::Polarity => next.variables() == self.variables() && exists|negate: bool|
                    next.negations() == #[trigger] self.negations().push(negate),
                NextDraw::Nothing => next.variables() == self.variables() && next.negations()
                    == self.negations(),
            },
    {
        proof {
            use_type_invariant(&self);
        }
        match self.next() {
            NextDraw::Variable => {
                let candidate = random_below(rng, self.n);
                self.offer_variable(candidate)
            },
            NextDraw::Polarity => {
                let negate = random_bool(rng);
                self.offer_polarity(negate)
            },
            NextDraw::Nothing => self,
        }
    }

    /// The clause, once it is complete: its literals are over the
    /// variables in the order in which they were drawn, which differ from
    /// each other and lie below the bound, each with its polarity.
    pub fn clause(&self) -> (clause: CNFClause)
        requires
            self.next_draw() == NextDraw::Nothing,
        ensures
            clause@.len() == self.width(),
            clause@.len() == self.variables().len(),
            clause@.len() == self.negations().len(),
            forall|i: int|
                0 <= i < clause@.len() ==> #[trigger] clause@[i] == (CNFLiteral {
                    negate: self.negations()[i],
                    variable: self.variables()[i],
                }),
            forall|i: int| 0 <= i < clause@.len() ==> (#[trigger] clause@[i]).variable < self.bound(),
            forall|i: int, j: int|
                0 <= i < j < clause@.len() ==> (#[trigger] clause@[i]).variable != (
                #[trigger] clause@[j]).variable,
    {
        proof {
            use_type_invariant(self);
        }
        let mut literals: Vec<CNFLiteral> = Vec::new();
        let mut i: usize = 0;
        while i < self.variables.len()
            invariant
                i <= self.variables.len(),
                self.variables.len() == self.negations.len(),
                literals.len() == i,
                forall|j: int|
                    0 <= j < i ==> #[trigger] literals@[j] == (CNFLiteral {
                        negate: self.negations@[j],
                        variable: self.variables@[j],
                    }),
            decreases self.variables.len() - i,
        {
            literals.push(CNFLiteral { negate: self.negations[i], variable: self.variables[i] });
            i += 1;
        }
        CNFClause { literals }
    }
}

} // verus!
