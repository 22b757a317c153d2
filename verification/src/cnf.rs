//! Literals, clauses and formulas in conjunctive normal form, and what it
//! means for a truth assignment to satisfy them.

use vstd::prelude::*;

verus! {

/// A variable or its negation.
#[derive(Clone, Copy, Debug, PartialEq, Eq, Structural)]
pub struct CNFLiteral {
    pub negate: bool,
    pub variable: u32,
}

/// A disjunction of literals.
#[derive(Debug)]
pub struct CNFClause {
    pub literals: Vec<CNFLiteral>,
}

/// A conjunction of clauses.
#[derive(Debug)]
pub struct CNFFormula {
    pub clauses: Vec<CNFClause>,
}

impl View for CNFClause {
    type V = Seq<CNFLiteral>;

    open spec fn view(&self) -> Seq<CNFLiteral> {
        self.literals@
    }
}

/// The clauses of a sequence, each as the sequence of its literals.
pub open spec fn clauses_view(clauses: Seq<CNFClause>) -> Seq<Seq<CNFLiteral>> {
    clauses.map_values(|c: CNFClause| c@)
}

impl View for CNFFormula {
    type V = Seq<Seq<CNFLiteral>>;

    open spec fn view(&self) -> Seq<Seq<CNFLiteral>> {
        clauses_view(self.clauses@)
    }
}

impl Clone for CNFClause {
    /// A clause of the same literals.
    fn clone(&self) -> (res: Self)
        ensures
            res@ == self@,
    {
        let mut literals: Vec<CNFLiteral> = Vec::new();
        let mut i: usize = 0;
        while i < self.literals.len()
            invariant
                i <= self.literals.len(),
                literals@ == self.literals@.subrange(0, i as int),
            decreases self.literals.len() - i,
        {
            literals.push(self.literals[i]);
            i += 1;
        }
        CNFClause { literals }
    }
}

impl Clone for CNFFormula {
    /// A formula of the same clauses.
    fn clone(&self) -> (res: Self)
        ensures
            res@ == self@,
    {
        let mut clauses: Vec<CNFClause> = Vec::new();
        let mut i: usize = 0;
        while i < self.clauses.len()
            invariant
                i <= self.clauses.len(),
                clauses.len() == i,
                forall|j: int| 0 <= j < i ==> clauses[j]@ == self.clauses[j]@,
            decreases self.clauses.len() - i,
        {
            clauses.push(self.clauses[i].clone());
            i += 1;
        }
        let res = CNFFormula { clauses };
        assert(res@ =~= self@);
        res
    }
}

/// A truth assignment: the value given to each variable.
pub type Assignment = spec_fn(u32) -> bool;

/// The literal evaluates to true under the assignment.
pub open spec fn literal_holds(a: Assignment, l: CNFLiteral) -> bool {
    a(l.variable) != l.negate
}

/// Some literal of the clause evaluates to true.
pub open spec fn clause_holds(a: Assignment, c: Seq<CNFLiteral>) -> bool {
    exists|j: int| 0 <= j < c.len() && literal_holds(a, #[trigger] c[j])
}

/// Every clause of the formula holds.
pub open spec fn formula_holds(a: Assignment, f: Seq<Seq<CNFLiteral>>) -> bool {
    forall|i: int| 0 <= i < f.len() ==> clause_holds(a, #[trigger] f[i])
}

/// Some assignment makes every clause of the formula hold.
pub open spec fn satisfiable(f: Seq<Seq<CNFLiteral>>) -> bool {
    exists|a: Assignment| formula_holds(a, f)
}

/// The assignment that agrees with `a` except that it makes `l` true.
pub open spec fn with_literal(a: Assignment, l: CNFLiteral) -> Assignment {
    |v: u32| if v == l.variable { !l.negate } else { a(v) }
}

/// The formula without clauses is satisfiable.
pub proof fn lemma_empty_formula_satisfiable()
    ensures
        satisfiable(Seq::<Seq<CNFLiteral>>::empty()),
{
    let a: Assignment = |v: u32| true;
    assert(formula_holds(a, Seq::<Seq<CNFLiteral>>::empty()));
}

/// A formula that has a clause without literals is unsatisfiable.
pub proof fn lemma_empty_clause_unsatisfiable(f: Seq<Seq<CNFLiteral>>, i: int)
    requires
        0 <= i < f.len(),
        f[i].len() == 0,
    ensures
        !satisfiable(f),
{
    assert forall|a: Assignment| !formula_holds(a, f) by {
        assert(!clause_holds(a, f[i]));
    }
}

/// Adding a clause never makes an unsatisfiable formula satisfiable.
pub proof fn lemma_satisfiable_monotone(f: Seq<Seq<CNFLiteral>>, c: Seq<CNFLiteral>)
    requires
        satisfiable(f.push(c)),
    ensures
        satisfiable(f),
{
    let a = choose|a: Assignment| formula_holds(a, f.push(c));
    assert forall|i: int| 0 <= i < f.len() implies clause_holds(a, #[trigger] f[i]) by {
        assert(f.push(c)[i] == f[i]);
    }
    assert(formula_holds(a, f));
}

/// The character of a decimal digit.
pub open spec fn digit_char(d: int) -> char {
    if d == 0 {
        '0'
    } else if d == 1 {
        '1'
    } else if d == 2 {
        '2'
    } else if d == 3 {
        '3'
    } else if d == 4 {
        '4'
    } else if d == 5 {
        '5'
    } else if d == 6 {
        '6'
    } else if d == 7 {
        '7'
    } else if d == 8 {
        '8'
    } else {
        '9'
    }
}

/// The number in decimal digits, without leading zeros.
pub open spec fn decimal(n: nat) -> Seq<char>
    decreases n,
{
    if n < 10 {
        seq![digit_char(n as int)]
    } else {
        decimal(n / 10).push(digit_char((n % 10) as int))
    }
}

/// The literal as text: `x_{` and `}` round the number of the variable,
/// behind `¬` where the literal is negated.
pub open spec fn literal_text(l: CNFLiteral) -> Seq<char> {
    (if l.negate {
        seq!['¬']
    } else {
        Seq::<char>::empty()
    }) + seq!['x', '_', '{'] + decimal(l.variable as nat) + seq!['}']
}

/// The clause as text: its literals with `∨` between them.
pub open spec fn clause_text(c: Seq<CNFLiteral>) -> Seq<char>
    decreases c.len(),
{
    if c.len() == 0 {
        Seq::empty()
    } else if c.len() == 1 {
        literal_text(c[0])
    } else {
        clause_text(c.drop_last()) + seq!['∨'] + literal_text(c.last())
    }
}

/// The formula as text: its clauses, each in round brackets, with `∧`
/// between them.
pub open spec fn formula_text(f: Seq<Seq<CNFLiteral>>) -> Seq<char>
    decreases f.len(),
{
    if f.len() == 0 {
        Seq::empty()
    } else if f.len() == 1 {
        seq!['('] + clause_text(f[0]) + seq![')']
    } else {
        formula_text(f.drop_last()) + seq!['∧'] + seq!['('] + clause_text(f.last()) + seq![')']
    }
}

/// `String::from_iter` over the characters of a vector: the string made
/// of these characters in their order.
#[verifier::external_body]
fn string_from_chars(chars: &Vec<char>) -> (s: String)
    ensures
        s@ == chars@,
{
    String::from_iter(chars.iter())
}

/// The character of the digit `d`.
fn digit(d: u32) -> (c: char)
    requires
        d < 10,
    ensures
        c == digit_char(d as int),
{
    if d == 0 {
        '0'
    } else if d == 1 {
        '1'
    } else if d == 2 {
        '2'
    } else if d == 3 {
        '3'
    } else if d == 4 {
        '4'
    } else if d == 5 {
        '5'
    } else if d == 6 {
        '6'
    } else if d == 7 {
        '7'
    } else if d == 8 {
        '8'
    } else {
        '9'
    }
}

/// Appends the number in decimal digits.
fn push_decimal(out: &mut Vec<char>, n: u32)
    ensures
        final(out)@ == old(out)@ + decimal(n as nat),
    decreases n,
{
    if n >= 10 {
        push_decimal(out, n / 10);
    }
    out.push(digit(n % 10));
    proof {
        if n >= 10 {
            assert(out@ =~= old(out)@ + decimal(n as nat));
        } else {
            assert(out@ =~= old(out)@ + decimal(n as nat));
        }
    }
}

/// Appends the literal as text.
fn push_literal(out: &mut Vec<char>, literal: &CNFLiteral)
    ensures
        final(out)@ == old(out)@ + literal_text(*literal),
{
    if literal.negate {
        out.push('¬');
    }
    out.push('x');
    out.push('_');
    out.push('{');
    push_decimal(out, literal.variable);
    out.push('}');
    proof {
        assert(out@ =~= old(out)@ + literal_text(*literal));
    }
}

/// Appends the clause as text.
fn push_clause(out: &mut Vec<char>, clause: &CNFClause)
    ensures
        final(out)@ == old(out)@ + clause_text(clause@),
{
    let mut j: usize = 0;
    proof {
        assert(clause@.subrange(0, 0) =~= Seq::<CNFLiteral>::empty());
        assert(out@ =~= old(out)@ + clause_text(clause@.subrange(0, 0)));
    }
    while j < clause.literals.len()
        invariant
            j <= clause.literals.len(),
            out@ == old(out)@ + clause_text(clause@.subrange(0, j as int)),
        decreases clause.literals.len() - j,
    {
        let ghost before = out@;
        if j > 0 {
            out.push('∨');
        }
        push_literal(out, &clause.literals[j]);
        proof {
            let next = clause@.subrange(0, j + 1);
            assert(next.drop_last() =~= clause@.subrange(0, j as int));
            assert(next.last() == clause@[j as int]);
            if j == 0 {
                assert(next[0] == clause@[0]);
                assert(out@ =~= old(out)@ + clause_text(next));
            } else {
                assert(out@ =~= old(out)@ + clause_text(next));
            }
        }
        j += 1;
    }
    proof {
        assert(clause@.subrange(0, j as int) =~= clause@);
    }
}

impl CNFLiteral {
    /// The literal as text.
    pub fn to_string(&self) -> (s: String)
        ensures
            s@ == literal_text(*self),
    {
        let mut out: Vec<char> = Vec::new();
        push_literal(&mut out, self);
        proof {
            assert(out@ =~= literal_text(*self));
        }
        string_from_chars(&out)
    }
}

impl CNFClause {
    /// The clause as text.
    pub fn to_string(&self) -> (s: String)
        ensures
            s@ == clause_text(self@),
    {
        let mut out: Vec<char> = Vec::new();
        push_clause(&mut out, self);
        proof {
            assert(out@ =~= clause_text(self@));
        }
        string_from_chars(&out)
    }
}

impl CNFFormula {
    /// The formula as text.
    pub fn to_string(&self) -> (s: String)
        ensures
            s@ == formula_text(self@),
    {
        let mut out: Vec<char> = Vec::new();
        let mut i: usize = 0;
        proof {
            assert(self@.subrange(0, 0) =~= Seq::<Seq<CNFLiteral>>::empty());
        }
        while i < self.clauses.len()
            invariant
                i <= self.clauses.len(),
                out@ == formula_text(self@.subrange(0, i as int)),
            decreases self.clauses.len() - i,
        {
            if i > 0 {
                out.push('∧');
            }
            out.push('(');
            push_clause(&mut out, &self.clauses[i]);
            out.push(')');
            proof {
                let next = self@.subrange(0, i + 1);
                assert(next.drop_last() =~= self@.subrange(0, i as int));
                assert(next.last() == self.clauses[i as int]@);
                if i == 0 {
                    assert(next[0] == self.clauses[0]@);
                    assert(out@ =~= formula_text(next));
                } else {
                    assert(out@ =~= formula_text(next));
                }
            }
            i += 1;
        }
        proof {
            assert(self@.subrange(0, i as int) =~= self@);
        }
        string_from_chars(&out)
    }
}

/// A formula is satisfiable exactly when it is with some variable forced
/// true or with that variable forced false.
pub proof fn lemma_branching(f: Seq<Seq<CNFLiteral>>, v: u32)
    ensures
        satisfiable(f) == (satisfiable(f.push(seq![CNFLiteral { negate: false, variable: v }]))
            || satisfiable(f.push(seq![CNFLiteral { negate: true, variable: v }]))),
{
    let p = CNFLiteral { negate: false, variable: v };
    let n = CNFLiteral { negate: true, variable: v };
    if satisfiable(f) {
        let a = choose|a: Assignment| formula_holds(a, f);
        let l = if a(v) {
            p
        } else {
            n
        };
        let g = f.push(seq![l]);
        assert forall|i: int| 0 <= i < g.len() implies clause_holds(a, #[trigger] g[i]) by {
            if i < f.len() {
                assert(g[i] == f[i]);
            } else {
                assert(literal_holds(a, g[i][0]));
            }
        }
        assert(formula_holds(a, g));
    }
    if satisfiable(f.push(seq![p])) {
        lemma_satisfiable_monotone(f, seq![p]);
    }
    if satisfiable(f.push(seq![n])) {
        lemma_satisfiable_monotone(f, seq![n]);
    }
}

} // verus!
