//! How often a variable stands in a formula, counted over runs of equal
//! values in the sorted list of its variables.

use crate::cnf::{CNFLiteral};
use crate::variables::{clause_mentions, formula_mentions};
use vstd::prelude::*;

verus! {

/// The variables of the literals of the clause, in their order.
pub open spec fn clause_variable_list(c: Seq<CNFLiteral>) -> Seq<u32> {
    c.map_values(|l: CNFLiteral| l.variable)
}

/// The variables of all literal positions of the formula, clause by clause.
pub open spec fn formula_variable_list(f: Seq<Seq<CNFLiteral>>) -> Seq<u32>
    decreases f.len(),
{
    if f.len() == 0 {
        Seq::empty()
    } else {
        formula_variable_list(f.drop_last()) + clause_variable_list(f.last())
    }
}

/// In how many literal positions of the formula the variable stands.
pub open spec fn occurrences(f: Seq<Seq<CNFLiteral>>, v: u32) -> nat {
    formula_variable_list(f).to_multiset().count(v)
}

/// The list of variables holds exactly the variables that the formula
/// mentions.
pub proof fn lemma_variable_list_mentions(f: Seq<Seq<CNFLiteral>>)
    ensures
        forall|v: u32| #[trigger] formula_variable_list(f).contains(v) ==> formula_mentions(f, v),
        forall|v: u32| #[trigger] formula_mentions(f, v) ==> formula_variable_list(f).contains(v),
    decreases f.len(),
{
    if f.len() == 0 {
    } else {
        let g = f.drop_last();
        let c = f.last();
        lemma_variable_list_mentions(g);
        let lg = formula_variable_list(g);
        let lc = clause_variable_list(c);
        let lf = formula_variable_list(f);
        assert(lf == lg + lc);
        assert forall|v: u32| #[trigger] lf.contains(v) implies formula_mentions(f, v) by {
            if lf.contains(v) {
                let p = choose|p: int| 0 <= p < lf.len() && lf[p] == v;
                if p < lg.len() {
                    assert(lg[p] == v);
                    assert(lg.contains(v));
                    let i = choose|i: int| 0 <= i < g.len() && clause_mentions(#[trigger] g[i], v);
                    assert(f[i] == g[i]);
                } else {
                    assert(lc[p - lg.len()] == v);
                    assert(c[p - lg.len()].variable == v);
                    assert(clause_mentions(f[f.len() - 1], v));
                }
            }
        }
        assert forall|v: u32| #[trigger] formula_mentions(f, v) implies lf.contains(v) by {
            if formula_mentions(f, v) {
                let i = choose|i: int| 0 <= i < f.len() && clause_mentions(#[trigger] f[i], v);
                if i < g.len() {
                    assert(g[i] == f[i]);
                    assert(formula_mentions(g, v));
                    let p = choose|p: int| 0 <= p < lg.len() && lg[p] == v;
                    assert(lf[p] == v);
                } else {
                    let j = choose|j: int| 0 <= j < c.len() && (#[trigger] c[j]).variable == v;
                    assert(lc[j] == v);
                    assert(lf[lg.len() + j] == v);
                }
            }
        }
    }
}

/// The values stand in ascending order.
pub open spec fn ascending(s: Seq<u32>) -> bool {
    forall|i: int, j: int| 0 <= i <= j < s.len() ==> s[i] <= s[j]
}

/// No chunk is empty, each holds its key and nothing else, and
/// neighbouring chunks differ in their key.
pub open spec fn runs_of_equal(chunks: Seq<(u32, Vec<u32>)>) -> bool {
    &&& forall|k: int|
        0 <= k < chunks.len() ==> (#[trigger] chunks[k]).1.len() > 0 && forall|m: int|
            0 <= m < chunks[k].1.len() ==> chunks[k].1[m] == chunks[k].0
    &&& forall|k: int| 0 <= k < chunks.len() - 1 ==> (#[trigger] chunks[k]).0 != chunks[k + 1].0
}

/// The sequences of the chunks, one after the other.
pub open spec fn concat_chunks(chunks: Seq<(u32, Vec<u32>)>) -> Seq<u32>
    decreases chunks.len(),
{
    if chunks.len() == 0 {
        Seq::empty()
    } else {
        concat_chunks(chunks.drop_last()) + chunks.last().1@
    }
}

/// A sequence that holds one value only holds it as often as it is long.
pub proof fn lemma_constant_count(s: Seq<u32>, x: u32)
    requires
        forall|m: int| 0 <= m < s.len() ==> s[m] == x,
    ensures
        s.to_multiset().count(x) == s.len(),
        forall|w: u32| w != x ==> s.to_multiset().count(w) == 0,
    decreases s.len(),
{
    broadcast use vstd::seq_lib::group_to_multiset_ensures;

    if s.len() == 0 {
        assert forall|w: u32| s.to_multiset().count(w) == 0 by {
            assert(!s.contains(w));
        }
    } else {
        let d = s.drop_last();
        lemma_constant_count(d, x);
        assert(s =~= d.push(x));
        assert(d.push(x).to_multiset() =~= d.to_multiset().insert(x));
    }
}

/// In ascending runs of equal values each key is counted as often as its
/// run is long, and whatever is counted is the key of a run.
pub proof fn lemma_chunk_counts(chunks: Seq<(u32, Vec<u32>)>)
    requires
        runs_of_equal(chunks),
        ascending(concat_chunks(chunks)),
    ensures
        forall|k: int|
            0 <= k < chunks.len() ==> concat_chunks(chunks).to_multiset().count(
                (#[trigger] chunks[k]).0,
            ) == chunks[k].1.len(),
        forall|w: u32|
            concat_chunks(chunks).to_multiset().count(w) > 0 ==> exists|k: int|
                0 <= k < chunks.len() && (#[trigger] chunks[k]).0 == w,
        chunks.len() > 0 ==> concat_chunks(chunks).len() > 0 && concat_chunks(chunks).last()
            == chunks.last().0,
        forall|k: int| 0 <= k < chunks.len() - 1 ==> (#[trigger] chunks[k]).0 < chunks.last().0,
    decreases chunks.len(),
{
    broadcast use vstd::seq_lib::group_to_multiset_ensures;

    let all = concat_chunks(chunks);
    if chunks.len() == 0 {
        assert forall|w: u32| all.to_multiset().count(w) == 0 by {
            assert(!all.contains(w));
        }
    } else {
        let front = chunks.drop_last();
        let key = chunks.last().0;
        let run = chunks.last().1@;
        let before = concat_chunks(front);
        let n = chunks.len() - 1;
        assert(all == before + run);
        assert(chunks[n].1.len() > 0);
        assert forall|m: int| 0 <= m < run.len() implies run[m] == key by {
            assert(chunks[n].1[m] == chunks[n].0);
        }
        assert(runs_of_equal(front)) by {
            assert forall|k: int| 0 <= k < front.len() implies (#[trigger] front[k]).1.len() > 0
                && forall|m: int| 0 <= m < front[k].1.len() ==> front[k].1[m] == front[k].0 by {
                assert(front[k] == chunks[k]);
            }
            assert forall|k: int| 0 <= k < front.len() - 1 implies (#[trigger] front[k]).0
                != front[k + 1].0 by {
                assert(front[k] == chunks[k]);
                assert(front[k + 1] == chunks[k + 1]);
            }
        }
        assert(ascending(before)) by {
            assert forall|i: int, j: int| 0 <= i <= j < before.len() implies before[i]
                <= before[j] by {
                assert(all[i] == before[i] && all[j] == before[j]);
            }
        }
        lemma_chunk_counts(front);
        vstd::seq_lib::lemma_multiset_commutative(before, run);
        lemma_constant_count(run, key);
        assert(all.last() == run.last());
        assert forall|k: int| 0 <= k < n implies (#[trigger] chunks[k]).0 < key by {
            assert(front[k] == chunks[k]);
            assert(front.last() == chunks[n - 1]);
            assert(all[before.len() - 1] == before.last());
            assert(all[before.len() as int] == run[0]);
            assert(chunks[n - 1].0 != chunks[n - 1 + 1].0);
            if k < n - 1 {
                assert(front[k].0 < front.last().0);
            }
        }
        assert(before.to_multiset().count(key) == 0) by {
            if before.to_multiset().count(key) > 0 {
                let k = choose|k: int| 0 <= k < front.len() && (#[trigger] front[k]).0 == key;
                assert(front[k] == chunks[k]);
            }
        }
        assert forall|k: int| 0 <= k < chunks.len() implies all.to_multiset().count(
            (#[trigger] chunks[k]).0,
        ) == chunks[k].1.len() by {
            if k < n {
                assert(front[k] == chunks[k]);
            }
        }
        assert forall|w: u32| all.to_multiset().count(w) > 0 implies exists|k: int|
            0 <= k < chunks.len() && (#[trigger] chunks[k]).0 == w by {
            if w == key {
                assert(chunks[n].0 == w);
            } else {
                assert(before.to_multiset().count(w) > 0);
                let k = choose|k: int| 0 <= k < front.len() && (#[trigger] front[k]).0 == w;
                assert(chunks[k] == front[k]);
            }
        }
    }
}

} // verus!
