//! The coefficients that statements enter their combination with.

use crate::field::Ring;
use crate::poly::{eq_table, lemma_eq_table_len};
use crate::poly_laws::law_powers;
use crate::sumcheck::vectors::total;
use crate::whir::statement::{
    combined_sum, combined_weights, placed_at, statement_terms, terms_of, SparseStatement, Term,
};
use vstd::arithmetic::power2::pow2;
use vstd::prelude::*;

verus! {

/// Where the values of each statement start among all values.
pub open spec fn value_positions<EF: Ring>(
    statements: Seq<SparseStatement<EF>>,
    at: Seq<int>,
) -> bool {
    &&& at.len() == statements.len() + 1
    &&& at[0] == 0
    &&& forall|i: int|
        0 <= i < statements.len() ==> at[i + 1] == at[i] + (#[trigger] statements[i]).values@.len()
}

/// A term among those of all statements.
proof fn lemma_term_at<EF: Ring>(
    statements: Seq<SparseStatement<EF>>,
    next_tables: Seq<Vec<EF>>,
    at: Seq<int>,
    m: nat,
    i: int,
    k: int,
)
    requires
        value_positions(statements, at),
        m <= statements.len(),
    ensures
        terms_of(statements, next_tables, m).len() == at[m as int],
        0 <= i < m && 0 <= k < statements[i].values@.len() ==> 0 <= at[i] + k < at[m as int]
            && terms_of(statements, next_tables, m)[at[i] + k] == statement_terms(
            statements[i],
            next_tables[i]@,
        )[k],
    decreases m,
{
    if m > 0 {
        let p = (m - 1) as nat;
        lemma_term_at(statements, next_tables, at, p, i, k);
        assert(at[p as int + 1] == at[p as int] + statements[p as int].values@.len());
    }
}

/// Every position is that of some value of some statement.
proof fn lemma_position_is_value<EF: Ring>(
    statements: Seq<SparseStatement<EF>>,
    at: Seq<int>,
    m: nat,
    t: int,
) -> (r: (int, int))
    requires
        value_positions(statements, at),
        m <= statements.len(),
        0 <= t < at[m as int],
    ensures
        0 <= r.0 < m,
        0 <= r.1 < statements[r.0].values@.len(),
        t == at[r.0] + r.1,
    decreases m,
{
    let p = (m - 1) as nat;
    assert(at[p as int + 1] == at[p as int] + statements[p as int].values@.len());
    if t < at[p as int] {
        lemma_position_is_value(statements, at, p, t)
    } else {
        (p as int, t - at[p as int])
    }
}

proof fn lemma_sum_is_total<R: Ring>(terms: Seq<Term<R>>, gamma: R, c: Seq<R>, v: Seq<R>)
    requires
        c.len() >= terms.len(),
        c.len() > 0,
        c[0] == R::ring_one(),
        forall|k: int| 0 < k < c.len() ==> #[trigger] c[k] == c[k - 1].times(gamma),
        v.len() == terms.len(),
        forall|t: int| 0 <= t < v.len() ==> #[trigger] v[t] == terms[t].value.times(c[t]),
    ensures
        combined_sum(terms, gamma) == total(v),
    decreases terms.len(),
{
    if terms.len() > 0 {
        let n = terms.len() - 1;
        law_powers(gamma, c, n);
        assert(v[n] == terms[n].value.times(c[n]));
        assert forall|t: int| 0 <= t < v.drop_last().len() implies #[trigger] v.drop_last()[t]
            == terms.drop_last()[t].value.times(c[t]) by {
            assert(v[t] == terms[t].value.times(c[t]));
        }
        lemma_sum_is_total(terms.drop_last(), gamma, c, v.drop_last());
    }
}

proof fn lemma_weights_are_total<R: Ring>(
    terms: Seq<Term<R>>,
    gamma: R,
    n: nat,
    c: Seq<R>,
    w: Seq<R>,
    x: int,
)
    requires
        0 <= x < n,
        c.len() >= terms.len(),
        c.len() > 0,
        c[0] == R::ring_one(),
        forall|k: int| 0 < k < c.len() ==> #[trigger] c[k] == c[k - 1].times(gamma),
        w.len() == terms.len(),
        forall|t: int| 0 <= t < w.len() ==> #[trigger] w[t] == c[t].times(terms[t].weights(n)[x]),
    ensures
        combined_weights(terms, gamma, n).len() == n,
        combined_weights(terms, gamma, n)[x] == total(w),
    decreases terms.len(),
{
    if terms.len() > 0 {
        let m = terms.len() - 1;
        law_powers(gamma, c, m);
        assert(w[m] == c[m].times(terms[m].weights(n)[x]));
        assert forall|t: int| 0 <= t < w.drop_last().len() implies #[trigger] w.drop_last()[t]
            == c[t].times(terms.drop_last()[t].weights(n)[x]) by {
            assert(w[t] == c[t].times(terms[t].weights(n)[x]));
        }
        lemma_weights_are_total(terms.drop_last(), gamma, n, c, w.drop_last(), x);
        assert(terms.last().weights(n).len() == n);
    }
}

/// The values of all statements, numbered one after another, are summed with the powers of
/// `gamma`: value number `t` is taken `gamma^t` times.
pub proof fn law_combined_sum<EF: Ring>(
    statements: Seq<SparseStatement<EF>>,
    next_tables: Seq<Vec<EF>>,
    gamma: EF,
    at: Seq<int>,
    c: Seq<EF>,
    v: Seq<EF>,
)
    requires
        value_positions(statements, at),
        c.len() >= at[statements.len() as int],
        c.len() > 0,
        c[0] == EF::ring_one(),
        forall|k: int| 0 < k < c.len() ==> #[trigger] c[k] == c[k - 1].times(gamma),
        v.len() == at[statements.len() as int],
        forall|i: int, k: int|
            0 <= i < statements.len() && 0 <= k < statements[i].values@.len() ==> v[at[i] + k] == (
            #[trigger] statements[i].values@[k]).value.times(c[at[i] + k]),
    ensures
        combined_sum(terms_of(statements, next_tables, statements.len()), gamma) == total(v),
{
    let m = statements.len();
    let terms = terms_of(statements, next_tables, m);
    lemma_term_at(statements, next_tables, at, m, 0, 0);
    assert forall|t: int| 0 <= t < v.len() implies #[trigger] v[t] == terms[t].value.times(
        c[t],
    ) by {
        let (i, k) = lemma_position_is_value(statements, at, m, t);
        lemma_term_at(statements, next_tables, at, m, i, k);
        assert(v[at[i] + k] == statements[i].values@[k].value.times(c[at[i] + k]));
    }
    lemma_sum_is_total(terms, gamma, c, v);
}

/// The weight at a vertex is the sum over all values of all statements, value number `t` with the
/// coefficient `gamma^t`, of the weight that the value's block has there: outside the block
/// nothing, inside it the equality polynomial of the statement's point at the place in the block,
/// or for a successor statement the successor table's entry.
pub proof fn law_combined_weights<EF: Ring>(
    statements: Seq<SparseStatement<EF>>,
    next_tables: Seq<Vec<EF>>,
    gamma: EF,
    n: nat,
    at: Seq<int>,
    c: Seq<EF>,
    w: Seq<EF>,
    x: int,
)
    requires
        value_positions(statements, at),
        c.len() >= at[statements.len() as int],
        c.len() > 0,
        c[0] == EF::ring_one(),
        forall|k: int| 0 < k < c.len() ==> #[trigger] c[k] == c[k - 1].times(gamma),
        forall|i: int|
            0 <= i < statements.len() && (#[trigger] statements[i]).is_next ==> next_tables[i]@.len()
                == pow2(statements[i].point@.len()),
        0 <= x < n,
        w.len() == at[statements.len() as int],
        forall|i: int, k: int|
            0 <= i < statements.len() && 0 <= k < statements[i].values@.len() ==> w[at[i] + k]
                == c[at[i] + k].times(
                {
                    let size = pow2(statements[i].point@.len()) as int;
                    let start = (#[trigger] statements[i].values@[k]).selector * size;
                    if start <= x < start + size {
                        if statements[i].is_next {
                            next_tables[i]@[x - start]
                        } else {
                            eq_table(statements[i].point@)[x - start]
                        }
                    } else {
                        EF::ring_zero()
                    }
                },
            ),
    ensures
        combined_weights(terms_of(statements, next_tables, statements.len()), gamma, n).len() == n,
        combined_weights(terms_of(statements, next_tables, statements.len()), gamma, n)[x] == total(
            w,
        ),
{
    let m = statements.len();
    let terms = terms_of(statements, next_tables, m);
    lemma_term_at(statements, next_tables, at, m, 0, 0);
    assert forall|t: int| 0 <= t < w.len() implies #[trigger] w[t] == c[t].times(
        terms[t].weights(n)[x],
    ) by {
        let (i, k) = lemma_position_is_value(statements, at, m, t);
        lemma_term_at(statements, next_tables, at, m, i, k);
        let s = statements[i];
        lemma_eq_table_len(s.point@);
        let table = terms[t].table;
        assert(table.len() == pow2(s.point@.len()));
        let start = s.values@[k].selector * pow2(s.point@.len());
        assert(terms[t].weights(n) == placed_at(start, table, n));
    }
    lemma_weights_are_total(terms, gamma, n, c, w, x);
}

} // verus!
