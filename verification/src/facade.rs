use vstd::prelude::*;

use crate::error::Error;
use crate::grid::{
    collect_cells, cost_bound, l1_cell_dist, l1_cost, lemma_cost_bound_nonneg,
    lemma_l1_le_cost_bound, lemma_l1_symmetric, lemma_nonzero_cells, lemma_nonzero_scaled,
    nonzero_indices, nonzero_masses, shape_product, Grid,
};
use crate::onedim::{
    abs_diff, distance_1d, lemma_line_height_lipschitz, lemma_line_height_objective,
    lemma_mass_sum_nonneg, lemma_priced_mass_congruence, lemma_wasserstein_dist_1d_bound,
    line_height, mass_sum, priced_mass, total_mass, wasserstein_dist_1d,
};
use crate::simplex::{
    at2, col_sum, dot_prefix, dual_feasible, is_feasible_plan, lemma_scaled_plan,
    lemma_seq_max_le, lemma_transpose_feasible, lemma_weak_duality, plan_cost, row_sum, seq_max,
    solve_transport, transpose_plan,
};
use vstd::arithmetic::div_mod::lemma_fundamental_div_mod_converse;

verus! {

/// Cost table of the transportation problem between the mass-carrying
/// cells of two distributions on a shared grid: entry `i * k + j` is the
/// L1 distance from the `i`-th supply cell to the `j`-th demand cell,
/// where `k` is the number of demand cells.
pub open spec fn nd_costs(shape: Seq<usize>, ldata: Seq<u64>, rdata: Seq<u64>) -> Seq<u64> {
    let li = nonzero_indices(ldata);
    let ri = nonzero_indices(rdata);
    Seq::new(
        (li.len() * ri.len()) as nat,
        |t: int|
            l1_cell_dist(shape, li[t / (ri.len() as int)], ri[t % (ri.len() as int)]) as u64,
    )
}

/// The inputs on which a distance is owed: both grids filled consistently,
/// sharing one shape, and carrying the same positive total mass.
pub open spec fn solvable(left: Grid, right: Grid) -> bool {
    &&& left.consistent()
    &&& right.consistent()
    &&& left.shape@ == right.shape@
    &&& left.total() == right.total()
    &&& left.total() > 0
}

fn shapes_equal(a: &Vec<usize>, b: &Vec<usize>) -> (r: bool)
    ensures
        r == (a@ == b@),
{
    if a.len() != b.len() {
        return false;
    }
    let n = a.len();
    let mut i: usize = 0;
    while i < n
        invariant
            n == a@.len(),
            n == b@.len(),
            i <= n,
            forall|t: int| 0 <= t < i ==> a@[t] == b@[t],
        decreases n - i,
    {
        if a[i] != b[i] {
            return false;
        }
        i = i + 1;
    }
    proof {
        assert(a@ =~= b@);
    }
    true
}

/// Wasserstein-1 distance between two N-dimensional distributions on a
/// shared grid, in mass-times-distance units.
///
/// A one-dimensional grid is solved by the closed-form
/// cumulative-difference algorithm and the result equals that closed form
/// exactly. Any other grid goes through the transportation-problem
/// pipeline: one supply node per mass-carrying cell of `left`, one demand
/// node per mass-carrying cell of `right`, arc costs the L1 distance
/// between cell coordinates, solved by network simplex; the returned cost
/// is certified to be the exact cost of a transport plan that ships every
/// supply and fills every demand.
pub fn wasserstein_nd(left: &Grid, right: &Grid) -> (r: Result<u64, Error>)
    requires
        left.consistent(),
        right.consistent(),
        solvable(*left, *right) ==> left.total() * cost_bound(left.shape@) + 1 <= u64::MAX,
        solvable(*left, *right) ==> (nonzero_masses(left.data@).len() + 1) * (nonzero_masses(
            right.data@,
        ).len() + 1) <= usize::MAX,
    ensures
        match r {
            Ok(c) => solvable(*left, *right) && if left.shape@.len() == 1 {
                c == wasserstein_dist_1d(left.data@, right.data@)
            } else {
                (exists|f: Seq<u64>|
                    is_feasible_plan(
                        f,
                        nonzero_masses(left.data@),
                        nonzero_masses(right.data@),
                    ) && plan_cost(f, nd_costs(left.shape@, left.data@, right.data@)) == c) && (
                forall|g: Seq<u64>|
                    #[trigger] is_feasible_plan(
                        g,
                        nonzero_masses(left.data@),
                        nonzero_masses(right.data@),
                    ) ==> plan_cost(g, nd_costs(left.shape@, left.data@, right.data@)) >= c) && (
                exists|u: Seq<i128>, v: Seq<i128>|
                    u.len() == nonzero_masses(left.data@).len() && v.len() == nonzero_masses(
                        right.data@,
                    ).len() && #[trigger] dual_feasible(
                        u,
                        v,
                        nd_costs(left.shape@, left.data@, right.data@),
                        nonzero_masses(left.data@).len() as int,
                        nonzero_masses(right.data@).len() as int,
                    ) && dot_prefix(
                        u,
                        nonzero_masses(left.data@),
                        nonzero_masses(left.data@).len() as int,
                    ) - dot_prefix(
                        v,
                        nonzero_masses(right.data@),
                        nonzero_masses(right.data@).len() as int,
                    ) == c)
            },
            Err(Error::ShapeMismatch) => left.shape@ != right.shape@,
            Err(Error::ImbalancedMass) => left.shape@ == right.shape@ && left.total()
                != right.total(),
            Err(Error::EmptyInput) => left.shape@ == right.shape@ && left.total() == right.total()
                && left.total() == 0,
            Err(Error::SolverDidNotConverge) => solvable(*left, *right) && left.shape@.len() != 1,
            Err(Error::InvalidInput) => false,
        },
        (solvable(*left, *right) && left.shape@.len() == 1) ==> r is Ok,
{
    if !shapes_equal(&left.shape, &right.shape) {
        return Err(Error::ShapeMismatch);
    }
    let lt: u128 = total_mass(&left.data);
    let rt: u128 = total_mass(&right.data);
    if lt != rt {
        return Err(Error::ImbalancedMass);
    }
    if lt == 0 {
        return Err(Error::EmptyInput);
    }
    if left.shape.len() == 1 {
        proof {
            let n = left.shape@[0] as int;
            assert(left.shape@.drop_last() =~= Seq::<usize>::empty());
            assert(left.shape@.last() == left.shape@[0]);
            assert(shape_product(Seq::<usize>::empty()) == 1);
            assert(cost_bound(Seq::<usize>::empty()) == 0);
            assert(shape_product(left.shape@) == shape_product(left.shape@.drop_last()) * (
            left.shape@.last() as int));
            assert(shape_product(left.shape@) == 1 * n);
            assert(1 * n == n) by (nonlinear_arith);
            assert(cost_bound(left.shape@) == if n >= 1 {
                n - 1
            } else {
                0
            });
            lemma_wasserstein_dist_1d_bound(left.data@, right.data@);
            lemma_mass_sum_nonneg(left.data@);
            let s = mass_sum(left.data@);
            assert(left.data@.len() == n);
            assert(right.data@.len() == n);
            assert(s > 0);
            assert(n >= 1);
            assert((n - 1) * s == s * (n - 1)) by (nonlinear_arith);
            if n >= 2 {
                assert(s <= s * (n - 1)) by (nonlinear_arith)
                    requires
                        s >= 0,
                        n >= 2,
                ;
            } else {
                assert(left.data@.drop_last() =~= Seq::<u64>::empty());
                assert(mass_sum(Seq::<u64>::empty()) == 0);
                assert(s == left.data@.last());
                assert(0 * s == 0) by (nonlinear_arith);
            }
            assert(mass_sum(left.data@) <= u64::MAX);
            assert(wasserstein_dist_1d(left.data@, right.data@) <= u64::MAX);
        }
        let r1 = distance_1d(&left.data, &right.data);
        match r1 {
            Ok(d) => Ok(d),
            Err(e) => {
                proof {
                    assert(false);
                }
                Err(e)
            },
        }
    } else {
        let (lm, li) = collect_cells(&left.data);
        let (rm, ri) = collect_cells(&right.data);
        proof {
            lemma_nonzero_cells(left.data@);
            lemma_nonzero_cells(right.data@);
            lemma_mass_sum_nonneg(left.data@);
            lemma_cost_bound_nonneg(left.shape@);
        }
        let m = lm.len();
        let k = rm.len();
        proof {
            // a positive total mass needs at least one mass-carrying cell
            assert(m >= 1 && k >= 1);
            assert(((m as int) + 1) * ((k as int) + 1) == (m as int) * (k as int) + (m as int) + (
            k as int) + 1) by (nonlinear_arith);
            assert((m as int) * (k as int) >= 0) by (nonlinear_arith)
                requires
                    m as int >= 0,
                    k as int >= 0,
            ;
            // the grid has at least one cell, so the shape product is positive
            assert(shape_product(left.shape@) >= 1);
            // the cost bound fits, because the total mass is at least one
            assert(cost_bound(left.shape@) <= left.total() * cost_bound(left.shape@))
                by (nonlinear_arith)
                requires
                    left.total() >= 1,
                    cost_bound(left.shape@) >= 0,
            ;
        }
        let mk = m * k;
        let mut costs: Vec<u64> = Vec::new();
        let mut i: usize = 0;
        while i < m
            invariant
                m == nonzero_indices(left.data@).len(),
                k == nonzero_indices(right.data@).len(),
                m == lm@.len(),
                k == rm@.len(),
                li@.len() == m,
                ri@.len() == k,
                forall|t: int| 0 <= t < m ==> (#[trigger] li@[t]) as int == nonzero_indices(
                    left.data@,
                )[t],
                forall|t: int| 0 <= t < k ==> (#[trigger] ri@[t]) as int == nonzero_indices(
                    right.data@,
                )[t],
                forall|t: int| 0 <= t < m ==> (#[trigger] li@[t]) < left.data@.len(),
                forall|t: int| 0 <= t < k ==> (#[trigger] ri@[t]) < right.data@.len(),
                left.consistent(),
                right.consistent(),
                left.shape@ == right.shape@,
                shape_product(left.shape@) >= 1,
                cost_bound(left.shape@) <= u64::MAX,
                mk as int == (m as int) * (k as int),
                mk <= usize::MAX,
                i <= m,
                costs@.len() == (i as int) * (k as int),
                (i as int) * (k as int) <= mk as int,
                forall|t: int| 0 <= t < costs@.len() ==> (#[trigger] costs@[t]) as int
                    == nd_costs(left.shape@, left.data@, right.data@)[t] as int,
                forall|t: int| 0 <= t < costs@.len() ==> (#[trigger] costs@[t]) <= cost_bound(
                    left.shape@,
                ),
            decreases m - i,
        {
            proof {
                assert((i as int) * (k as int) + (k as int) <= (m as int) * (k as int))
                    by (nonlinear_arith)
                    requires
                        0 <= i as int,
                        (i as int) < (m as int),
                        0 <= k as int,
                ;
            }
            let mut j: usize = 0;
            while j < k
                invariant
                    m == nonzero_indices(left.data@).len(),
                    k == nonzero_indices(right.data@).len(),
                    li@.len() == m,
                    ri@.len() == k,
                    forall|t: int| 0 <= t < m ==> (#[trigger] li@[t]) as int == nonzero_indices(
                        left.data@,
                    )[t],
                    forall|t: int| 0 <= t < k ==> (#[trigger] ri@[t]) as int == nonzero_indices(
                        right.data@,
                    )[t],
                    forall|t: int| 0 <= t < m ==> (#[trigger] li@[t]) < left.data@.len(),
                    forall|t: int| 0 <= t < k ==> (#[trigger] ri@[t]) < right.data@.len(),
                    left.consistent(),
                    right.consistent(),
                    left.shape@ == right.shape@,
                    shape_product(left.shape@) >= 1,
                    cost_bound(left.shape@) <= u64::MAX,
                    mk as int == (m as int) * (k as int),
                    mk <= usize::MAX,
                    i < m,
                    j <= k,
                    (i as int) * (k as int) >= 0,
                    (i as int) * (k as int) + (k as int) <= mk as int,
                    costs@.len() == (i as int) * (k as int) + (j as int),
                    forall|t: int| 0 <= t < costs@.len() ==> (#[trigger] costs@[t]) as int
                        == nd_costs(left.shape@, left.data@, right.data@)[t] as int,
                    forall|t: int| 0 <= t < costs@.len() ==> (#[trigger] costs@[t]) <= cost_bound(
                        left.shape@,
                    ),
                decreases k - j,
            {
                let c = l1_cost(&left.shape, li[i], ri[j]);
                proof {
                    lemma_fundamental_div_mod_converse(
                        (i as int) * (k as int) + (j as int),
                        k as int,
                        i as int,
                        j as int,
                    );
                    lemma_l1_le_cost_bound(
                        left.shape@,
                        li@[i as int] as int,
                        ri@[j as int] as int,
                    );
                }
                costs.push(c);
                j = j + 1;
            }
            proof {
                assert(((i as int) + 1) * (k as int) == (i as int) * (k as int) + (k as int))
                    by (nonlinear_arith);
            }
            i = i + 1;
        }
        proof {
            assert(costs@ =~= nd_costs(left.shape@, left.data@, right.data@));
            lemma_seq_max_le(costs@, cost_bound(left.shape@));
            assert(left.total() * seq_max(costs@) <= left.total() * cost_bound(left.shape@))
                by (nonlinear_arith)
                requires
                    left.total() >= 0,
                    seq_max(costs@) <= cost_bound(left.shape@),
            ;
        }
        let sol = solve_transport(&lm, &rm, &costs);
        match sol {
            Ok(c) => {
                proof {
                    let lmass = nonzero_masses(left.data@);
                    let rmass = nonzero_masses(right.data@);
                    let ndc = nd_costs(left.shape@, left.data@, right.data@);
                    let f = choose|f: Seq<u64>|
                        is_feasible_plan(f, lm@, rm@) && plan_cost(f, costs@) == c;
                    assert(is_feasible_plan(f, lmass, rmass) && plan_cost(f, ndc) == c);
                    assert forall|g: Seq<u64>| #[trigger] is_feasible_plan(g, lmass, rmass)
                        implies plan_cost(g, ndc) >= c by {
                        assert(is_feasible_plan(g, lm@, rm@));
                    }
                    let (du, dv) = choose|u: Seq<i128>, v: Seq<i128>|
                        u.len() == lm@.len() && v.len() == rm@.len() && #[trigger] dual_feasible(
                            u,
                            v,
                            costs@,
                            lm@.len() as int,
                            rm@.len() as int,
                        ) && dot_prefix(u, lm@, lm@.len() as int) - dot_prefix(
                            v,
                            rm@,
                            rm@.len() as int,
                        ) == c;
                    assert(du.len() == lmass.len() && dv.len() == rmass.len() && dual_feasible(
                        du,
                        dv,
                        ndc,
                        lmass.len() as int,
                        rmass.len() as int,
                    ) && dot_prefix(du, lmass, lmass.len() as int) - dot_prefix(
                        dv,
                        rmass,
                        rmass.len() as int,
                    ) == c);
                }
                Ok(c)
            },
            Err(e) => Err(e),
        }
    }
}

/// The rows of a matrix, as mathematical sequences.
pub open spec fn rows_view(v: Seq<Vec<u64>>) -> Seq<Seq<u64>> {
    v.map_values(|r: Vec<u64>| r@)
}

/// Row-major flattening of a matrix.
pub open spec fn flat_rows(rows: Seq<Seq<u64>>) -> Seq<u64>
    decreases rows.len(),
{
    if rows.len() == 0 {
        Seq::empty()
    } else {
        flat_rows(rows.drop_last()) + rows.last()
    }
}

/// Every row has the length of the first: the matrix is rectangular.
pub open spec fn rect(rows: Seq<Seq<u64>>) -> bool {
    forall|i: int| 0 <= i < rows.len() ==> (#[trigger] rows[i]).len() == rows[0].len()
}

/// Number of columns of a matrix (zero when it has no rows).
pub open spec fn cols_of(rows: Seq<Seq<u64>>) -> int {
    if rows.len() == 0 {
        0
    } else {
        rows[0].len() as int
    }
}

/// The two-axis grid shape of a matrix.
pub open spec fn shape2d(v: Seq<Vec<u64>>) -> Seq<usize> {
    seq![v.len() as usize, cols_of(rows_view(v)) as usize]
}

/// The matrix's masses, flattened row-major.
pub open spec fn flat2d(v: Seq<Vec<u64>>) -> Seq<u64> {
    flat_rows(rows_view(v))
}

/// The matrix pairs on which a two-dimensional distance is owed.
pub open spec fn solvable_2d(l: Seq<Vec<u64>>, r: Seq<Vec<u64>>) -> bool {
    &&& rect(rows_view(l))
    &&& rect(rows_view(r))
    &&& shape2d(l) == shape2d(r)
    &&& mass_sum(flat2d(l)) == mass_sum(flat2d(r))
    &&& mass_sum(flat2d(l)) > 0
}

/// Turns a rectangular matrix into its grid; reports a ragged matrix.
fn build_grid2(v: &Vec<Vec<u64>>) -> (r: Option<Grid>)
    requires
        (v@.len() as int) * cols_of(rows_view(v@)) <= usize::MAX,
    ensures
        match r {
            Some(g) => rect(rows_view(v@)) && g.shape@ == shape2d(v@) && g.data@ == flat2d(v@)
                && g.consistent(),
            None => !rect(rows_view(v@)),
        },
{
    let rows = v.len();
    let cols = if rows == 0 {
        0
    } else {
        v[0].len()
    };
    let mut i: usize = 0;
    while i < rows
        invariant
            rows == v@.len(),
            cols as int == cols_of(rows_view(v@)),
            i <= rows,
            forall|t: int| 0 <= t < i ==> (#[trigger] rows_view(v@)[t]).len() == cols,
        decreases rows - i,
    {
        if v[i].len() != cols {
            proof {
                assert(rows_view(v@)[i as int] == v@[i as int]@);
                assert(rows_view(v@)[i as int].len() != rows_view(v@)[0].len());
            }
            return None;
        }
        proof {
            assert(rows_view(v@)[i as int] == v@[i as int]@);
        }
        i = i + 1;
    }
    let mut data: Vec<u64> = Vec::new();
    let mut i2: usize = 0;
    while i2 < rows
        invariant
            rows == v@.len(),
            cols as int == cols_of(rows_view(v@)),
            rect(rows_view(v@)),
            forall|t: int| 0 <= t < rows ==> (#[trigger] rows_view(v@)[t]).len() == cols,
            (rows as int) * (cols as int) <= usize::MAX,
            i2 <= rows,
            data@ == flat_rows(rows_view(v@).take(i2 as int)),
            data@.len() == (i2 as int) * (cols as int),
        decreases rows - i2,
    {
        proof {
            assert((i2 as int) * (cols as int) + (cols as int) <= (rows as int) * (cols as int))
                by (nonlinear_arith)
                requires
                    0 <= i2 as int,
                    (i2 as int) < (rows as int),
                    0 <= cols as int,
            ;
            assert((i2 as int) * (cols as int) >= 0) by (nonlinear_arith)
                requires
                    0 <= i2 as int,
                    0 <= cols as int,
            ;
            assert(rows_view(v@)[i2 as int] == v@[i2 as int]@);
            assert(v@[i2 as int]@.take(0) =~= Seq::<u64>::empty());
        }
        let mut j: usize = 0;
        while j < cols
            invariant
                rows == v@.len(),
                cols as int == cols_of(rows_view(v@)),
                forall|t: int| 0 <= t < rows ==> (#[trigger] rows_view(v@)[t]).len() == cols,
                i2 < rows,
                j <= cols,
                v@[i2 as int]@.len() == cols,
                (i2 as int) * (cols as int) >= 0,
                (i2 as int) * (cols as int) + (cols as int) <= usize::MAX,
                data@ == flat_rows(rows_view(v@).take(i2 as int)) + v@[i2 as int]@.take(j as int),
                data@.len() == (i2 as int) * (cols as int) + (j as int),
            decreases cols - j,
        {
            proof {
                assert(v@[i2 as int]@.take(j as int + 1) =~= v@[i2 as int]@.take(j as int).push(
                    v@[i2 as int]@[j as int],
                ));
            }
            let x = v[i2][j];
            data.push(x);
            j = j + 1;
        }
        proof {
            assert(rows_view(v@).take(i2 as int + 1).drop_last() =~= rows_view(v@).take(
                i2 as int,
            ));
            assert(rows_view(v@).take(i2 as int + 1).last() == v@[i2 as int]@);
            assert(v@[i2 as int]@.take(cols as int) =~= v@[i2 as int]@);
            assert(((i2 as int) + 1) * (cols as int) == (i2 as int) * (cols as int) + (
            cols as int)) by (nonlinear_arith);
        }
        i2 = i2 + 1;
    }
    let mut shape: Vec<usize> = Vec::new();
    shape.push(rows);
    shape.push(cols);
    proof {
        assert(shape@ =~= shape2d(v@));
        assert(rows_view(v@).take(rows as int) =~= rows_view(v@));
        assert(shape2d(v@).drop_last() =~= seq![rows]);
        assert(seq![rows].drop_last() =~= Seq::<usize>::empty());
        assert(shape_product(Seq::<usize>::empty()) == 1);
        assert(shape_product(seq![rows]) == 1 * (rows as int));
        assert(shape_product(shape2d(v@)) == (1 * (rows as int)) * (cols as int));
        assert((1 * (rows as int)) * (cols as int) == (rows as int) * (cols as int))
            by (nonlinear_arith);
    }
    Some(Grid { shape, data })
}

/// Wasserstein-1 distance between two matrices of masses, each row-major
/// over a shared two-axis grid, solved by the transportation pipeline.
pub fn wasserstein_2d(left: Vec<Vec<u64>>, right: Vec<Vec<u64>>) -> (r: Result<u64, Error>)
    requires
        (left@.len() as int) * cols_of(rows_view(left@)) <= usize::MAX,
        (right@.len() as int) * cols_of(rows_view(right@)) <= usize::MAX,
        solvable_2d(left@, right@) ==> mass_sum(flat2d(left@)) * cost_bound(shape2d(left@)) + 1
            <= u64::MAX,
        solvable_2d(left@, right@) ==> (nonzero_masses(flat2d(left@)).len() + 1) * (
        nonzero_masses(flat2d(right@)).len() + 1) <= usize::MAX,
    ensures
        match r {
            Ok(c) => solvable_2d(left@, right@) && (exists|f: Seq<u64>|
                is_feasible_plan(f, nonzero_masses(flat2d(left@)), nonzero_masses(flat2d(right@)))
                    && plan_cost(f, nd_costs(shape2d(left@), flat2d(left@), flat2d(right@)))
                == c) && (forall|g: Seq<u64>|
                #[trigger] is_feasible_plan(
                    g,
                    nonzero_masses(flat2d(left@)),
                    nonzero_masses(flat2d(right@)),
                ) ==> plan_cost(g, nd_costs(shape2d(left@), flat2d(left@), flat2d(right@)))
                >= c) && (exists|u: Seq<i128>, v: Seq<i128>|
                u.len() == nonzero_masses(flat2d(left@)).len() && v.len() == nonzero_masses(
                    flat2d(right@),
                ).len() && #[trigger] dual_feasible(
                    u,
                    v,
                    nd_costs(shape2d(left@), flat2d(left@), flat2d(right@)),
                    nonzero_masses(flat2d(left@)).len() as int,
                    nonzero_masses(flat2d(right@)).len() as int,
                ) && dot_prefix(
                    u,
                    nonzero_masses(flat2d(left@)),
                    nonzero_masses(flat2d(left@)).len() as int,
                ) - dot_prefix(
                    v,
                    nonzero_masses(flat2d(right@)),
                    nonzero_masses(flat2d(right@)).len() as int,
                ) == c),
            Err(Error::InvalidInput) => !rect(rows_view(left@)) || !rect(rows_view(right@)),
            Err(Error::ShapeMismatch) => rect(rows_view(left@)) && rect(rows_view(right@))
                && shape2d(left@) != shape2d(right@),
            Err(Error::ImbalancedMass) => rect(rows_view(left@)) && rect(rows_view(right@))
                && shape2d(left@) == shape2d(right@) && mass_sum(flat2d(left@)) != mass_sum(
                flat2d(right@),
            ),
            Err(Error::EmptyInput) => rect(rows_view(left@)) && rect(rows_view(right@)) && shape2d(
                left@,
            ) == shape2d(right@) && mass_sum(flat2d(left@)) == mass_sum(flat2d(right@))
                && mass_sum(flat2d(left@)) == 0,
            Err(Error::SolverDidNotConverge) => solvable_2d(left@, right@),
        },
{
    let gl = match build_grid2(&left) {
        Some(g) => g,
        None => {
            return Err(Error::InvalidInput);
        },
    };
    let gr = match build_grid2(&right) {
        Some(g) => g,
        None => {
            return Err(Error::InvalidInput);
        },
    };
    proof {
        assert(gl.shape@.len() == 2);
    }
    wasserstein_nd(&gl, &gr)
}

/// A cell is at L1 distance zero from itself.
proof fn lemma_l1_self_zero(shape: Seq<usize>, a: int)
    ensures
        l1_cell_dist(shape, a, a) == 0,
    decreases shape.len(),
{
    if shape.len() > 0 {
        lemma_l1_self_zero(shape.drop_last(), a / (shape.last() as int));
    }
}

/// The plan that keeps every unit of mass in its own cell.
spec fn diagonal_plan(s: Seq<u64>) -> Seq<u64> {
    let m = s.len() as int;
    Seq::new(
        (s.len() * s.len()) as nat,
        |t: int|
            if t / m == t % m {
                s[t / m]
            } else {
                0u64
            },
    )
}

proof fn lemma_diagonal_row(s: Seq<u64>, i: int, r: int)
    requires
        0 <= i < s.len(),
        0 <= r <= s.len(),
    ensures
        mass_sum(diagonal_plan(s).subrange(i * s.len(), i * s.len() + r)) == if r > i {
            s[i] as int
        } else {
            0
        },
    decreases r,
{
    let m = s.len() as int;
    let f0 = diagonal_plan(s);
    assert(i * m >= 0 && i * m + m <= m * m) by (nonlinear_arith)
        requires
            0 <= i,
            i < m,
    ;
    let b = i * m;
    if r == 0 {
        assert(f0.subrange(b, b) =~= Seq::<u64>::empty());
    } else {
        lemma_diagonal_row(s, i, r - 1);
        assert(f0.subrange(b, b + r).drop_last() =~= f0.subrange(b, b + r - 1));
        lemma_fundamental_div_mod_converse(b + (r - 1), m, i, r - 1);
    }
}

proof fn lemma_diagonal_col(s: Seq<u64>, j: int, r: int)
    requires
        0 <= j < s.len(),
        0 <= r <= s.len(),
    ensures
        col_sum(diagonal_plan(s), s.len() as int, j, r) == if r > j {
            s[j] as int
        } else {
            0
        },
    decreases r,
{
    let m = s.len() as int;
    if r > 0 {
        lemma_diagonal_col(s, j, r - 1);
        assert((r - 1) * m >= 0 && (r - 1) * m + m <= m * m) by (nonlinear_arith)
            requires
                1 <= r <= m,
        ;
        lemma_fundamental_div_mod_converse((r - 1) * m + j, m, r - 1, j);
    }
}

proof fn lemma_diagonal_cost_zero(shape: Seq<usize>, data: Seq<u64>, t: int)
    requires
        0 <= t <= nonzero_masses(data).len() * nonzero_masses(data).len(),
    ensures
        plan_cost(
            diagonal_plan(nonzero_masses(data)).take(t),
            nd_costs(shape, data, data).take(t),
        ) == 0,
    decreases t,
{
    let s = nonzero_masses(data);
    let m = s.len() as int;
    let f0 = diagonal_plan(s);
    let ndc = nd_costs(shape, data, data);
    lemma_nonzero_cells(data);
    if t > 0 {
        lemma_diagonal_cost_zero(shape, data, t - 1);
        assert(f0.take(t).drop_last() =~= f0.take(t - 1));
        assert(ndc.take(t).drop_last() =~= ndc.take(t - 1));
        let fv = f0[t - 1] as int;
        let cv = ndc[t - 1] as int;
        if (t - 1) / m == (t - 1) % m {
            lemma_l1_self_zero(shape, nonzero_indices(data)[(t - 1) / m]);
            assert(cv == 0);
            assert(fv * 0 == 0) by (nonlinear_arith);
        } else {
            assert(fv == 0);
            assert(0 * cv == 0) by (nonlinear_arith);
        }
    }
}

/// Law: identity. Between a distribution and itself the plan that keeps
/// every unit in place is feasible and free, so the certified minimum
/// transport cost is zero.
pub proof fn lemma_identity_plan(shape: Seq<usize>, data: Seq<u64>)
    ensures
        exists|f: Seq<u64>|
            is_feasible_plan(f, nonzero_masses(data), nonzero_masses(data)) && plan_cost(
                f,
                nd_costs(shape, data, data),
            ) == 0,
{
    let s = nonzero_masses(data);
    let m = s.len() as int;
    let f0 = diagonal_plan(s);
    let ndc = nd_costs(shape, data, data);
    lemma_nonzero_cells(data);
    assert(f0.len() == m * m);
    assert forall|i: int| 0 <= i < m implies row_sum(f0, m, i) == s[i] by {
        lemma_diagonal_row(s, i, m);
    }
    assert forall|j: int| 0 <= j < m implies col_sum(f0, m, j, m) == s[j] by {
        lemma_diagonal_col(s, j, m);
    }
    assert(is_feasible_plan(f0, s, s));
    lemma_diagonal_cost_zero(shape, data, m * m);
    assert((m * m) as nat == f0.len());
    assert(f0.take(m * m) =~= f0);
    assert(ndc.take(m * m) =~= ndc);
    assert(plan_cost(f0, ndc) == 0);
}

/// Law: identity, at the result level. A cost that is both achieved by a
/// plan between a distribution and itself and a lower bound on every such
/// plan is zero.
pub proof fn lemma_distance_identity_nd(shape: Seq<usize>, data: Seq<u64>, c: u64)
    requires
        exists|f: Seq<u64>|
            is_feasible_plan(f, nonzero_masses(data), nonzero_masses(data)) && plan_cost(
                f,
                nd_costs(shape, data, data),
            ) == c,
        forall|g: Seq<u64>|
            #[trigger] is_feasible_plan(g, nonzero_masses(data), nonzero_masses(data))
                ==> plan_cost(g, nd_costs(shape, data, data)) >= c,
    ensures
        c == 0,
{
    lemma_identity_plan(shape, data);
    let f0 = choose|f: Seq<u64>|
        is_feasible_plan(f, nonzero_masses(data), nonzero_masses(data)) && plan_cost(
            f,
            nd_costs(shape, data, data),
        ) == 0;
    assert(plan_cost(f0, nd_costs(shape, data, data)) >= c);
}

/// The two cost tables between a pair of distributions are transposes of
/// each other, because the L1 ground cost is symmetric.
proof fn lemma_nd_costs_transpose(shape: Seq<usize>, a: Seq<u64>, b: Seq<u64>)
    requires
        nonzero_masses(a).len() >= 1,
        nonzero_masses(b).len() >= 1,
    ensures
        forall|i2: int, j2: int|
            0 <= i2 < nonzero_masses(a).len() && 0 <= j2 < nonzero_masses(b).len() ==> (
            #[trigger] at2(nd_costs(shape, a, b), nonzero_masses(b).len() as int, i2, j2)) == at2(
                nd_costs(shape, b, a),
                nonzero_masses(a).len() as int,
                j2,
                i2,
            ),
{
    lemma_nonzero_cells(a);
    lemma_nonzero_cells(b);
    let m = nonzero_masses(a).len() as int;
    let k = nonzero_masses(b).len() as int;
    assert forall|i2: int, j2: int| 0 <= i2 < m && 0 <= j2 < k implies (#[trigger] at2(
        nd_costs(shape, a, b),
        k,
        i2,
        j2,
    )) == at2(nd_costs(shape, b, a), m, j2, i2) by {
        assert(i2 * k >= 0 && i2 * k + j2 < m * k) by (nonlinear_arith)
            requires
                0 <= i2,
                i2 < m,
                0 <= j2,
                j2 < k,
        ;
        assert(j2 * m >= 0 && j2 * m + i2 < k * m) by (nonlinear_arith)
            requires
                0 <= i2,
                i2 < m,
                0 <= j2,
                j2 < k,
        ;
        lemma_fundamental_div_mod_converse(i2 * k + j2, k, i2, j2);
        lemma_fundamental_div_mod_converse(j2 * m + i2, m, j2, i2);
        lemma_l1_symmetric(shape, nonzero_indices(a)[i2], nonzero_indices(b)[j2]);
    }
}

/// Law: symmetry. The cost tables of the two directions are transposes of
/// each other, and transposing a plan keeps it feasible and keeps its
/// cost, so a certified minimum in one direction is a certified minimum in
/// the other: the distance does not depend on the order of its arguments.
pub proof fn lemma_distance_symmetric_nd(
    shape: Seq<usize>,
    a: Seq<u64>,
    b: Seq<u64>,
    c1: u64,
    c2: u64,
)
    requires
        nonzero_masses(a).len() >= 1,
        nonzero_masses(b).len() >= 1,
        exists|f: Seq<u64>|
            is_feasible_plan(f, nonzero_masses(a), nonzero_masses(b)) && plan_cost(
                f,
                nd_costs(shape, a, b),
            ) == c1,
        forall|g: Seq<u64>|
            #[trigger] is_feasible_plan(g, nonzero_masses(a), nonzero_masses(b)) ==> plan_cost(
                g,
                nd_costs(shape, a, b),
            ) >= c1,
        exists|f: Seq<u64>|
            is_feasible_plan(f, nonzero_masses(b), nonzero_masses(a)) && plan_cost(
                f,
                nd_costs(shape, b, a),
            ) == c2,
        forall|g: Seq<u64>|
            #[trigger] is_feasible_plan(g, nonzero_masses(b), nonzero_masses(a)) ==> plan_cost(
                g,
                nd_costs(shape, b, a),
            ) >= c2,
    ensures
        c1 == c2,
{
    let s = nonzero_masses(a);
    let d = nonzero_masses(b);
    let m = s.len() as int;
    let k = d.len() as int;
    let cs = nd_costs(shape, a, b);
    let ct = nd_costs(shape, b, a);
    lemma_nonzero_cells(a);
    lemma_nonzero_cells(b);
    lemma_nd_costs_transpose(shape, a, b);
    lemma_nd_costs_transpose(shape, b, a);
    let f1 = choose|f: Seq<u64>| is_feasible_plan(f, s, d) && plan_cost(f, cs) == c1;
    lemma_transpose_feasible(s, d, f1, cs, ct);
    assert(plan_cost(transpose_plan(f1, m, k), ct) >= c2);
    let f2 = choose|f: Seq<u64>| is_feasible_plan(f, d, s) && plan_cost(f, ct) == c2;
    lemma_transpose_feasible(d, s, f2, ct, cs);
    assert(plan_cost(transpose_plan(f2, k, m), cs) >= c1);
}

/// Every flow of a feasible plan fits the scaling that its supplies fit.
proof fn lemma_plan_entries_bounded(f: Seq<u64>, s: Seq<u64>, d: Seq<u64>, c: u64)
    requires
        c >= 1,
        d.len() >= 1,
        is_feasible_plan(f, s, d),
        forall|i: int| 0 <= i < s.len() ==> s[i] * c <= u64::MAX,
    ensures
        forall|t: int| 0 <= t < f.len() ==> #[trigger] f[t] * c <= u64::MAX,
{
    let m = s.len() as int;
    let k = d.len() as int;
    assert forall|t: int| 0 <= t < f.len() implies #[trigger] f[t] * c <= u64::MAX by {
        vstd::arithmetic::div_mod::lemma_fundamental_div_mod(t, k);
        vstd::arithmetic::div_mod::lemma_mod_bound(t, k);
        let i = t / k;
        let j = t % k;
        assert(k * i == i * k) by (nonlinear_arith);
        assert(t < k * m) by (nonlinear_arith)
            requires
                t < m * k,
        ;
        vstd::arithmetic::div_mod::lemma_multiply_divide_lt(t, k, m);
        vstd::arithmetic::div_mod::lemma_div_pos_is_pos(t, k);
        assert(i * k >= 0 && i * k + k <= m * k) by (nonlinear_arith)
            requires
                0 <= i,
                i < m,
                0 <= k,
        ;
        let row = f.subrange(i * k, i * k + k);
        assert(row[j] == f[t]);
        crate::onedim::lemma_mass_sum_ge_elem(row, j);
        assert(row_sum(f, k, i) == s[i]);
        assert(f[t] * c <= s[i] * c) by (nonlinear_arith)
            requires
                f[t] <= s[i] as int,
                c >= 1,
        ;
    }
}

/// Law: scale invariance. Multiplying every mass in both inputs by the
/// same positive constant `c` leaves the cells and the cost table
/// unchanged, turns plans of one instance into plans of the other with
/// costs scaled by `c`, and scales the dual certificate's objective by
/// `c`; so the certified minimum of the scaled instance is `c` times the
/// certified minimum of the unscaled instance (stated for scalings within the
/// machine's integer range).
pub proof fn lemma_distance_scale_nd(
    shape: Seq<usize>,
    a: Seq<u64>,
    b: Seq<u64>,
    c: u64,
    c1: u64,
    c2: u64,
)
    requires
        c >= 1,
        forall|i: int| 0 <= i < a.len() ==> a[i] * c <= u64::MAX,
        forall|i: int| 0 <= i < b.len() ==> b[i] * c <= u64::MAX,
        nonzero_masses(a).len() >= 1,
        nonzero_masses(b).len() >= 1,
        exists|f: Seq<u64>|
            is_feasible_plan(f, nonzero_masses(a), nonzero_masses(b)) && plan_cost(
                f,
                nd_costs(shape, a, b),
            ) == c1,
        exists|u: Seq<i128>, v: Seq<i128>|
            u.len() == nonzero_masses(a).len() && v.len() == nonzero_masses(b).len()
                && #[trigger] dual_feasible(
                u,
                v,
                nd_costs(shape, a, b),
                nonzero_masses(a).len() as int,
                nonzero_masses(b).len() as int,
            ) && dot_prefix(u, nonzero_masses(a), nonzero_masses(a).len() as int) - dot_prefix(
                v,
                nonzero_masses(b),
                nonzero_masses(b).len() as int,
            ) == c1,
        exists|f: Seq<u64>|
            is_feasible_plan(
                f,
                nonzero_masses(crate::onedim::scaled(a, c)),
                nonzero_masses(crate::onedim::scaled(b, c)),
            ) && plan_cost(
                f,
                nd_costs(shape, crate::onedim::scaled(a, c), crate::onedim::scaled(b, c)),
            ) == c2,
        forall|g: Seq<u64>|
            #[trigger] is_feasible_plan(
                g,
                nonzero_masses(crate::onedim::scaled(a, c)),
                nonzero_masses(crate::onedim::scaled(b, c)),
            ) ==> plan_cost(
                g,
                nd_costs(shape, crate::onedim::scaled(a, c), crate::onedim::scaled(b, c)),
            ) >= c2,
    ensures
        c2 == c * c1,
{
    let s = nonzero_masses(a);
    let d = nonzero_masses(b);
    let m = s.len() as int;
    let k = d.len() as int;
    let cs = nd_costs(shape, a, b);
    let sa = crate::onedim::scaled(a, c);
    let sb = crate::onedim::scaled(b, c);
    let cs2 = nd_costs(shape, sa, sb);
    lemma_nonzero_cells(a);
    lemma_nonzero_cells(b);
    lemma_nonzero_scaled(a, c);
    lemma_nonzero_scaled(b, c);
    assert(nonzero_masses(sa) == crate::onedim::scaled(s, c));
    assert(nonzero_masses(sb) == crate::onedim::scaled(d, c));
    assert forall|t: int| 0 <= t < cs2.len() implies cs2[t] == cs[t] by {
        assert(nonzero_indices(sa) == nonzero_indices(a));
        assert(nonzero_indices(sb) == nonzero_indices(b));
    }
    assert(cs2 =~= cs);
    assert forall|i: int| 0 <= i < m implies #[trigger] s[i] * c <= u64::MAX by {
        assert(s[i] == a[nonzero_indices(a)[i]]);
    }
    assert forall|j: int| 0 <= j < k implies #[trigger] d[j] * c <= u64::MAX by {
        assert(d[j] == b[nonzero_indices(b)[j]]);
    }
    // the scaled image of an optimal plan bounds the scaled minimum
    let f1 = choose|f: Seq<u64>| is_feasible_plan(f, s, d) && plan_cost(f, cs) == c1;
    lemma_plan_entries_bounded(f1, s, d, c);
    lemma_scaled_plan(f1, s, d, cs, c);
    assert(is_feasible_plan(
        crate::onedim::scaled(f1, c),
        nonzero_masses(sa),
        nonzero_masses(sb),
    ));
    assert(plan_cost(crate::onedim::scaled(f1, c), cs2) == c * c1);
    assert(c2 <= c * c1);
    // the unscaled instance's dual certificate also certifies the scaled one
    let (du, dv) = choose|u: Seq<i128>, v: Seq<i128>|
        u.len() == s.len() && v.len() == d.len() && #[trigger] dual_feasible(u, v, cs, m, k)
            && dot_prefix(u, s, m) - dot_prefix(v, d, k) == c1;
    let f2 = choose|f: Seq<u64>|
        is_feasible_plan(f, nonzero_masses(sa), nonzero_masses(sb)) && plan_cost(f, cs2) == c2;
    lemma_weak_duality(
        f2,
        du,
        dv,
        crate::onedim::scaled(s, c),
        crate::onedim::scaled(d, c),
        cs,
    );
    crate::simplex::lemma_dot_prefix_scaled(du, s, c, m);
    crate::simplex::lemma_dot_prefix_scaled(dv, d, c, k);
    assert(c * (dot_prefix(du, s, m) - dot_prefix(dv, d, k)) == c * dot_prefix(du, s, m) - c
        * dot_prefix(dv, d, k)) by (nonlinear_arith);
    assert(c2 >= c * c1);
}

/// Sum of the first `j` listed masses, each weighted by the negated
/// staircase of the pair `(a, b)` at its cell.
spec fn priced_cells(a: Seq<u64>, b: Seq<u64>, idx: Seq<int>, ms: Seq<u64>, j: int) -> int
    decreases j,
{
    if j <= 0 {
        0
    } else {
        priced_cells(a, b, idx, ms, j - 1) + (0 - line_height(a, b, idx[j - 1])) * ms[j - 1]
    }
}

proof fn lemma_priced_cells_push(
    a: Seq<u64>,
    b: Seq<u64>,
    idx: Seq<int>,
    ms: Seq<u64>,
    x: int,
    y: u64,
    j: int,
)
    requires
        0 <= j <= idx.len(),
        j <= ms.len(),
    ensures
        priced_cells(a, b, idx.push(x), ms.push(y), j) == priced_cells(a, b, idx, ms, j),
    decreases j,
{
    if j > 0 {
        lemma_priced_cells_push(a, b, idx, ms, x, y, j - 1);
    }
}

/// Pricing only the mass-carrying cells prices the whole distribution:
/// empty cells contribute nothing.
proof fn lemma_priced_cells_bridge(a: Seq<u64>, b: Seq<u64>, data: Seq<u64>)
    ensures
        priced_cells(
            a,
            b,
            nonzero_indices(data),
            nonzero_masses(data),
            nonzero_masses(data).len() as int,
        ) == priced_mass(a, b, data, data.len() as int),
    decreases data.len(),
{
    if data.len() > 0 {
        let dd = data.drop_last();
        let n = data.len() as int;
        lemma_priced_cells_bridge(a, b, dd);
        lemma_priced_mass_congruence(a, b, data, n - 1);
        lemma_nonzero_cells(dd);
        if data.last() > 0 {
            lemma_priced_cells_push(
                a,
                b,
                nonzero_indices(dd),
                nonzero_masses(dd),
                n - 1,
                data.last(),
                nonzero_masses(dd).len() as int,
            );
        } else {
            assert((0 - line_height(a, b, n - 1)) * (data[n - 1] as int) == 0) by (nonlinear_arith)
                requires
                    data[n - 1] as int == 0,
            ;
        }
    }
}

proof fn lemma_dot_prefix_priced(
    a: Seq<u64>,
    b: Seq<u64>,
    idx: Seq<int>,
    ms: Seq<u64>,
    u: Seq<i128>,
    j: int,
)
    requires
        0 <= j <= ms.len(),
        ms.len() <= idx.len(),
        u.len() == ms.len(),
        forall|t: int| 0 <= t < ms.len() ==> #[trigger] u[t] as int == 0 - line_height(
            a,
            b,
            idx[t],
        ),
    ensures
        dot_prefix(u, ms, j) == priced_cells(a, b, idx, ms, j),
    decreases j,
{
    if j > 0 {
        lemma_dot_prefix_priced(a, b, idx, ms, u, j - 1);
    }
}

/// Law (one direction of the path equivalence): on a grid whose ground
/// cost between two cells is the plain distance of their flat indices — a
/// single-axis grid, or a single-row grid — no feasible transport plan
/// between two balanced distributions costs less than the closed-form
/// one-dimensional distance. The negated staircase of the pair is a
/// 1-Lipschitz dual certificate whose objective equals the closed form.
pub proof fn lemma_line_plan_lower_bound(shape: Seq<usize>, a: Seq<u64>, b: Seq<u64>, g: Seq<u64>)
    requires
        a.len() == b.len(),
        a.len() <= usize::MAX,
        mass_sum(a) == mass_sum(b),
        forall|p: int, q: int|
            0 <= p < a.len() && 0 <= q < a.len() ==> #[trigger] l1_cell_dist(shape, p, q)
                == abs_diff(p, q),
        is_feasible_plan(g, nonzero_masses(a), nonzero_masses(b)),
    ensures
        plan_cost(g, nd_costs(shape, a, b)) >= wasserstein_dist_1d(a, b),
{
    let s = nonzero_masses(a);
    let d = nonzero_masses(b);
    let m = s.len() as int;
    let k = d.len() as int;
    let pa = nonzero_indices(a);
    let qb = nonzero_indices(b);
    let cs = nd_costs(shape, a, b);
    let n = a.len() as int;
    lemma_nonzero_cells(a);
    lemma_nonzero_cells(b);
    if m == 0 || k == 0 {
        // one side is all-empty; by balance both totals are zero and so is
        // every cumulative difference
        assert(mass_sum(a) == 0 && mass_sum(b) == 0);
        crate::onedim::lemma_cumulative_diff_sum_bound(a, b, n, 0);
        crate::onedim::lemma_cumulative_diff_sum_nonneg(a, b, n);
        assert(n * 0 == 0) by (nonlinear_arith);
        crate::simplex::lemma_plan_cost_nonneg(g, cs);
    } else {
        let u = Seq::new(m as nat, |i: int| (0 - line_height(a, b, pa[i])) as i128);
        let v = Seq::new(k as nat, |j: int| (0 - line_height(a, b, qb[j])) as i128);
        assert forall|t: int| 0 <= t < m implies #[trigger] u[t] as int == 0 - line_height(
            a,
            b,
            pa[t],
        ) by {
            assert(0 <= pa[t] < a.len());
            assert(line_height(a, b, 0) == 0);
            lemma_line_height_lipschitz(a, b, 0, pa[t]);
            assert(-(i128::MAX as int) <= 0 - line_height(a, b, pa[t]) <= i128::MAX as int);
        }
        assert forall|t: int| 0 <= t < k implies #[trigger] v[t] as int == 0 - line_height(
            a,
            b,
            qb[t],
        ) by {
            assert(0 <= qb[t] < b.len());
            assert(line_height(a, b, 0) == 0);
            lemma_line_height_lipschitz(a, b, 0, qb[t]);
            assert(-(i128::MAX as int) <= 0 - line_height(a, b, qb[t]) <= i128::MAX as int);
        }
        assert forall|i2: int, j2: int| 0 <= i2 < m && 0 <= j2 < k implies (#[trigger] at2(
            cs,
            k,
            i2,
            j2,
        )) as int >= u[i2] - v[j2] by {
            assert(i2 * k >= 0 && i2 * k + j2 < m * k) by (nonlinear_arith)
                requires
                    0 <= i2,
                    i2 < m,
                    0 <= j2,
                    j2 < k,
            ;
            lemma_fundamental_div_mod_converse(i2 * k + j2, k, i2, j2);
            let p = pa[i2];
            let q = qb[j2];
            if p <= q {
                lemma_line_height_lipschitz(a, b, p, q);
            } else {
                lemma_line_height_lipschitz(a, b, q, p);
            }
            assert(l1_cell_dist(shape, p, q) == abs_diff(p, q));
            assert(0 <= p < a.len() && 0 <= q < b.len());
            assert(0 <= abs_diff(p, q) <= u64::MAX);
            assert(cs[i2 * k + j2] == abs_diff(p, q) as u64);
        }
        lemma_weak_duality(g, u, v, s, d, cs);
        lemma_dot_prefix_priced(a, b, pa, s, u, m);
        lemma_dot_prefix_priced(a, b, qb, d, v, k);
        lemma_priced_cells_bridge(a, b, a);
        lemma_priced_cells_bridge(a, b, b);
        lemma_line_height_objective(a, b);
    }
}

/// Law, at the result level: a cost achieved by any feasible plan on a
/// line-priced grid is at least the closed-form distance; in particular
/// the certified minimum the solver returns on a single-row grid never
/// undercuts the one-dimensional fast path.
pub proof fn lemma_line_distance_lower_bound(shape: Seq<usize>, a: Seq<u64>, b: Seq<u64>, c: u64)
    requires
        a.len() == b.len(),
        a.len() <= usize::MAX,
        mass_sum(a) == mass_sum(b),
        forall|p: int, q: int|
            0 <= p < a.len() && 0 <= q < a.len() ==> #[trigger] l1_cell_dist(shape, p, q)
                == abs_diff(p, q),
        exists|f: Seq<u64>|
            is_feasible_plan(f, nonzero_masses(a), nonzero_masses(b)) && plan_cost(
                f,
                nd_costs(shape, a, b),
            ) == c,
    ensures
        c >= wasserstein_dist_1d(a, b),
{
    let f = choose|f: Seq<u64>|
        is_feasible_plan(f, nonzero_masses(a), nonzero_masses(b)) && plan_cost(
            f,
            nd_costs(shape, a, b),
        ) == c;
    lemma_line_plan_lower_bound(shape, a, b, f);
}

/// On a single-axis grid the ground cost is the plain index distance.
pub proof fn lemma_one_axis_costs(n: usize)
    ensures
        forall|p: int, q: int|
            0 <= p < n && 0 <= q < n ==> l1_cell_dist(seq![n], p, q) == #[trigger] abs_diff(p, q),
{
    assert forall|p: int, q: int| 0 <= p < n && 0 <= q < n implies l1_cell_dist(seq![n], p, q)
        == #[trigger] abs_diff(p, q) by {
        let shape = seq![n];
        assert(shape.drop_last() =~= Seq::<usize>::empty());
        assert(shape.last() == n);
        lemma_fundamental_div_mod_converse(p, n as int, 0, p);
        lemma_fundamental_div_mod_converse(q, n as int, 0, q);
        assert(l1_cell_dist(Seq::<usize>::empty(), 0, 0) == 0);
        assert(l1_cell_dist(shape, p, q) == l1_cell_dist(shape.drop_last(), p / (n as int), q / (
        n as int)) + abs_diff(p % (n as int), q % (n as int)));
    }
}

/// On a single-row grid (one degenerate leading axis) the ground cost is
/// the plain index distance as well.
pub proof fn lemma_one_row_costs(n: usize)
    ensures
        forall|p: int, q: int|
            0 <= p < n && 0 <= q < n ==> l1_cell_dist(seq![1usize, n], p, q) == #[trigger] abs_diff(
                p,
                q,
            ),
{
    assert forall|p: int, q: int| 0 <= p < n && 0 <= q < n implies l1_cell_dist(
        seq![1usize, n],
        p,
        q,
    ) == #[trigger] abs_diff(p, q) by {
        let shape = seq![1usize, n];
        let row = seq![1usize];
        assert(shape.drop_last() =~= row);
        assert(row.drop_last() =~= Seq::<usize>::empty());
        assert(shape.last() == n);
        assert(row.last() == 1usize);
        lemma_fundamental_div_mod_converse(p, n as int, 0, p);
        lemma_fundamental_div_mod_converse(q, n as int, 0, q);
        lemma_fundamental_div_mod_converse(0, 1, 0, 0);
        assert(l1_cell_dist(Seq::<usize>::empty(), 0, 0) == 0);
        assert(l1_cell_dist(row, 0, 0) == l1_cell_dist(row.drop_last(), 0int / 1, 0int / 1)
            + abs_diff(0int % 1, 0int % 1));
        assert(l1_cell_dist(shape, p, q) == l1_cell_dist(row, p / (n as int), q / (n as int))
            + abs_diff(p % (n as int), q % (n as int)));
    }
}

/// Earth mover's distance capability marker. The carried value is the
/// fixed-point scale with which a floating-point boundary quantizes masses
/// before calling the exact integer solvers.
#[derive(Debug, Clone, Copy, PartialEq, Eq, Structural)]
pub struct EMD(pub u64);

impl EMD {
    /// A metric instance carrying the given scale parameter.
    pub fn new(p: u64) -> (r: EMD)
        ensures
            r.0 == p,
    {
        EMD(p)
    }
}

} // verus!


