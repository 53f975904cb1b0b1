use vstd::prelude::*;

use crate::onedim::{abs_diff, mass_sum};
use vstd::arithmetic::div_mod::{lemma_div_pos_is_pos, lemma_mod_bound, lemma_multiply_divide_lt};

verus! {

/// An N-dimensional mass distribution: non-negative integer masses over a
/// finite grid, stored row-major as a flat vector whose length equals the
/// product of the extents.
pub struct Grid {
    pub shape: Vec<usize>,
    pub data: Vec<u64>,
}

/// Number of cells of a grid with the given extents (1 for the empty
/// shape, whose grid is a single scalar cell).
pub open spec fn shape_product(shape: Seq<usize>) -> int
    decreases shape.len(),
{
    if shape.len() == 0 {
        1
    } else {
        shape_product(shape.drop_last()) * (shape.last() as int)
    }
}

impl Grid {
    /// The flat data exactly fills the grid.
    pub open spec fn consistent(self) -> bool {
        self.data@.len() == shape_product(self.shape@)
    }

    /// Total mass carried by the grid.
    pub open spec fn total(self) -> int {
        mass_sum(self.data@)
    }
}

/// L1 (Manhattan) distance between the coordinates of the two cells with
/// row-major flat indices `a` and `b`: each axis contributes the absolute
/// difference of the respective coordinates.
pub open spec fn l1_cell_dist(shape: Seq<usize>, a: int, b: int) -> int
    decreases shape.len(),
{
    if shape.len() == 0 {
        0
    } else {
        let e = shape.last() as int;
        l1_cell_dist(shape.drop_last(), a / e, b / e) + abs_diff(a % e, b % e)
    }
}

/// The largest L1 distance two cells of the grid can have: the sum over
/// all axes of (extent - 1).
pub open spec fn cost_bound(shape: Seq<usize>) -> int
    decreases shape.len(),
{
    if shape.len() == 0 {
        0
    } else {
        cost_bound(shape.drop_last()) + if shape.last() >= 1 {
            shape.last() - 1
        } else {
            0
        }
    }
}

pub proof fn lemma_shape_product_nonneg(shape: Seq<usize>)
    ensures
        shape_product(shape) >= 0,
    decreases shape.len(),
{
    if shape.len() > 0 {
        lemma_shape_product_nonneg(shape.drop_last());
        assert(shape_product(shape.drop_last()) * (shape.last() as int) >= 0) by (nonlinear_arith)
            requires
                shape_product(shape.drop_last()) >= 0,
                shape.last() as int >= 0,
        ;
    }
}

pub proof fn lemma_cost_bound_nonneg(shape: Seq<usize>)
    ensures
        cost_bound(shape) >= 0,
    decreases shape.len(),
{
    if shape.len() > 0 {
        lemma_cost_bound_nonneg(shape.drop_last());
    }
}

/// The L1 distance between two cells does not depend on their order.
pub proof fn lemma_l1_symmetric(shape: Seq<usize>, a: int, b: int)
    ensures
        l1_cell_dist(shape, a, b) == l1_cell_dist(shape, b, a),
    decreases shape.len(),
{
    if shape.len() > 0 {
        let e = shape.last() as int;
        lemma_l1_symmetric(shape.drop_last(), a / e, b / e);
    }
}

/// On a non-empty grid every cell pair is at most `cost_bound` apart.
pub proof fn lemma_l1_le_cost_bound(shape: Seq<usize>, a: int, b: int)
    requires
        0 <= a < shape_product(shape),
        0 <= b < shape_product(shape),
    ensures
        0 <= l1_cell_dist(shape, a, b) <= cost_bound(shape),
    decreases shape.len(),
{
    if shape.len() == 0 {
    } else {
        let pp = shape_product(shape.drop_last());
        let ee = shape.last() as int;
        lemma_shape_product_nonneg(shape.drop_last());
        assert(pp >= 1 && ee >= 1) by (nonlinear_arith)
            requires
                pp * ee >= 1,
                pp >= 0,
                ee >= 0,
        ;
        lemma_mod_bound(a, ee);
        lemma_mod_bound(b, ee);
        lemma_div_pos_is_pos(a, ee);
        lemma_div_pos_is_pos(b, ee);
        assert(a < ee * pp && b < ee * pp) by (nonlinear_arith)
            requires
                a < pp * ee,
                b < pp * ee,
        ;
        lemma_multiply_divide_lt(a, ee, pp);
        lemma_multiply_divide_lt(b, ee, pp);
        lemma_l1_le_cost_bound(shape.drop_last(), a / ee, b / ee);
    }
}

/// Computes the L1 distance between the cells with flat indices `a` and
/// `b`, peeling one axis per step from the innermost outward.
pub fn l1_cost(shape: &Vec<usize>, a: usize, b: usize) -> (c: u64)
    requires
        shape_product(shape@) >= 1,
        (a as int) < shape_product(shape@),
        (b as int) < shape_product(shape@),
        cost_bound(shape@) <= u64::MAX,
    ensures
        c == l1_cell_dist(shape@, a as int, b as int),
        c <= cost_bound(shape@),
{
    let nd = shape.len();
    let mut ra = a;
    let mut rb = b;
    let mut acc: u64 = 0;
    let mut d = nd;
    proof {
        assert(shape@.take(nd as int) =~= shape@);
    }
    while d > 0
        invariant
            nd == shape@.len(),
            d <= nd,
            shape_product(shape@.take(d as int)) >= 1,
            (ra as int) < shape_product(shape@.take(d as int)),
            (rb as int) < shape_product(shape@.take(d as int)),
            acc + l1_cell_dist(shape@.take(d as int), ra as int, rb as int) == l1_cell_dist(
                shape@,
                a as int,
                b as int,
            ),
            acc <= cost_bound(shape@) - cost_bound(shape@.take(d as int)),
            cost_bound(shape@) <= u64::MAX,
        decreases d,
    {
        let ghost pre = shape@.take(d as int);
        proof {
            assert(pre.drop_last() =~= shape@.take(d as int - 1));
            assert(pre.last() == shape@[d as int - 1]);
            let pp = shape_product(shape@.take(d as int - 1));
            let ee = shape@[d as int - 1] as int;
            lemma_shape_product_nonneg(shape@.take(d as int - 1));
            assert(pp >= 1 && ee >= 1) by (nonlinear_arith)
                requires
                    pp * ee >= 1,
                    pp >= 0,
                    ee >= 0,
            ;
            lemma_mod_bound(ra as int, ee);
            lemma_mod_bound(rb as int, ee);
            lemma_div_pos_is_pos(ra as int, ee);
            lemma_div_pos_is_pos(rb as int, ee);
            assert((ra as int) < ee * pp && (rb as int) < ee * pp) by (nonlinear_arith)
                requires
                    (ra as int) < pp * ee,
                    (rb as int) < pp * ee,
            ;
            lemma_multiply_divide_lt(ra as int, ee, pp);
            lemma_multiply_divide_lt(rb as int, ee, pp);
            lemma_cost_bound_nonneg(shape@.take(d as int - 1));
        }
        let e = shape[d - 1];
        let ma = ra % e;
        let mb = rb % e;
        let diff = if ma >= mb {
            ma - mb
        } else {
            mb - ma
        };
        acc = acc + diff as u64;
        ra = ra / e;
        rb = rb / e;
        d = d - 1;
    }
    proof {
        assert(shape@.take(0) =~= Seq::<usize>::empty());
    }
    acc
}

/// Masses of the cells that carry mass, in flat-index order.
pub open spec fn nonzero_masses(data: Seq<u64>) -> Seq<u64>
    decreases data.len(),
{
    if data.len() == 0 {
        Seq::empty()
    } else if data.last() > 0 {
        nonzero_masses(data.drop_last()).push(data.last())
    } else {
        nonzero_masses(data.drop_last())
    }
}

/// Flat indices of the cells that carry mass, in increasing order.
pub open spec fn nonzero_indices(data: Seq<u64>) -> Seq<int>
    decreases data.len(),
{
    if data.len() == 0 {
        Seq::empty()
    } else if data.last() > 0 {
        nonzero_indices(data.drop_last()).push(data.len() - 1)
    } else {
        nonzero_indices(data.drop_last())
    }
}

/// The cells that carry mass hold exactly the grid's total mass, each such
/// cell is inside the grid, and its recorded mass is positive.
pub proof fn lemma_nonzero_cells(data: Seq<u64>)
    ensures
        nonzero_indices(data).len() == nonzero_masses(data).len(),
        mass_sum(nonzero_masses(data)) == mass_sum(data),
        forall|t: int|
            0 <= t < nonzero_indices(data).len() ==> 0 <= #[trigger] nonzero_indices(data)[t]
                < data.len() && data[nonzero_indices(data)[t]] == nonzero_masses(data)[t]
                && nonzero_masses(data)[t] > 0,
    decreases data.len(),
{
    if data.len() > 0 {
        lemma_nonzero_cells(data.drop_last());
        if data.last() > 0 {
            assert(nonzero_masses(data.drop_last()).push(data.last()).drop_last()
                =~= nonzero_masses(data.drop_last()));
        }
    }
}

/// Scaling every mass by a positive constant keeps exactly the same cells
/// carrying mass, and scales the recorded masses by that constant.
pub proof fn lemma_nonzero_scaled(data: Seq<u64>, c: u64)
    requires
        c >= 1,
        forall|i: int| 0 <= i < data.len() ==> data[i] * c <= u64::MAX,
    ensures
        nonzero_indices(crate::onedim::scaled(data, c)) == nonzero_indices(data),
        nonzero_masses(crate::onedim::scaled(data, c)) == crate::onedim::scaled(
            nonzero_masses(data),
            c,
        ),
    decreases data.len(),
{
    let sc = crate::onedim::scaled(data, c);
    if data.len() == 0 {
        assert(nonzero_indices(sc) =~= nonzero_indices(data));
        assert(nonzero_masses(sc) =~= crate::onedim::scaled(nonzero_masses(data), c));
    } else {
        assert(sc.drop_last() =~= crate::onedim::scaled(data.drop_last(), c));
        lemma_nonzero_scaled(data.drop_last(), c);
        let x = data.last() as int;
        assert(sc.last() == x * c);
        if x > 0 {
            assert(x * c >= 1) by (nonlinear_arith)
                requires
                    x >= 1,
                    c >= 1,
            ;
            lemma_nonzero_cells(data);
            assert(nonzero_masses(sc) =~= crate::onedim::scaled(nonzero_masses(data), c));
            assert(nonzero_indices(sc) =~= nonzero_indices(data));
        } else {
            assert(x * c == 0) by (nonlinear_arith)
                requires
                    x == 0,
            ;
        }
    }
}

/// Collects the cells of a distribution that carry mass: their masses and
/// their flat indices, in flat-index order.
pub fn collect_cells(data: &Vec<u64>) -> (r: (Vec<u64>, Vec<usize>))
    ensures
        r.0@ == nonzero_masses(data@),
        r.1@.len() == r.0@.len(),
        forall|t: int| 0 <= t < r.1@.len() ==> (#[trigger] r.1@[t]) as int == nonzero_indices(
            data@,
        )[t],
        forall|t: int| 0 <= t < r.1@.len() ==> (#[trigger] r.1@[t]) < data@.len(),
{
    let n = data.len();
    let mut masses: Vec<u64> = Vec::new();
    let mut cells: Vec<usize> = Vec::new();
    let mut i: usize = 0;
    while i < n
        invariant
            n == data@.len(),
            i <= n,
            masses@ == nonzero_masses(data@.take(i as int)),
            cells@.len() == masses@.len(),
            forall|t: int| 0 <= t < cells@.len() ==> (#[trigger] cells@[t]) as int
                == nonzero_indices(data@.take(i as int))[t],
            forall|t: int| 0 <= t < cells@.len() ==> (#[trigger] cells@[t]) < i,
        decreases n - i,
    {
        proof {
            assert(data@.take(i as int + 1).drop_last() =~= data@.take(i as int));
            assert(data@.take(i as int + 1).last() == data@[i as int]);
            lemma_nonzero_cells(data@.take(i as int));
        }
        if data[i] > 0 {
            masses.push(data[i]);
            cells.push(i);
        }
        i = i + 1;
    }
    proof {
        assert(data@.take(n as int) =~= data@);
    }
    (masses, cells)
}

} // verus!
