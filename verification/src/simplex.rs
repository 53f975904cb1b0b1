use vstd::prelude::*;

use crate::error::Error;
use crate::onedim::mass_sum;

verus! {

/// Bound kept on every dual potential; a potential that would leave this
/// range trips the solver's defensive guard instead of overflowing.
pub const POT_LIMIT: i128 = 1_267_650_600_228_229_401_496_703_205_376;

/// One arc of the transport network: a directed edge carrying `flow` units
/// at `cost` per unit. Arcs with index below the real-arc count join a
/// supply node to a demand node; the rest are the artificial high-cost arcs
/// that connect every node to the root of the initial spanning-tree basis.
#[derive(Clone, Copy)]
struct FlowArc {
    from: usize,
    to: usize,
    cost: u64,
    flow: u64,
    in_tree: bool,
}

/// The largest mass in a distribution (zero when it is empty).
pub open spec fn seq_max(s: Seq<u64>) -> int
    decreases s.len(),
{
    if s.len() == 0 {
        0
    } else if s.last() >= seq_max(s.drop_last()) {
        s.last() as int
    } else {
        seq_max(s.drop_last())
    }
}

pub proof fn lemma_seq_max_le(s: Seq<u64>, b: int)
    requires
        b >= 0,
        forall|i: int| 0 <= i < s.len() ==> s[i] <= b,
    ensures
        seq_max(s) <= b,
    decreases s.len(),
{
    if s.len() > 0 {
        lemma_seq_max_le(s.drop_last(), b);
    }
}

pub proof fn lemma_seq_max_nonneg(s: Seq<u64>)
    ensures
        seq_max(s) >= 0,
    decreases s.len(),
{
    if s.len() > 0 {
        lemma_seq_max_nonneg(s.drop_last());
    }
}

/// Mass shipped out of supply node `i` by the plan `f` (row-major over
/// `k` demand nodes).
pub open spec fn row_sum(f: Seq<u64>, k: int, i: int) -> int {
    mass_sum(f.subrange(i * k, i * k + k))
}

/// Mass received by demand node `j` from the first `rows` supply nodes.
pub open spec fn col_sum(f: Seq<u64>, k: int, j: int, rows: int) -> int
    decreases rows,
{
    if rows <= 0 {
        0
    } else {
        col_sum(f, k, j, rows - 1) + f[(rows - 1) * k + j]
    }
}

/// `f` is a transport plan that ships exactly each supply and fills exactly
/// each demand: entry `i * demands.len() + j` is the mass moved from supply
/// node `i` to demand node `j`.
pub open spec fn is_feasible_plan(f: Seq<u64>, supplies: Seq<u64>, demands: Seq<u64>) -> bool {
    let m = supplies.len() as int;
    let k = demands.len() as int;
    &&& f.len() == m * k
    &&& forall|i: int| 0 <= i < m ==> row_sum(f, k, i) == supplies[i]
    &&& forall|j: int| 0 <= j < k ==> col_sum(f, k, j, m) == demands[j]
}

/// Total cost of a plan: the sum over all arcs of flow times unit cost.
pub open spec fn plan_cost(f: Seq<u64>, costs: Seq<u64>) -> int
    decreases f.len(),
{
    if f.len() == 0 {
        0
    } else {
        plan_cost(f.drop_last(), costs.drop_last()) + f.last() * costs.last()
    }
}

/// Law: a transport plan never has negative cost.
pub proof fn lemma_plan_cost_nonneg(f: Seq<u64>, costs: Seq<u64>)
    ensures
        plan_cost(f, costs) >= 0,
    decreases f.len(),
{
    if f.len() > 0 {
        lemma_plan_cost_nonneg(f.drop_last(), costs.drop_last());
        assert(f.last() * costs.last() >= 0) by (nonlinear_arith);
    }
}

proof fn lemma_plan_cost_take_succ(f: Seq<u64>, costs: Seq<u64>, t: int)
    requires
        0 <= t < f.len(),
        t < costs.len(),
    ensures
        plan_cost(f.take(t + 1), costs.take(t + 1)) == plan_cost(f.take(t), costs.take(t)) + f[t]
            * costs[t],
{
    assert(f.take(t + 1).drop_last() =~= f.take(t));
    assert(costs.take(t + 1).drop_last() =~= costs.take(t));
}

/// The entry of a row-major table at row `i`, column `j`.
pub open spec fn at2(s: Seq<u64>, k: int, i: int, j: int) -> u64 {
    s[i * k + j]
}

/// The potentials `u` (one per supply) and `v` (one per demand) price no
/// arc below its cost: `cost(i, j) >= u[i] - v[j]` everywhere. Such a pair
/// is a certificate that bounds every feasible plan's cost from below.
pub open spec fn dual_feasible(u: Seq<i128>, v: Seq<i128>, costs: Seq<u64>, m: int, k: int) -> bool {
    forall|i: int, j: int|
        0 <= i < m && 0 <= j < k ==> (#[trigger] at2(costs, k, i, j)) as int >= u[i] - v[j]
}

/// Every arc that carries flow is priced exactly: complementary slackness.
pub open spec fn tight_on(f: Seq<u64>, u: Seq<i128>, v: Seq<i128>, costs: Seq<u64>, m: int, k: int) -> bool {
    forall|i: int, j: int|
        0 <= i < m && 0 <= j < k && at2(f, k, i, j) > 0 ==> (#[trigger] at2(costs, k, i, j)) as int
            == u[i] - v[j]
}

/// Sum of `w[t] * x[t]` over `t < j`.
pub open spec fn dot_prefix(w: Seq<i128>, x: Seq<u64>, j: int) -> int
    decreases j,
{
    if j <= 0 {
        0
    } else {
        dot_prefix(w, x, j - 1) + w[j - 1] * x[j - 1]
    }
}

/// Sum of `w[t] * f[base + t]` over `t < j`.
spec fn dot_row(w: Seq<i128>, f: Seq<u64>, base: int, j: int) -> int
    decreases j,
{
    if j <= 0 {
        0
    } else {
        dot_row(w, f, base, j - 1) + w[j - 1] * f[base + j - 1]
    }
}

/// Sum of `f[base + t] * c[base + t]` over `t < j`.
spec fn cost_row(f: Seq<u64>, c: Seq<u64>, base: int, j: int) -> int
    decreases j,
{
    if j <= 0 {
        0
    } else {
        cost_row(f, c, base, j - 1) + f[base + j - 1] * c[base + j - 1]
    }
}

/// Sum of `v[t] * col_sum(f, k, t, m)` over `t < j`.
spec fn dot_cols(v: Seq<i128>, f: Seq<u64>, k: int, m: int, j: int) -> int
    decreases j,
{
    if j <= 0 {
        0
    } else {
        dot_cols(v, f, k, m, j - 1) + v[j - 1] * col_sum(f, k, j - 1, m)
    }
}

/// Sum of the full row costs of the first `i` rows.
spec fn rows_cost(f: Seq<u64>, c: Seq<u64>, k: int, i: int) -> int
    decreases i,
{
    if i <= 0 {
        0
    } else {
        rows_cost(f, c, k, i - 1) + cost_row(f, c, (i - 1) * k, k)
    }
}

/// Sum of `u[i'] * row_sum(f, k, i')` over `i' < i`.
spec fn dot_rowsums(u: Seq<i128>, f: Seq<u64>, k: int, i: int) -> int
    decreases i,
{
    if i <= 0 {
        0
    } else {
        dot_rowsums(u, f, k, i - 1) + u[i - 1] * row_sum(f, k, i - 1)
    }
}

/// Sum of `dot_row(v, f, i' * k, k)` over `i' < i`.
spec fn rows_dot(v: Seq<i128>, f: Seq<u64>, k: int, i: int) -> int
    decreases i,
{
    if i <= 0 {
        0
    } else {
        rows_dot(v, f, k, i - 1) + dot_row(v, f, (i - 1) * k, k)
    }
}

proof fn lemma_plan_cost_prefix_row(f: Seq<u64>, c: Seq<u64>, b: int, j: int)
    requires
        0 <= b,
        0 <= j,
        b + j <= f.len(),
        f.len() == c.len(),
    ensures
        plan_cost(f.take(b + j), c.take(b + j)) == plan_cost(f.take(b), c.take(b)) + cost_row(
            f,
            c,
            b,
            j,
        ),
    decreases j,
{
    if j > 0 {
        lemma_plan_cost_prefix_row(f, c, b, j - 1);
        lemma_plan_cost_take_succ(f, c, b + j - 1);
    }
}

proof fn lemma_plan_cost_rows(f: Seq<u64>, c: Seq<u64>, k: int, i: int)
    requires
        0 <= i,
        0 <= k,
        i * k <= f.len(),
        f.len() == c.len(),
    ensures
        plan_cost(f.take(i * k), c.take(i * k)) == rows_cost(f, c, k, i),
    decreases i,
{
    if i == 0 {
        assert(0 * k == 0) by (nonlinear_arith);
        assert(f.take(0) =~= Seq::<u64>::empty());
        assert(c.take(0) =~= Seq::<u64>::empty());
    } else {
        assert((i - 1) * k >= 0 && (i - 1) * k + k == i * k && (i - 1) * k <= f.len())
            by (nonlinear_arith)
            requires
                i >= 1,
                k >= 0,
                i * k <= f.len(),
        ;
        lemma_plan_cost_rows(f, c, k, i - 1);
        lemma_plan_cost_prefix_row(f, c, (i - 1) * k, k);
    }
}

proof fn lemma_row_lower(
    f: Seq<u64>,
    u: Seq<i128>,
    v: Seq<i128>,
    costs: Seq<u64>,
    m: int,
    k: int,
    i: int,
    j: int,
)
    requires
        u.len() == m,
        v.len() == k,
        costs.len() == m * k,
        f.len() == m * k,
        0 <= i < m,
        0 <= j <= k,
        dual_feasible(u, v, costs, m, k),
    ensures
        cost_row(f, costs, i * k, j) >= u[i] * mass_sum(f.subrange(i * k, i * k + j)) - dot_row(
            v,
            f,
            i * k,
            j,
        ),
    decreases j,
{
    assert(i * k >= 0 && i * k + k <= m * k) by (nonlinear_arith)
        requires
            0 <= i,
            i < m,
            0 <= k,
    ;
    let b = i * k;
    if j == 0 {
        assert(f.subrange(b, b) =~= Seq::<u64>::empty());
        assert(u[i] * 0 == 0) by (nonlinear_arith);
    } else {
        lemma_row_lower(f, u, v, costs, m, k, i, j - 1);
        let t = j - 1;
        assert(f.subrange(b, b + j).drop_last() =~= f.subrange(b, b + t));
        let ms_prev = mass_sum(f.subrange(b, b + t));
        let fv = f[b + t] as int;
        let cv = costs[b + t] as int;
        let ui = u[i];
        let vt = v[t];
        assert(at2(costs, k, i, t) == costs[b + t]);
        assert(cv >= ui - vt);
        assert(fv * cv >= fv * (ui - vt)) by (nonlinear_arith)
            requires
                cv >= ui - vt,
                fv >= 0,
        ;
        assert(fv * (ui - vt) == ui * fv - vt * fv) by (nonlinear_arith);
        assert(ui * (ms_prev + fv) == ui * ms_prev + ui * fv) by (nonlinear_arith);
    }
}

proof fn lemma_row_tight(
    f: Seq<u64>,
    u: Seq<i128>,
    v: Seq<i128>,
    costs: Seq<u64>,
    m: int,
    k: int,
    i: int,
    j: int,
)
    requires
        u.len() == m,
        v.len() == k,
        costs.len() == m * k,
        f.len() == m * k,
        0 <= i < m,
        0 <= j <= k,
        tight_on(f, u, v, costs, m, k),
    ensures
        cost_row(f, costs, i * k, j) == u[i] * mass_sum(f.subrange(i * k, i * k + j)) - dot_row(
            v,
            f,
            i * k,
            j,
        ),
    decreases j,
{
    assert(i * k >= 0 && i * k + k <= m * k) by (nonlinear_arith)
        requires
            0 <= i,
            i < m,
            0 <= k,
    ;
    let b = i * k;
    if j == 0 {
        assert(f.subrange(b, b) =~= Seq::<u64>::empty());
        assert(u[i] * 0 == 0) by (nonlinear_arith);
    } else {
        lemma_row_tight(f, u, v, costs, m, k, i, j - 1);
        let t = j - 1;
        assert(f.subrange(b, b + j).drop_last() =~= f.subrange(b, b + t));
        let ms_prev = mass_sum(f.subrange(b, b + t));
        let fv = f[b + t] as int;
        let cv = costs[b + t] as int;
        let ui = u[i];
        let vt = v[t];
        assert(at2(costs, k, i, t) == costs[b + t]);
        assert(at2(f, k, i, t) == f[b + t]);
        if fv > 0 {
            assert(cv == ui - vt);
            assert(fv * cv == fv * (ui - vt)) by (nonlinear_arith)
                requires
                    cv == ui - vt,
            ;
        } else {
            assert(fv * cv == 0 && fv * (ui - vt) == 0) by (nonlinear_arith)
                requires
                    fv == 0,
            ;
        }
        assert(fv * (ui - vt) == ui * fv - vt * fv) by (nonlinear_arith);
        assert(ui * (ms_prev + fv) == ui * ms_prev + ui * fv) by (nonlinear_arith);
    }
}

proof fn lemma_rows_lower(
    f: Seq<u64>,
    u: Seq<i128>,
    v: Seq<i128>,
    costs: Seq<u64>,
    m: int,
    k: int,
    i: int,
)
    requires
        u.len() == m,
        v.len() == k,
        costs.len() == m * k,
        f.len() == m * k,
        0 <= i <= m,
        dual_feasible(u, v, costs, m, k),
    ensures
        rows_cost(f, costs, k, i) >= dot_rowsums(u, f, k, i) - rows_dot(v, f, k, i),
    decreases i,
{
    if i > 0 {
        lemma_rows_lower(f, u, v, costs, m, k, i - 1);
        lemma_row_lower(f, u, v, costs, m, k, i - 1, k);
    }
}

proof fn lemma_rows_tight(
    f: Seq<u64>,
    u: Seq<i128>,
    v: Seq<i128>,
    costs: Seq<u64>,
    m: int,
    k: int,
    i: int,
)
    requires
        u.len() == m,
        v.len() == k,
        costs.len() == m * k,
        f.len() == m * k,
        0 <= i <= m,
        tight_on(f, u, v, costs, m, k),
    ensures
        rows_cost(f, costs, k, i) == dot_rowsums(u, f, k, i) - rows_dot(v, f, k, i),
    decreases i,
{
    if i > 0 {
        lemma_rows_tight(f, u, v, costs, m, k, i - 1);
        lemma_row_tight(f, u, v, costs, m, k, i - 1, k);
    }
}

proof fn lemma_dot_cols_zero(v: Seq<i128>, f: Seq<u64>, k: int, j: int)
    ensures
        dot_cols(v, f, k, 0, j) == 0,
    decreases j,
{
    if j > 0 {
        lemma_dot_cols_zero(v, f, k, j - 1);
        assert(v[j - 1] * col_sum(f, k, j - 1, 0) == 0) by (nonlinear_arith)
            requires
                col_sum(f, k, j - 1, 0) == 0,
        ;
    }
}

proof fn lemma_dot_cols_step(v: Seq<i128>, f: Seq<u64>, k: int, m: int, j: int)
    requires
        m >= 1,
    ensures
        dot_cols(v, f, k, m, j) == dot_cols(v, f, k, m - 1, j) + dot_row(v, f, (m - 1) * k, j),
    decreases j,
{
    if j > 0 {
        lemma_dot_cols_step(v, f, k, m, j - 1);
        let t = j - 1;
        let a = col_sum(f, k, t, m - 1);
        let x = f[(m - 1) * k + t] as int;
        assert(col_sum(f, k, t, m) == a + x);
        assert(v[t] * (a + x) == v[t] * a + v[t] * x) by (nonlinear_arith);
    }
}

proof fn lemma_exchange(v: Seq<i128>, f: Seq<u64>, k: int, i: int)
    requires
        0 <= i,
    ensures
        rows_dot(v, f, k, i) == dot_cols(v, f, k, i, k),
    decreases i,
{
    if i == 0 {
        lemma_dot_cols_zero(v, f, k, k);
    } else {
        lemma_exchange(v, f, k, i - 1);
        lemma_dot_cols_step(v, f, k, i, k);
    }
}

proof fn lemma_dot_rowsums_supplies(
    u: Seq<i128>,
    f: Seq<u64>,
    supplies: Seq<u64>,
    k: int,
    i: int,
)
    requires
        0 <= i <= supplies.len(),
        forall|t: int| 0 <= t < supplies.len() ==> #[trigger] row_sum(f, k, t) == supplies[t],
    ensures
        dot_rowsums(u, f, k, i) == dot_prefix(u, supplies, i),
    decreases i,
{
    if i > 0 {
        lemma_dot_rowsums_supplies(u, f, supplies, k, i - 1);
    }
}

proof fn lemma_dot_cols_demands(
    v: Seq<i128>,
    f: Seq<u64>,
    demands: Seq<u64>,
    k: int,
    m: int,
    j: int,
)
    requires
        0 <= j <= demands.len(),
        forall|t: int| 0 <= t < demands.len() ==> #[trigger] col_sum(f, k, t, m) == demands[t],
    ensures
        dot_cols(v, f, k, m, j) == dot_prefix(v, demands, j),
    decreases j,
{
    if j > 0 {
        lemma_dot_cols_demands(v, f, demands, k, m, j - 1);
    }
}

/// Weak duality: a dual-feasible pair of potentials bounds the cost of
/// every feasible transport plan from below by its dual objective.
pub proof fn lemma_weak_duality(
    g: Seq<u64>,
    u: Seq<i128>,
    v: Seq<i128>,
    supplies: Seq<u64>,
    demands: Seq<u64>,
    costs: Seq<u64>,
)
    requires
        u.len() == supplies.len(),
        v.len() == demands.len(),
        costs.len() == supplies.len() * demands.len(),
        is_feasible_plan(g, supplies, demands),
        dual_feasible(u, v, costs, supplies.len() as int, demands.len() as int),
    ensures
        plan_cost(g, costs) >= dot_prefix(u, supplies, supplies.len() as int) - dot_prefix(
            v,
            demands,
            demands.len() as int,
        ),
{
    let m = supplies.len() as int;
    let k = demands.len() as int;
    lemma_plan_cost_rows(g, costs, k, m);
    assert(g.take(m * k) =~= g);
    assert(costs.take(m * k) =~= costs);
    lemma_rows_lower(g, u, v, costs, m, k, m);
    lemma_exchange(v, g, k, m);
    lemma_dot_rowsums_supplies(u, g, supplies, k, m);
    lemma_dot_cols_demands(v, g, demands, k, m, k);
}

/// Complementary slackness: a feasible plan whose carrying arcs are all
/// priced exactly meets its dual objective, so by weak duality it is a
/// minimum-cost plan.
pub proof fn lemma_tight_duality(
    f: Seq<u64>,
    u: Seq<i128>,
    v: Seq<i128>,
    supplies: Seq<u64>,
    demands: Seq<u64>,
    costs: Seq<u64>,
)
    requires
        u.len() == supplies.len(),
        v.len() == demands.len(),
        costs.len() == supplies.len() * demands.len(),
        is_feasible_plan(f, supplies, demands),
        tight_on(f, u, v, costs, supplies.len() as int, demands.len() as int),
    ensures
        plan_cost(f, costs) == dot_prefix(u, supplies, supplies.len() as int) - dot_prefix(
            v,
            demands,
            demands.len() as int,
        ),
{
    let m = supplies.len() as int;
    let k = demands.len() as int;
    lemma_plan_cost_rows(f, costs, k, m);
    assert(f.take(m * k) =~= f);
    assert(costs.take(m * k) =~= costs);
    lemma_rows_tight(f, u, v, costs, m, k, m);
    lemma_exchange(v, f, k, m);
    lemma_dot_rowsums_supplies(u, f, supplies, k, m);
    lemma_dot_cols_demands(v, f, demands, k, m, k);
}

/// The same plan read with supply and demand roles swapped: entry
/// `(j, i)` of the transpose is entry `(i, j)` of `f`.
pub open spec fn transpose_plan(f: Seq<u64>, m: int, k: int) -> Seq<u64> {
    Seq::new((k * m) as nat, |t: int| f[(t % m) * k + t / m])
}

/// Sum of `f[t * k + j] * c[t * k + j]` over `t < r`: the cost carried by
/// one column.
spec fn cost_col(f: Seq<u64>, c: Seq<u64>, k: int, j: int, r: int) -> int
    decreases r,
{
    if r <= 0 {
        0
    } else {
        cost_col(f, c, k, j, r - 1) + f[(r - 1) * k + j] * c[(r - 1) * k + j]
    }
}

/// Sum of the full column costs of the first `j` columns, over `m` rows.
spec fn cols_cost(f: Seq<u64>, c: Seq<u64>, k: int, m: int, j: int) -> int
    decreases j,
{
    if j <= 0 {
        0
    } else {
        cols_cost(f, c, k, m, j - 1) + cost_col(f, c, k, j - 1, m)
    }
}

proof fn lemma_cols_cost_zero(f: Seq<u64>, c: Seq<u64>, k: int, j: int)
    ensures
        cols_cost(f, c, k, 0, j) == 0,
    decreases j,
{
    if j > 0 {
        lemma_cols_cost_zero(f, c, k, j - 1);
    }
}

proof fn lemma_cols_cost_step(f: Seq<u64>, c: Seq<u64>, k: int, m: int, j: int)
    requires
        m >= 1,
    ensures
        cols_cost(f, c, k, m, j) == cols_cost(f, c, k, m - 1, j) + cost_row(f, c, (m - 1) * k, j),
    decreases j,
{
    if j > 0 {
        lemma_cols_cost_step(f, c, k, m, j - 1);
    }
}

proof fn lemma_cost_exchange(f: Seq<u64>, c: Seq<u64>, k: int, m: int)
    requires
        0 <= m,
    ensures
        rows_cost(f, c, k, m) == cols_cost(f, c, k, m, k),
    decreases m,
{
    if m == 0 {
        lemma_cols_cost_zero(f, c, k, k);
    } else {
        lemma_cost_exchange(f, c, k, m - 1);
        lemma_cols_cost_step(f, c, k, m, k);
    }
}

proof fn lemma_transpose_row_is_col(
    f: Seq<u64>,
    cs: Seq<u64>,
    ct: Seq<u64>,
    m: int,
    k: int,
    j: int,
    r: int,
)
    requires
        1 <= m,
        1 <= k,
        f.len() == m * k,
        cs.len() == m * k,
        ct.len() == k * m,
        0 <= j < k,
        0 <= r <= m,
        forall|i2: int, j2: int|
            0 <= i2 < m && 0 <= j2 < k ==> (#[trigger] at2(cs, k, i2, j2)) == at2(ct, m, j2, i2),
    ensures
        cost_row(transpose_plan(f, m, k), ct, j * m, r) == cost_col(f, cs, k, j, r),
        mass_sum(transpose_plan(f, m, k).subrange(j * m, j * m + r)) == col_sum(f, k, j, r),
    decreases r,
{
    let ft = transpose_plan(f, m, k);
    assert(j * m >= 0 && j * m + m <= k * m) by (nonlinear_arith)
        requires
            0 <= j,
            j < k,
            1 <= m,
    ;
    if r == 0 {
        assert(ft.subrange(j * m, j * m) =~= Seq::<u64>::empty());
    } else {
        lemma_transpose_row_is_col(f, cs, ct, m, k, j, r - 1);
        let t = j * m + (r - 1);
        lemma_fundamental_div_mod_converse_pair(t, m, j, r - 1);
        assert(ft[t] == f[(r - 1) * k + j]);
        assert(at2(ct, m, j, r - 1) == ct[t]);
        assert(at2(cs, k, r - 1, j) == cs[(r - 1) * k + j]);
        assert(ft.subrange(j * m, j * m + r).drop_last() =~= ft.subrange(j * m, j * m + r - 1));
    }
}

proof fn lemma_transpose_col_is_row(f: Seq<u64>, m: int, k: int, i: int, r: int)
    requires
        1 <= m,
        1 <= k,
        f.len() == m * k,
        0 <= i < m,
        0 <= r <= k,
    ensures
        col_sum(transpose_plan(f, m, k), m, i, r) == mass_sum(f.subrange(i * k, i * k + r)),
    decreases r,
{
    let ft = transpose_plan(f, m, k);
    assert(i * k >= 0 && i * k + k <= m * k) by (nonlinear_arith)
        requires
            0 <= i,
            i < m,
            1 <= k,
    ;
    if r == 0 {
        assert(f.subrange(i * k, i * k) =~= Seq::<u64>::empty());
    } else {
        lemma_transpose_col_is_row(f, m, k, i, r - 1);
        let t = (r - 1) * m + i;
        assert((r - 1) * m >= 0 && (r - 1) * m + m <= k * m) by (nonlinear_arith)
            requires
                1 <= r,
                r <= k,
                1 <= m,
        ;
        lemma_fundamental_div_mod_converse_pair(t, m, r - 1, i);
        assert(ft[t] == f[i * k + (r - 1)]);
        assert(f.subrange(i * k, i * k + r).drop_last() =~= f.subrange(i * k, i * k + r - 1));
    }
}

proof fn lemma_fundamental_div_mod_converse_pair(x: int, d: int, q: int, r: int)
    requires
        d >= 1,
        0 <= r < d,
        x == q * d + r,
    ensures
        x / d == q,
        x % d == r,
{
    vstd::arithmetic::div_mod::lemma_fundamental_div_mod_converse(x, d, q, r);
}

proof fn lemma_transpose_rows_cost(
    f: Seq<u64>,
    cs: Seq<u64>,
    ct: Seq<u64>,
    m: int,
    k: int,
    j: int,
)
    requires
        1 <= m,
        1 <= k,
        f.len() == m * k,
        cs.len() == m * k,
        ct.len() == k * m,
        0 <= j <= k,
        forall|i2: int, j2: int|
            0 <= i2 < m && 0 <= j2 < k ==> (#[trigger] at2(cs, k, i2, j2)) == at2(ct, m, j2, i2),
    ensures
        rows_cost(transpose_plan(f, m, k), ct, m, j) == cols_cost(f, cs, k, m, j),
    decreases j,
{
    if j > 0 {
        lemma_transpose_rows_cost(f, cs, ct, m, k, j - 1);
        lemma_transpose_row_is_col(f, cs, ct, m, k, j - 1, m);
    }
}

/// Swapping the roles of supplies and demands transposes a feasible plan
/// into a feasible plan of equal cost, provided the cost tables are
/// transposes of each other.
pub proof fn lemma_transpose_feasible(s: Seq<u64>, d: Seq<u64>, f: Seq<u64>, cs: Seq<u64>, ct: Seq<u64>)
    requires
        s.len() >= 1,
        d.len() >= 1,
        is_feasible_plan(f, s, d),
        cs.len() == s.len() * d.len(),
        ct.len() == d.len() * s.len(),
        forall|i2: int, j2: int|
            0 <= i2 < s.len() && 0 <= j2 < d.len() ==> (#[trigger] at2(cs, d.len() as int, i2, j2))
                == at2(ct, s.len() as int, j2, i2),
    ensures
        is_feasible_plan(transpose_plan(f, s.len() as int, d.len() as int), d, s),
        plan_cost(transpose_plan(f, s.len() as int, d.len() as int), ct) == plan_cost(f, cs),
{
    let m = s.len() as int;
    let k = d.len() as int;
    let ft = transpose_plan(f, m, k);
    assert forall|j: int| 0 <= j < k implies row_sum(ft, m, j) == d[j] by {
        lemma_transpose_row_is_col(f, cs, ct, m, k, j, m);
    }
    assert forall|i: int| 0 <= i < m implies col_sum(ft, m, i, k) == s[i] by {
        lemma_transpose_col_is_row(f, m, k, i, k);
        assert(row_sum(f, k, i) == s[i]);
    }
    assert(is_feasible_plan(ft, d, s));
    lemma_plan_cost_rows(f, cs, k, m);
    assert(f.take(m * k) =~= f);
    assert(cs.take(m * k) =~= cs);
    lemma_plan_cost_rows(ft, ct, m, k);
    assert(k * m <= ft.len()) by (nonlinear_arith)
        requires
            ft.len() == k * m,
    ;
    assert(ft.take(k * m) =~= ft);
    assert(ct.take(k * m) =~= ct);
    lemma_transpose_rows_cost(f, cs, ct, m, k, k);
    lemma_cost_exchange(f, cs, k, m);
}

proof fn lemma_col_sum_scaled(f: Seq<u64>, c: u64, k: int, m: int, j: int, r: int)
    requires
        f.len() == m * k,
        0 <= j < k,
        0 <= r <= m,
        forall|t: int| 0 <= t < f.len() ==> f[t] * c <= u64::MAX,
    ensures
        col_sum(crate::onedim::scaled(f, c), k, j, r) == c * col_sum(f, k, j, r),
    decreases r,
{
    if r == 0 {
        assert(c * 0 == 0) by (nonlinear_arith);
    } else {
        lemma_col_sum_scaled(f, c, k, m, j, r - 1);
        assert((r - 1) * k >= 0 && (r - 1) * k + j < m * k) by (nonlinear_arith)
            requires
                1 <= r,
                r <= m,
                0 <= j,
                j < k,
        ;
        let x = f[(r - 1) * k + j] as int;
        let prev = col_sum(f, k, j, r - 1);
        assert(c * (prev + x) == c * prev + c * x && c * x == x * c) by (nonlinear_arith);
    }
}

proof fn lemma_plan_cost_scaled(f: Seq<u64>, costs: Seq<u64>, c: u64)
    requires
        f.len() == costs.len(),
        forall|t: int| 0 <= t < f.len() ==> f[t] * c <= u64::MAX,
    ensures
        plan_cost(crate::onedim::scaled(f, c), costs) == c * plan_cost(f, costs),
    decreases f.len(),
{
    let sf = crate::onedim::scaled(f, c);
    if f.len() == 0 {
        assert(c * 0 == 0) by (nonlinear_arith);
    } else {
        assert(sf.drop_last() =~= crate::onedim::scaled(f.drop_last(), c));
        lemma_plan_cost_scaled(f.drop_last(), costs.drop_last(), c);
        let x = f.last() as int;
        let w = costs.last() as int;
        let prev = plan_cost(f.drop_last(), costs.drop_last());
        assert(sf.last() == x * c);
        assert((x * c) * w == c * (x * w) && c * prev + c * (x * w) == c * (prev + x * w))
            by (nonlinear_arith);
    }
}

/// Scaling the masses scales a potential's weighted sum by the same
/// constant.
pub proof fn lemma_dot_prefix_scaled(u: Seq<i128>, x: Seq<u64>, c: u64, j: int)
    requires
        0 <= j <= x.len(),
        forall|t: int| 0 <= t < x.len() ==> x[t] * c <= u64::MAX,
    ensures
        dot_prefix(u, crate::onedim::scaled(x, c), j) == c * dot_prefix(u, x, j),
    decreases j,
{
    if j == 0 {
        assert(c * 0 == 0) by (nonlinear_arith);
    } else {
        lemma_dot_prefix_scaled(u, x, c, j - 1);
        let uv = u[j - 1];
        let xv = x[j - 1] as int;
        let prev = dot_prefix(u, x, j - 1);
        assert(uv * (xv * c) == c * (uv * xv) && c * prev + c * (uv * xv) == c * (prev + uv * xv))
            by (nonlinear_arith);
    }
}

/// Scaling every flow of a feasible plan by a positive constant gives a
/// feasible plan between the scaled supplies and demands, with the cost
/// scaled by the same constant.
pub proof fn lemma_scaled_plan(f: Seq<u64>, s: Seq<u64>, d: Seq<u64>, costs: Seq<u64>, c: u64)
    requires
        c >= 1,
        is_feasible_plan(f, s, d),
        costs.len() == s.len() * d.len(),
        forall|t: int| 0 <= t < f.len() ==> f[t] * c <= u64::MAX,
        forall|i: int| 0 <= i < s.len() ==> s[i] * c <= u64::MAX,
        forall|j: int| 0 <= j < d.len() ==> d[j] * c <= u64::MAX,
    ensures
        is_feasible_plan(
            crate::onedim::scaled(f, c),
            crate::onedim::scaled(s, c),
            crate::onedim::scaled(d, c),
        ),
        plan_cost(crate::onedim::scaled(f, c), costs) == c * plan_cost(f, costs),
{
    let m = s.len() as int;
    let k = d.len() as int;
    let sf = crate::onedim::scaled(f, c);
    assert forall|i: int| 0 <= i < m implies row_sum(sf, k, i) == crate::onedim::scaled(s, c)[i]
        as int by {
        assert(i * k >= 0 && i * k + k <= m * k) by (nonlinear_arith)
            requires
                0 <= i,
                i < m,
                0 <= k,
        ;
        assert(sf.subrange(i * k, i * k + k) =~= crate::onedim::scaled(
            f.subrange(i * k, i * k + k),
            c,
        ));
        crate::onedim::lemma_mass_sum_scaled(f.subrange(i * k, i * k + k), c);
        assert(c * row_sum(f, k, i) == c * (s[i] as int));
        assert(c * (s[i] as int) == (s[i] as int) * c) by (nonlinear_arith);
    }
    assert forall|j: int| 0 <= j < k implies col_sum(sf, k, j, m) == crate::onedim::scaled(d, c)[j]
        as int by {
        lemma_col_sum_scaled(f, c, k, m, j, m);
        assert(c * col_sum(f, k, j, m) == c * (d[j] as int));
        assert(c * (d[j] as int) == (d[j] as int) * c) by (nonlinear_arith);
    }
    assert(is_feasible_plan(sf, crate::onedim::scaled(s, c), crate::onedim::scaled(d, c)));
    assert(f.len() == costs.len());
    lemma_plan_cost_scaled(f, costs, c);
}

spec fn arcs_wf(arcs: Seq<FlowArc>, n_nodes: int) -> bool {
    forall|t: int|
        0 <= t < arcs.len() ==> (#[trigger] arcs[t]).from < n_nodes && arcs[t].to < n_nodes
}

spec fn tree_wf(
    parent: Seq<usize>,
    parent_arc: Seq<usize>,
    depth: Seq<usize>,
    pot: Seq<i128>,
    n_nodes: int,
    n_arcs: int,
) -> bool {
    &&& parent.len() == n_nodes
    &&& parent_arc.len() == n_nodes
    &&& depth.len() == n_nodes
    &&& pot.len() == n_nodes
    &&& forall|v: int|
        #![trigger parent[v]]
        #![trigger parent_arc[v]]
        #![trigger pot[v]]
        #![trigger depth[v]]
        0 <= v < n_nodes ==> parent[v] < n_nodes && parent_arc[v] < n_arcs && -POT_LIMIT <= pot[v]
            <= POT_LIMIT
}

/// Recomputes parent links, depths and dual potentials of the basis by
/// growing the tree from the root along the arcs currently marked as tree
/// arcs. A tree arc has reduced cost zero, so the potential of a node is
/// its parent's potential shifted by the arc cost, with the sign fixed by
/// the arc's orientation. Returns false when the marked arcs do not span
/// all nodes or a potential would leave its guarded range.
fn rebuild_tree(
    arcs: &Vec<FlowArc>,
    n_nodes: usize,
    root: usize,
    parent: &mut Vec<usize>,
    parent_arc: &mut Vec<usize>,
    depth: &mut Vec<usize>,
    pot: &mut Vec<i128>,
) -> (ok: bool)
    requires
        arcs_wf(arcs@, n_nodes as int),
        arcs@.len() >= 1,
        root < n_nodes,
        old(parent)@.len() == n_nodes,
        old(parent_arc)@.len() == n_nodes,
        old(depth)@.len() == n_nodes,
        old(pot)@.len() == n_nodes,
    ensures
        ok ==> tree_wf(
            final(parent)@,
            final(parent_arc)@,
            final(depth)@,
            final(pot)@,
            n_nodes as int,
            arcs@.len() as int,
        ),
        final(parent)@.len() == n_nodes,
        final(parent_arc)@.len() == n_nodes,
        final(depth)@.len() == n_nodes,
        final(pot)@.len() == n_nodes,
{
    let n_arcs = arcs.len();
    let mut assigned: Vec<bool> = Vec::new();
    let mut v: usize = 0;
    while v < n_nodes
        invariant
            assigned@.len() == v,
            v <= n_nodes,
            forall|x: int| 0 <= x < v ==> !assigned@[x],
        decreases n_nodes - v,
    {
        assigned.push(false);
        v = v + 1;
    }
    parent.set(root, root);
    parent_arc.set(root, 0);
    depth.set(root, 0);
    pot.set(root, 0);
    assigned.set(root, true);
    let mut count: usize = 1;
    let mut pass: usize = 0;
    while pass < n_nodes && count < n_nodes
        invariant
            parent@.len() == n_nodes,
            parent_arc@.len() == n_nodes,
            depth@.len() == n_nodes,
            pot@.len() == n_nodes,
            assigned@.len() == n_nodes,
            arcs@.len() == n_arcs,
            n_arcs >= 1,
            arcs_wf(arcs@, n_nodes as int),
            root < n_nodes,
            1 <= count <= n_nodes,
            forall|x: int|
                #![trigger parent@[x]]
                #![trigger parent_arc@[x]]
                #![trigger pot@[x]]
                0 <= x < n_nodes && assigned@[x] ==> parent@[x] < n_nodes && parent_arc@[x]
                    < n_arcs && -POT_LIMIT <= pot@[x] <= POT_LIMIT,
        decreases n_nodes - pass,
    {
        let mut t: usize = 0;
        while t < n_arcs
            invariant
                parent@.len() == n_nodes,
                parent_arc@.len() == n_nodes,
                depth@.len() == n_nodes,
                pot@.len() == n_nodes,
                assigned@.len() == n_nodes,
                arcs@.len() == n_arcs,
                arcs_wf(arcs@, n_nodes as int),
                1 <= count <= n_nodes,
                forall|x: int|
                    #![trigger parent@[x]]
                    #![trigger parent_arc@[x]]
                    #![trigger pot@[x]]
                    0 <= x < n_nodes && assigned@[x] ==> parent@[x] < n_nodes && parent_arc@[x]
                        < n_arcs && -POT_LIMIT <= pot@[x] <= POT_LIMIT,
            decreases n_arcs - t,
        {
            if arcs[t].in_tree && count < n_nodes {
                let fr = arcs[t].from;
                let to = arcs[t].to;
                if assigned[fr] && !assigned[to] {
                    // arc fr -> to in the tree: cost - pot[fr] + pot[to] == 0
                    let np: i128 = pot[fr] - arcs[t].cost as i128;
                    if np < -POT_LIMIT || np > POT_LIMIT {
                        return false;
                    }
                    parent.set(to, fr);
                    parent_arc.set(to, t);
                    let dn = depth[fr];
                    depth.set(to, if dn < n_nodes { dn + 1 } else { dn });
                    pot.set(to, np);
                    assigned.set(to, true);
                    count = count + 1;
                } else if assigned[to] && !assigned[fr] {
                    let np: i128 = pot[to] + arcs[t].cost as i128;
                    if np < -POT_LIMIT || np > POT_LIMIT {
                        return false;
                    }
                    parent.set(fr, to);
                    parent_arc.set(fr, t);
                    let dn = depth[to];
                    depth.set(fr, if dn < n_nodes { dn + 1 } else { dn });
                    pot.set(fr, np);
                    assigned.set(fr, true);
                    count = count + 1;
                }
            }
            t = t + 1;
        }
        pass = pass + 1;
    }
    if count != n_nodes {
        return false;
    }
    let mut w: usize = 0;
    let mut all: bool = true;
    while w < n_nodes
        invariant
            assigned@.len() == n_nodes,
            parent@.len() == n_nodes,
            parent_arc@.len() == n_nodes,
            depth@.len() == n_nodes,
            pot@.len() == n_nodes,
            arcs@.len() == n_arcs,
            w <= n_nodes,
            all ==> forall|x: int| 0 <= x < w ==> assigned@[x],
            forall|x: int|
                #![trigger parent@[x]]
                #![trigger parent_arc@[x]]
                #![trigger pot@[x]]
                0 <= x < n_nodes && assigned@[x] ==> parent@[x] < n_nodes && parent_arc@[x]
                    < n_arcs && -POT_LIMIT <= pot@[x] <= POT_LIMIT,
        decreases n_nodes - w,
    {
        if !assigned[w] {
            all = false;
        }
        w = w + 1;
    }
    all
}

/// Rewrites the flow and basis flag of one arc, leaving its endpoints and
/// cost untouched.
fn set_arc_state(arcs: &mut Vec<FlowArc>, a: usize, flow: u64, in_tree: bool)
    requires
        a < old(arcs)@.len(),
    ensures
        final(arcs)@.len() == old(arcs)@.len(),
        forall|t: int|
            0 <= t < final(arcs)@.len() ==> (#[trigger] final(arcs)@[t]).from == old(arcs)@[t].from
                && final(arcs)@[t].to == old(arcs)@[t].to && final(arcs)@[t].cost == old(
                arcs,
            )@[t].cost,
        forall|t: int|
            0 <= t < final(arcs)@.len() && t != a ==> (#[trigger] final(arcs)@[t]) == old(
                arcs,
            )@[t],
        final(arcs)@[a as int].flow == flow,
        final(arcs)@[a as int].in_tree == in_tree,
{
    let e = arcs[a];
    arcs.set(
        a,
        FlowArc { from: e.from, to: e.to, cost: e.cost, flow, in_tree },
    );
}

/// The flows carried by the first `n` arcs, as a plan.
spec fn flows_of(arcs: Seq<FlowArc>, n: int) -> Seq<u64> {
    Seq::new(n as nat, |t: int| arcs[t].flow)
}

/// Checks that the flows on the real (supply-to-demand) arcs satisfy every
/// supply and every demand exactly, and computes their total cost. Returns
/// `None` when the flows are not a feasible plan or the cost leaves the
/// 64-bit range.
/// One table entry passes the optimality certificate: the arc is not
/// priced below its cost, and it is priced exactly if it carries flow.
spec fn cert_entry(
    f: Seq<u64>,
    u: Seq<i128>,
    v: Seq<i128>,
    costs: Seq<u64>,
    k: int,
    i: int,
    j: int,
) -> bool {
    &&& (at2(costs, k, i, j) as int) >= u[i] - v[j]
    &&& (at2(f, k, i, j) > 0 ==> (at2(costs, k, i, j) as int) == u[i] - v[j])
}

/// Checks the optimality certificate left behind by the simplex run: with
/// `u` the supply potentials and `v` the demand potentials, every arc
/// satisfies `cost >= u[i] - v[j]`, with equality wherever flow is carried.
/// By weak duality this certifies the flows as a minimum-cost plan.
fn check_certificate(
    arcs: &Vec<FlowArc>,
    pot: &Vec<i128>,
    costs: &Vec<u64>,
    m: usize,
    k: usize,
) -> (r: bool)
    requires
        costs@.len() == m * k,
        costs@.len() <= arcs@.len(),
        pot@.len() >= m + k,
        forall|t: int| 0 <= t < costs@.len() ==> (#[trigger] arcs@[t]).cost == costs@[t],
        forall|x: int| 0 <= x < pot@.len() ==> -POT_LIMIT <= #[trigger] pot@[x] <= POT_LIMIT,
    ensures
        r ==> dual_feasible(
            pot@.subrange(0, m as int),
            pot@.subrange(m as int, (m + k) as int),
            costs@,
            m as int,
            k as int,
        ) && tight_on(
            flows_of(arcs@, costs@.len() as int),
            pot@.subrange(0, m as int),
            pot@.subrange(m as int, (m + k) as int),
            costs@,
            m as int,
            k as int,
        ),
{
    let ghost f = flows_of(arcs@, costs@.len() as int);
    let ghost u = pot@.subrange(0, m as int);
    let ghost v = pot@.subrange(m as int, (m + k) as int);
    let mk = costs.len();
    let np = pot.len();
    let mut i: usize = 0;
    while i < m
        invariant
            mk == costs@.len(),
            np == pot@.len(),
            (m as int) + (k as int) <= np as int,
            costs@.len() == m * k,
            costs@.len() <= arcs@.len(),
            pot@.len() >= m + k,
            forall|t: int| 0 <= t < costs@.len() ==> (#[trigger] arcs@[t]).cost == costs@[t],
            forall|x: int| 0 <= x < pot@.len() ==> -POT_LIMIT <= #[trigger] pot@[x] <= POT_LIMIT,
            f == flows_of(arcs@, costs@.len() as int),
            u == pot@.subrange(0, m as int),
            v == pot@.subrange(m as int, (m + k) as int),
            i <= m,
            forall|i2: int, j2: int|
                0 <= i2 < i && 0 <= j2 < k ==> #[trigger] cert_entry(
                    f,
                    u,
                    v,
                    costs@,
                    k as int,
                    i2,
                    j2,
                ),
        decreases m - i,
    {
        proof {
            assert((i as int) * (k as int) >= 0 && (i as int) * (k as int) + (k as int) <= (
            m as int) * (k as int)) by (nonlinear_arith)
                requires
                    0 <= i as int,
                    (i as int) < (m as int),
                    0 <= k as int,
            ;
        }
        let mut j: usize = 0;
        while j < k
            invariant
                mk == costs@.len(),
                np == pot@.len(),
                (m as int) + (k as int) <= np as int,
                costs@.len() == m * k,
                costs@.len() <= arcs@.len(),
                pot@.len() >= m + k,
                forall|t: int| 0 <= t < costs@.len() ==> (#[trigger] arcs@[t]).cost == costs@[t],
                forall|x: int| 0 <= x < pot@.len() ==> -POT_LIMIT <= #[trigger] pot@[x]
                    <= POT_LIMIT,
                f == flows_of(arcs@, costs@.len() as int),
                u == pot@.subrange(0, m as int),
                v == pot@.subrange(m as int, (m + k) as int),
                i < m,
                j <= k,
                (i as int) * (k as int) >= 0,
                (i as int) * (k as int) + (k as int) <= costs@.len(),
                forall|i2: int, j2: int|
                    0 <= i2 < i && 0 <= j2 < k ==> #[trigger] cert_entry(
                        f,
                        u,
                        v,
                        costs@,
                        k as int,
                        i2,
                        j2,
                    ),
                forall|j2: int|
                    0 <= j2 < j ==> #[trigger] cert_entry(f, u, v, costs@, k as int, i as int, j2),
            decreases k - j,
        {
            let idx = i * k + j;
            let rc: i128 = costs[idx] as i128 - pot[i] + pot[m + j];
            if rc < 0 {
                return false;
            }
            if arcs[idx].flow > 0 && rc != 0 {
                return false;
            }
            proof {
                assert(at2(costs@, k as int, i as int, j as int) == costs@[idx as int]);
                assert(at2(f, k as int, i as int, j as int) == arcs@[idx as int].flow);
                assert(u[i as int] == pot@[i as int]);
                assert(v[j as int] == pot@[(m + j) as int]);
                assert(cert_entry(f, u, v, costs@, k as int, i as int, j as int));
            }
            j = j + 1;
        }
        i = i + 1;
    }
    proof {
        assert forall|i2: int, j2: int| 0 <= i2 < m && 0 <= j2 < k implies (#[trigger] at2(
            costs@,
            k as int,
            i2,
            j2,
        ) as int) >= u[i2] - v[j2] && (at2(f, k as int, i2, j2) > 0 ==> (at2(
            costs@,
            k as int,
            i2,
            j2,
        ) as int) == u[i2] - v[j2]) by {
            assert(cert_entry(f, u, v, costs@, k as int, i2, j2));
        }
    }
    true
}

fn check_plan(
    arcs: &Vec<FlowArc>,
    supplies: &Vec<u64>,
    demands: &Vec<u64>,
    costs: &Vec<u64>,
) -> (r: Option<u64>)
    requires
        supplies@.len() >= 1,
        demands@.len() >= 1,
        costs@.len() == supplies@.len() * demands@.len(),
        costs@.len() <= arcs@.len(),
        forall|t: int| 0 <= t < costs@.len() ==> (#[trigger] arcs@[t]).cost == costs@[t],
    ensures
        match r {
            Some(c) => is_feasible_plan(
                flows_of(arcs@, costs@.len() as int),
                supplies@,
                demands@,
            ) && plan_cost(flows_of(arcs@, costs@.len() as int), costs@) == c,
            None => true,
        },
{
    let m = supplies.len();
    let k = demands.len();
    let mk = costs.len();
    let ghost f = flows_of(arcs@, mk as int);
    let mut i: usize = 0;
    while i < m
        invariant
            m == supplies@.len(),
            k == demands@.len(),
            mk == costs@.len(),
            mk as int == (m as int) * (k as int),
            mk <= arcs@.len(),
            f == flows_of(arcs@, mk as int),
            i <= m,
            forall|i2: int| 0 <= i2 < i ==> row_sum(f, k as int, i2) == supplies@[i2],
        decreases m - i,
    {
        proof {
            assert((i as int) * (k as int) + (k as int) <= (m as int) * (k as int))
                by (nonlinear_arith)
                requires
                    (i as int) < (m as int),
                    0 <= (i as int),
                    0 <= (k as int),
            ;
            assert((i as int) * (k as int) >= 0) by (nonlinear_arith)
                requires
                    0 <= (i as int),
                    0 <= (k as int),
            ;
        }
        let base = i * k;
        let mut acc: u128 = 0;
        let mut j: usize = 0;
        while j < k
            invariant
                m == supplies@.len(),
                k == demands@.len(),
                mk == costs@.len(),
                mk as int == (m as int) * (k as int),
                mk <= arcs@.len(),
                f == flows_of(arcs@, mk as int),
                i < m,
                base as int == (i as int) * (k as int),
                base + k <= mk,
                j <= k,
                acc == mass_sum(f.subrange(base as int, base as int + j as int)),
            decreases k - j,
        {
            proof {
                assert(f.subrange(base as int, base as int + j as int + 1).drop_last()
                    =~= f.subrange(base as int, base as int + j as int));
                crate::onedim::lemma_mass_sum_len_bound(
                    f.subrange(base as int, base as int + j as int),
                );
                assert((j as int) * (u64::MAX as int) + (u64::MAX as int) <= u128::MAX as int)
                    by (nonlinear_arith)
                    requires
                        0 <= j as int <= u64::MAX,
                ;
            }
            acc = acc + arcs[base + j].flow as u128;
            j = j + 1;
        }
        if acc != supplies[i] as u128 {
            return None;
        }
        proof {
            assert(row_sum(f, k as int, i as int) == mass_sum(
                f.subrange(base as int, base as int + k as int),
            ));
        }
        i = i + 1;
    }
    let mut j: usize = 0;
    while j < k
        invariant
            m == supplies@.len(),
            k == demands@.len(),
            mk == costs@.len(),
            mk as int == (m as int) * (k as int),
            mk <= arcs@.len(),
            f == flows_of(arcs@, mk as int),
            j <= k,
            forall|i2: int| 0 <= i2 < m ==> row_sum(f, k as int, i2) == supplies@[i2],
            forall|j2: int| 0 <= j2 < j ==> col_sum(f, k as int, j2, m as int) == demands@[j2],
        decreases k - j,
    {
        let mut acc: u128 = 0;
        let mut i2: usize = 0;
        while i2 < m
            invariant
                m == supplies@.len(),
                k == demands@.len(),
                mk == costs@.len(),
                mk as int == (m as int) * (k as int),
                mk <= arcs@.len(),
                f == flows_of(arcs@, mk as int),
                j < k,
                i2 <= m,
                acc == col_sum(f, k as int, j as int, i2 as int),
                acc <= (i2 as int) * (u64::MAX as int),
            decreases m - i2,
        {
            proof {
                assert((i2 as int) * (k as int) + (j as int) < (m as int) * (k as int))
                    by (nonlinear_arith)
                    requires
                        0 <= i2 as int,
                        (i2 as int) < (m as int),
                        0 <= j as int,
                        (j as int) < (k as int),
                ;
                assert((i2 as int) * (k as int) + (j as int) >= 0) by (nonlinear_arith)
                    requires
                        0 <= i2 as int,
                        0 <= j as int,
                        0 <= k as int,
                ;
                assert((i2 as int) * (u64::MAX as int) + (u64::MAX as int) <= u128::MAX as int)
                    by (nonlinear_arith)
                    requires
                        0 <= i2 as int <= u64::MAX,
                ;
                assert((i2 as int) * (u64::MAX as int) + (u64::MAX as int) == ((i2 as int) + 1) * (
                u64::MAX as int)) by (nonlinear_arith);
            }
            acc = acc + arcs[i2 * k + j].flow as u128;
            i2 = i2 + 1;
        }
        if acc != demands[j] as u128 {
            return None;
        }
        j = j + 1;
    }
    let mut t: usize = 0;
    let mut total: u128 = 0;
    while t < mk
        invariant
            m == supplies@.len(),
            k == demands@.len(),
            mk == costs@.len(),
            mk as int == (m as int) * (k as int),
            mk <= arcs@.len(),
            f == flows_of(arcs@, mk as int),
            forall|t2: int| 0 <= t2 < mk ==> (#[trigger] arcs@[t2]).cost == costs@[t2],
            t <= mk,
            total == plan_cost(f.take(t as int), costs@.take(t as int)),
            forall|i2: int| 0 <= i2 < m ==> row_sum(f, k as int, i2) == supplies@[i2],
            forall|j2: int| 0 <= j2 < k ==> col_sum(f, k as int, j2, m as int) == demands@[j2],
        decreases mk - t,
    {
        let fl = arcs[t].flow;
        let co = arcs[t].cost;
        proof {
            assert((fl as int) * (co as int) <= (u64::MAX as int) * (u64::MAX as int))
                by (nonlinear_arith)
                requires
                    0 <= fl as int <= u64::MAX as int,
                    0 <= co as int <= u64::MAX as int,
            ;
            lemma_plan_cost_take_succ(f, costs@, t as int);
        }
        let prod: u128 = fl as u128 * co as u128;
        if prod > u128::MAX - total {
            return None;
        }
        total = total + prod;
        t = t + 1;
    }
    proof {
        assert(f.take(mk as int) =~= f);
        assert(costs@.take(mk as int) =~= costs@);
        assert(f.len() == (supplies@.len() as int) * (demands@.len() as int));
    }
    if total > u64::MAX as u128 {
        return None;
    }
    Some(total as u64)
}

/// Defensive cap on the number of simplex pivots: a large multiple of the
/// problem size, saturated at the integer limit.
fn pivot_cap(n_arcs: usize, n_nodes: usize) -> (cap: u64) {
    let p: u64 = match (n_arcs as u64).checked_mul(n_nodes as u64) {
        Some(x) => x,
        None => u64::MAX,
    };
    let q: u64 = match p.checked_mul(32) {
        Some(x) => x,
        None => u64::MAX,
    };
    match q.checked_add(1000) {
        Some(x) => x,
        None => u64::MAX,
    }
}

/// Minimum-cost transport by network simplex.
///
/// Shipping one unit from supply node `i` to demand node `j` costs
/// `costs[i * demands.len() + j]`. Starting from the feasible basis formed
/// by artificial high-cost arcs through an artificial root, the solver
/// repeatedly brings the lowest-indexed arc with negative reduced cost into
/// the spanning-tree basis, pushes flow around the unique cycle it closes,
/// drops the first arc of the cycle to run dry, and recomputes depths and
/// dual potentials of the basis, until no arc prices out negative or the
/// pivot cap is hit.
///
/// A returned cost is certified twice over: before returning, the solver
/// re-checks that the flows on the real arcs ship every supply and fill
/// every demand exactly, and that the final potentials price every arc at
/// or above its cost with equality on every arc that carries flow — so
/// `Ok(c)` means `c` is the exact minimum cost over all feasible transport
/// plans. Every defensive guard (pivot cap, potential range, basis not
/// spanning, infeasible flows, failed pricing) surfaces as
/// `SolverDidNotConverge`. Termination at an optimal basis within the cap
/// is a property of the pivot rule that this contract does not promise:
/// proving it needs the simplex anti-cycling argument, so success on the
/// pivot path is exercised by tests rather than owed here.
pub fn solve_transport(supplies: &Vec<u64>, demands: &Vec<u64>, costs: &Vec<u64>) -> (r: Result<
    u64,
    Error,
>)
    requires
        supplies@.len() >= 1,
        demands@.len() >= 1,
        (supplies@.len() + 1) * (demands@.len() + 1) <= usize::MAX,
        costs@.len() == supplies@.len() * demands@.len(),
        mass_sum(supplies@) == mass_sum(demands@),
        mass_sum(supplies@) * seq_max(costs@) + 1 <= u64::MAX,
    ensures
        match r {
            Ok(c) => (exists|f: Seq<u64>|
                is_feasible_plan(f, supplies@, demands@) && plan_cost(f, costs@) == c) && (
            forall|g: Seq<u64>|
                #[trigger] is_feasible_plan(g, supplies@, demands@) ==> plan_cost(g, costs@) >= c)
                && (exists|u: Seq<i128>, v: Seq<i128>|
                u.len() == supplies@.len() && v.len() == demands@.len() && #[trigger] dual_feasible(
                    u,
                    v,
                    costs@,
                    supplies@.len() as int,
                    demands@.len() as int,
                ) && dot_prefix(u, supplies@, supplies@.len() as int) - dot_prefix(
                    v,
                    demands@,
                    demands@.len() as int,
                ) == c),
            Err(e) => e == Error::SolverDidNotConverge,
        },
{
    let m = supplies.len();
    let k = demands.len();
    proof {
        assert((m as int) * (k as int) + (m as int) + (k as int) + 1 == ((m as int) + 1) * ((
        k as int) + 1)) by (nonlinear_arith);
        assert((m as int) * (k as int) >= 0) by (nonlinear_arith)
            requires
                0 <= m as int,
                0 <= k as int,
        ;
        crate::onedim::lemma_mass_sum_nonneg(supplies@);
        lemma_seq_max_nonneg(costs@);
        assert(m + k + 1 <= usize::MAX);
    }
    let real_count = m * k;
    let root = m + k;
    let n_nodes = m + k + 1;
    let s_total: u128 = crate::onedim::total_mass(supplies);
    let mut cmax: u64 = 0;
    let mut ci: usize = 0;
    while ci < real_count
        invariant
            real_count == costs@.len(),
            ci <= real_count,
            cmax == seq_max(costs@.take(ci as int)),
        decreases real_count - ci,
    {
        proof {
            assert(costs@.take(ci as int + 1).drop_last() =~= costs@.take(ci as int));
        }
        if costs[ci] >= cmax {
            cmax = costs[ci];
        }
        ci = ci + 1;
    }
    proof {
        assert(costs@.take(real_count as int) =~= costs@);
    }
    let big_m: u64 = (s_total * cmax as u128 + 1) as u64;
    // Real arcs, one per (supply, demand) pair, in row-major index order.
    let mut arcs: Vec<FlowArc> = Vec::new();
    let mut bi: usize = 0;
    while bi < m
        invariant
            m == supplies@.len(),
            k == demands@.len(),
            real_count as int == (m as int) * (k as int),
            real_count == costs@.len(),
            bi <= m,
            m + k + 1 <= usize::MAX,
            arcs@.len() == (bi as int) * (k as int),
            arcs_wf(arcs@, (m + k + 1) as int),
            forall|t: int| 0 <= t < arcs@.len() ==> (#[trigger] arcs@[t]).cost == costs@[t],
        decreases m - bi,
    {
        let mut bj: usize = 0;
        proof {
            assert((bi as int) * (k as int) + (k as int) <= (m as int) * (k as int))
                by (nonlinear_arith)
                requires
                    0 <= bi as int,
                    (bi as int) < (m as int),
                    0 <= k as int,
            ;
            assert((bi as int) * (k as int) >= 0) by (nonlinear_arith)
                requires
                    0 <= bi as int,
                    0 <= k as int,
            ;
        }
        while bj < k
            invariant
                m == supplies@.len(),
                k == demands@.len(),
                real_count as int == (m as int) * (k as int),
                real_count == costs@.len(),
                bi < m,
                bj <= k,
                m + k + 1 <= usize::MAX,
                (bi as int) * (k as int) >= 0,
                (bi as int) * (k as int) + (k as int) <= real_count as int,
                arcs@.len() == (bi as int) * (k as int) + (bj as int),
                arcs_wf(arcs@, (m + k + 1) as int),
                forall|t: int| 0 <= t < arcs@.len() ==> (#[trigger] arcs@[t]).cost == costs@[t],
            decreases k - bj,
        {
            arcs.push(
                FlowArc {
                    from: bi,
                    to: m + bj,
                    cost: costs[bi * k + bj],
                    flow: 0,
                    in_tree: false,
                },
            );
            bj = bj + 1;
        }
        proof {
            assert(((bi as int) + 1) * (k as int) == (bi as int) * (k as int) + (k as int))
                by (nonlinear_arith);
        }
        bi = bi + 1;
    }
    // Artificial arcs: every supply ships to the root, the root ships to
    // every demand; that basis is feasible because total supply equals
    // total demand.
    let mut ai: usize = 0;
    while ai < m
        invariant
            m == supplies@.len(),
            k == demands@.len(),
            ai <= m,
            root == m + k,
            m + k + 1 <= usize::MAX,
            real_count == costs@.len(),
            arcs@.len() == real_count + ai,
            arcs_wf(arcs@, (m + k + 1) as int),
            forall|t: int|
                0 <= t < real_count && t < arcs@.len() ==> (#[trigger] arcs@[t]).cost == costs@[t],
            forall|t: int|
                real_count <= t < arcs@.len() ==> (#[trigger] arcs@[t]).in_tree,
        decreases m - ai,
    {
        arcs.push(
            FlowArc { from: ai, to: root, cost: big_m, flow: supplies[ai], in_tree: true },
        );
        ai = ai + 1;
    }
    let mut aj: usize = 0;
    while aj < k
        invariant
            m == supplies@.len(),
            k == demands@.len(),
            aj <= k,
            root == m + k,
            m + k + 1 <= usize::MAX,
            real_count == costs@.len(),
            arcs@.len() == real_count + m + aj,
            arcs_wf(arcs@, (m + k + 1) as int),
            forall|t: int|
                0 <= t < real_count && t < arcs@.len() ==> (#[trigger] arcs@[t]).cost == costs@[t],
            forall|t: int|
                real_count <= t < arcs@.len() ==> (#[trigger] arcs@[t]).in_tree,
        decreases k - aj,
    {
        arcs.push(
            FlowArc {
                from: root,
                to: m + aj,
                cost: big_m,
                flow: demands[aj],
                in_tree: true,
            },
        );
        aj = aj + 1;
    }
    let n_arcs = arcs.len();
    let mut parent: Vec<usize> = Vec::new();
    let mut parent_arc: Vec<usize> = Vec::new();
    let mut depth: Vec<usize> = Vec::new();
    let mut pot: Vec<i128> = Vec::new();
    let mut zi: usize = 0;
    while zi < n_nodes
        invariant
            zi <= n_nodes,
            parent@.len() == zi,
            parent_arc@.len() == zi,
            depth@.len() == zi,
            pot@.len() == zi,
        decreases n_nodes - zi,
    {
        parent.push(0);
        parent_arc.push(0);
        depth.push(0);
        pot.push(0);
        zi = zi + 1;
    }
    if !rebuild_tree(&arcs, n_nodes, root, &mut parent, &mut parent_arc, &mut depth, &mut pot) {
        return Err(Error::SolverDidNotConverge);
    }
    let cap: u64 = pivot_cap(n_arcs, n_nodes);
    let mut pivots: u64 = 0;
    let mut converged: bool = false;
    while pivots < cap && !converged
        invariant
            m == supplies@.len(),
            k == demands@.len(),
            m >= 1,
            k >= 1,
            real_count as int == (m as int) * (k as int),
            real_count == costs@.len(),
            n_nodes == m + k + 1,
            root == m + k,
            n_arcs == arcs@.len(),
            real_count <= n_arcs,
            n_arcs >= 1,
            arcs_wf(arcs@, n_nodes as int),
            tree_wf(parent@, parent_arc@, depth@, pot@, n_nodes as int, n_arcs as int),
            forall|t: int| 0 <= t < real_count ==> (#[trigger] arcs@[t]).cost == costs@[t],
            pivots <= cap,
        decreases cap - pivots,
    {
        pivots = pivots + 1;
        // Entering arc: the lowest-indexed non-tree arc whose reduced cost
        // is negative. None left means the basis is optimal.
        let mut entering: usize = 0;
        let mut found: bool = false;
        let mut t: usize = 0;
        while t < real_count
            invariant
                n_arcs == arcs@.len(),
                real_count <= n_arcs,
                n_nodes == m + k + 1,
                arcs_wf(arcs@, n_nodes as int),
                tree_wf(parent@, parent_arc@, depth@, pot@, n_nodes as int, n_arcs as int),
                t <= real_count,
                found ==> entering < real_count,
            decreases real_count - t,
        {
            if !found && !arcs[t].in_tree {
                let fr = arcs[t].from;
                let to = arcs[t].to;
                let rc: i128 = arcs[t].cost as i128 - pot[fr] + pot[to];
                if rc < 0 {
                    entering = t;
                    found = true;
                }
            }
            t = t + 1;
        }
        if !found {
            converged = true;
        } else {
            // The cycle the entering arc closes: walk both endpoints up to
            // their common ancestor, recording each tree arc and whether the
            // cycle traverses it along its orientation.
            let u0 = arcs[entering].from;
            let v0 = arcs[entering].to;
            let mut cu = u0;
            let mut cv = v0;
            let mut cyc_arcs: Vec<usize> = Vec::new();
            let mut cyc_fwd: Vec<bool> = Vec::new();
            let mut fuel: u64 = match (n_nodes as u64).checked_mul(2) {
                Some(x) => x,
                None => u64::MAX,
            };
            while cu != cv && fuel > 0
                invariant
                    n_arcs == arcs@.len(),
                    n_nodes == m + k + 1,
                    arcs_wf(arcs@, n_nodes as int),
                    tree_wf(parent@, parent_arc@, depth@, pot@, n_nodes as int, n_arcs as int),
                    cu < n_nodes,
                    cv < n_nodes,
                    cyc_arcs@.len() == cyc_fwd@.len(),
                    forall|x: int| 0 <= x < cyc_arcs@.len() ==> (#[trigger] cyc_arcs@[x]) < n_arcs,
                decreases fuel,
            {
                let du = depth[cu];
                let dv = depth[cv];
                if du >= dv {
                    let a = parent_arc[cu];
                    cyc_arcs.push(a);
                    cyc_fwd.push(arcs[a].from != cu);
                    cu = parent[cu];
                } else {
                    let a = parent_arc[cv];
                    cyc_arcs.push(a);
                    cyc_fwd.push(arcs[a].from == cv);
                    cv = parent[cv];
                }
                fuel = fuel - 1;
            }
            if cu != cv {
                return Err(Error::SolverDidNotConverge);
            }
            // Flow increment: the smallest flow on an arc the cycle
            // traverses against its orientation; the first such arc to run
            // dry leaves the basis.
            let clen = cyc_arcs.len();
            let mut delta: u64 = 0;
            let mut have: bool = false;
            let mut leaving: usize = 0;
            let mut w: usize = 0;
            while w < clen
                invariant
                    n_arcs == arcs@.len(),
                    clen == cyc_arcs@.len(),
                    clen == cyc_fwd@.len(),
                    forall|x: int| 0 <= x < cyc_arcs@.len() ==> (#[trigger] cyc_arcs@[x]) < n_arcs,
                    w <= clen,
                    have ==> leaving < n_arcs,
                decreases clen - w,
            {
                if !cyc_fwd[w] {
                    let a = cyc_arcs[w];
                    let fl = arcs[a].flow;
                    if !have || fl < delta {
                        delta = fl;
                        leaving = a;
                        have = true;
                    }
                }
                w = w + 1;
            }
            if !have {
                return Err(Error::SolverDidNotConverge);
            }
            // Push the increment around the cycle.
            let mut w2: usize = 0;
            while w2 < clen
                invariant
                    n_arcs == arcs@.len(),
                    n_nodes == m + k + 1,
                    real_count <= n_arcs,
                    clen == cyc_arcs@.len(),
                    clen == cyc_fwd@.len(),
                    forall|x: int| 0 <= x < cyc_arcs@.len() ==> (#[trigger] cyc_arcs@[x]) < n_arcs,
                    w2 <= clen,
                    arcs_wf(arcs@, n_nodes as int),
                    forall|t2: int|
                        0 <= t2 < real_count ==> (#[trigger] arcs@[t2]).cost == costs@[t2],
                decreases clen - w2,
            {
                let a = cyc_arcs[w2];
                let old_flow = arcs[a].flow;
                let was_tree = arcs[a].in_tree;
                let nf: u64 = if cyc_fwd[w2] {
                    match old_flow.checked_add(delta) {
                        Some(x) => x,
                        None => {
                            return Err(Error::SolverDidNotConverge);
                        },
                    }
                } else {
                    match old_flow.checked_sub(delta) {
                        Some(x) => x,
                        None => {
                            return Err(Error::SolverDidNotConverge);
                        },
                    }
                };
                set_arc_state(&mut arcs, a, nf, was_tree);
                w2 = w2 + 1;
            }
            let ent_flow = match arcs[entering].flow.checked_add(delta) {
                Some(x) => x,
                None => {
                    return Err(Error::SolverDidNotConverge);
                },
            };
            set_arc_state(&mut arcs, entering, ent_flow, true);
            let leave_flow = arcs[leaving].flow;
            set_arc_state(&mut arcs, leaving, leave_flow, false);
            if !rebuild_tree(
                &arcs,
                n_nodes,
                root,
                &mut parent,
                &mut parent_arc,
                &mut depth,
                &mut pot,
            ) {
                return Err(Error::SolverDidNotConverge);
            }
        }
    }
    if !converged {
        return Err(Error::SolverDidNotConverge);
    }
    proof {
        assert forall|x: int| 0 <= x < pot@.len() implies -POT_LIMIT <= #[trigger] pot@[x]
            <= POT_LIMIT by {
            assert(pot@[x] == pot@[x]);
        }
    }
    if !check_certificate(&arcs, &pot, &costs, m, k) {
        return Err(Error::SolverDidNotConverge);
    }
    match check_plan(&arcs, supplies, demands, costs) {
        Some(c) => {
            proof {
                let f = flows_of(arcs@, costs@.len() as int);
                let u = pot@.subrange(0, m as int);
                let v = pot@.subrange(m as int, (m + k) as int);
                assert(is_feasible_plan(f, supplies@, demands@) && plan_cost(f, costs@) == c);
                lemma_tight_duality(f, u, v, supplies@, demands@, costs@);
                assert(u.len() == supplies@.len() && v.len() == demands@.len() && dual_feasible(
                    u,
                    v,
                    costs@,
                    supplies@.len() as int,
                    demands@.len() as int,
                ) && dot_prefix(u, supplies@, supplies@.len() as int) - dot_prefix(
                    v,
                    demands@,
                    demands@.len() as int,
                ) == c);
                assert forall|g: Seq<u64>|
                    #[trigger] is_feasible_plan(g, supplies@, demands@) implies plan_cost(
                    g,
                    costs@,
                ) >= c by {
                    lemma_weak_duality(g, u, v, supplies@, demands@, costs@);
                }
            }
            Ok(c)
        },
        None => Err(Error::SolverDidNotConverge),
    }
}

} // verus!
