//! Residual error grids and the score of a decoder's output.
use vstd::prelude::*;
use crate::lattice::is_data;
use crate::grid::{Grid, flip_all, all_within, toggle};
use crate::model::{Input, Instance, Output, Rounds, rounds_view};
use crate::syndrome::{fault_count, faults_below, row_faults, faulty, count_faulty};
use crate::sweep::{reduced, sweep};
use crate::validate::{CorrectionError, all_ok, is_first_error, round_ok, list_ok, coord_ok, validate};

verus! {

/// A `d` by `d` grid with every bit clear.
pub fn clear_grid(d: usize) -> (g: Grid)
    ensures
        g.wf(),
        g.side() == d,
        g@ == clear(d as int),
{
    let g = Grid::new(d);
    assert forall|i: int| 0 <= i < d implies #[trigger] g@[i] == clear(d as int)[i] by {
        assert forall|j: int| 0 <= j < d implies #[trigger] g@[i][j] == clear(d as int)[i][j] by {
            assert(!crate::grid::bit(g@, i, j));
        }
        assert(g@[i] =~= clear(d as int)[i]);
    }
    assert(g@ =~= clear(d as int));
    g
}

/// The `d` by `d` grid with every bit clear.
pub open spec fn clear(d: int) -> Seq<Seq<bool>> {
    Seq::new(d as nat, |i: int| Seq::new(d as nat, |j: int| false))
}

/// The grid after applying every round's toggles, in round order.
pub open spec fn flip_rounds(g: Seq<Seq<bool>>, rs: Seq<Seq<(usize, usize)>>) -> Seq<Seq<bool>>
    decreases rs.len(),
{
    if rs.len() == 0 {
        g
    } else {
        flip_all(flip_rounds(g, rs.drop_last()), rs.last())
    }
}

/// The residual grid of one channel: the errors of every round, then the
/// corrections of every round, toggled into a clear grid.
pub open spec fn residual(d: int, errors: Rounds, corrections: Rounds) -> Seq<Seq<bool>> {
    flip_rounds(flip_rounds(clear(d), rounds_view(errors)), rounds_view(corrections))
}

/// Number of measurement cells `(r, c)` with `c < n`.
pub open spec fn row_measurements(r: int, n: int) -> nat
    decreases n,
{
    if n <= 0 {
        0
    } else {
        row_measurements(r, n - 1) + if !is_data(r, n - 1) { 1nat } else { 0nat }
    }
}

/// Number of measurement cells in rows below `m` of a lattice of side `d`.
pub open spec fn measurements_below(d: int, m: int) -> nat
    decreases m,
{
    if m <= 0 {
        0
    } else {
        measurements_below(d, m - 1) + row_measurements(m - 1, d)
    }
}

/// The number of measurement cells of a lattice of side `d`.
pub open spec fn measurement_total(d: int) -> nat {
    measurements_below(d, d)
}

/// `round(5000 * (m - f) / m)`, halves rounded up; a lattice without
/// measurement cells has nothing faulty and gets the full 5000.
pub open spec fn base_points(m: int, f: int) -> int {
    if m == 0 {
        5000
    } else {
        (10000 * (m - f) + m) / (2 * m)
    }
}

/// The bonus from the two residual class indicators.
pub open spec fn bonus_points(a: bool, b: bool) -> int {
    if !a && !b {
        5000
    } else if a != b {
        2000
    } else {
        0
    }
}

/// The score of one instance from its two residual grids.
pub open spec fn grid_score(d: int, gx: Seq<Seq<bool>>, gz: Seq<Seq<bool>>) -> int {
    let f = fault_count(gx, gz, Seq::empty(), d) as int;
    base_points(measurement_total(d) as int, f) + if f == 0 {
        bonus_points(reduced(gx, d, false)[0][0], reduced(gz, d, true)[0][0])
    } else {
        0
    }
}

/// The score of instance `k`.
pub open spec fn instance_score(input: &Input, output: &Output, k: int) -> int {
    let d = input.d as int;
    grid_score(
        d,
        residual(d, input.testcase@[k].x_depolarizing_error, output.x_correction@[k]),
        residual(d, input.testcase@[k].z_depolarizing_error, output.z_correction@[k]),
    )
}

/// The sum of the scores of the instances below `n`.
pub open spec fn score_below(input: &Input, output: &Output, n: int) -> int
    decreases n,
{
    if n <= 0 {
        0
    } else {
        score_below(input, output, n - 1) + instance_score(input, output, n - 1)
    }
}

/// The score of a whole input.
pub open spec fn total_score(input: &Input, output: &Output) -> int {
    score_below(input, output, input.t as int)
}

proof fn lemma_row_faults_le(gx: Seq<Seq<bool>>, gz: Seq<Seq<bool>>, r: int, n: int)
    ensures
        row_faults(gx, gz, Seq::empty(), r, n) <= row_measurements(r, n),
    decreases n,
{
    if n > 0 {
        lemma_row_faults_le(gx, gz, r, n - 1);
    }
}

proof fn lemma_faults_le(gx: Seq<Seq<bool>>, gz: Seq<Seq<bool>>, d: int, m: int)
    ensures
        faults_below(gx, gz, Seq::empty(), d, m) <= measurements_below(d, m),
    decreases m,
{
    if m > 0 {
        lemma_faults_le(gx, gz, d, m - 1);
        lemma_row_faults_le(gx, gz, m - 1, d);
    }
}

/// A grid's faulty syndrome count never exceeds the number of measurement cells.
pub proof fn lemma_faults_within_total(gx: Seq<Seq<bool>>, gz: Seq<Seq<bool>>, d: int)
    ensures
        fault_count(gx, gz, Seq::empty(), d) <= measurement_total(d),
{
    lemma_faults_le(gx, gz, d, d);
}

proof fn lemma_base_bounds(m: int, f: int)
    requires
        0 <= f <= m,
    ensures
        0 <= base_points(m, f) <= 5000,
        f == 0 ==> base_points(m, f) == 5000,
{
    if m > 0 {
        assert(0 <= 10000 * (m - f) + m) by (nonlinear_arith)
            requires
                0 <= f <= m,
        ;
        assert(10000 * (m - f) + m < 5001 * (2 * m)) by (nonlinear_arith)
            requires
                0 <= f <= m,
                m > 0,
        ;
        let x = 10000 * (m - f) + m;
        let q = x / (2 * m);
        vstd::arithmetic::div_mod::lemma_div_pos_is_pos(x, 2 * m);
        vstd::arithmetic::div_mod::lemma_fundamental_div_mod(x, 2 * m);
        assert(q < 5001) by (nonlinear_arith)
            requires
                x == (2 * m) * q + x % (2 * m),
                x % (2 * m) >= 0,
                x < 5001 * (2 * m),
                m > 0,
        ;
        if f == 0 {
            assert(10000 * m + m == 5000 * (2 * m) + m) by (nonlinear_arith);
            vstd::arithmetic::div_mod::lemma_fundamental_div_mod_converse(
                10000 * m + m,
                2 * m,
                5000,
                m,
            );
        }
    }
}

/// Every instance scores between 0 and 10000.
pub proof fn law_score_bounds(d: int, gx: Seq<Seq<bool>>, gz: Seq<Seq<bool>>)
    ensures
        0 <= grid_score(d, gx, gz) <= 10000,
{
    lemma_faults_within_total(gx, gz, d);
    lemma_base_bounds(
        measurement_total(d) as int,
        fault_count(gx, gz, Seq::empty(), d) as int,
    );
}

proof fn lemma_flip_rounds_empty(g: Seq<Seq<bool>>, rs: Seq<Seq<(usize, usize)>>)
    requires
        forall|r: int| 0 <= r < rs.len() ==> (#[trigger] rs[r]).len() == 0,
    ensures
        flip_rounds(g, rs) == g,
    decreases rs.len(),
{
    if rs.len() > 0 {
        let p = rs.drop_last();
        assert forall|r: int| 0 <= r < p.len() implies (#[trigger] p[r]).len() == 0 by {
            assert(p[r] == rs[r]);
        }
        lemma_flip_rounds_empty(g, p);
        assert(rs[rs.len() - 1].len() == 0);
    }
}

proof fn lemma_clear_no_faults(d: int, m: int)
    ensures
        faults_below(clear(d), clear(d), Seq::empty(), d, m) == 0,
    decreases m,
{
    if m > 0 {
        lemma_clear_no_faults(d, m - 1);
        lemma_clear_row_no_faults(d, m - 1, d);
    }
}

proof fn lemma_clear_row_no_faults(d: int, r: int, n: int)
    ensures
        row_faults(clear(d), clear(d), Seq::empty(), r, n) == 0,
    decreases n,
{
    if n > 0 {
        lemma_clear_row_no_faults(d, r, n - 1);
        assert(!faulty(clear(d), clear(d), Seq::empty(), r, n - 1));
    }
}

proof fn lemma_sweep_line_clear(d: int, across: bool, a: int, n: int)
    requires
        0 <= a,
        a + 1 < d,
        n <= d,
    ensures
        crate::sweep::sweep_line(clear(d), d, across, a, n) == clear(d),
    decreases n,
{
    if n > 0 {
        lemma_sweep_line_clear(d, across, a, n - 1);
    }
}

proof fn lemma_sweep_lines_clear(d: int, across: bool, m: int)
    requires
        d % 2 == 1,
        m <= d,
    ensures
        crate::sweep::sweep_lines(clear(d), d, across, m) == clear(d),
    decreases m,
{
    if m > 0 {
        if (m - 1) % 2 == 1 {
            lemma_sweep_line_clear(d, across, m - 1, d);
        }
        lemma_sweep_lines_clear(d, across, m - 1);
    }
}

/// A lattice with no residual error anywhere scores the full 10000: no
/// defect is reported and both error types reduce to the trivial class.
pub proof fn law_clean_lattice_scores_full(d: int)
    requires
        d > 0,
        d % 2 == 1,
    ensures
        fault_count(clear(d), clear(d), Seq::empty(), d) == 0,
        !reduced(clear(d), d, false)[0][0],
        !reduced(clear(d), d, true)[0][0],
        grid_score(d, clear(d), clear(d)) == 10000,
{
    lemma_clear_no_faults(d, d);
    lemma_sweep_lines_clear(d, false, d);
    lemma_sweep_lines_clear(d, true, d);
    lemma_base_bounds(measurement_total(d) as int, 0);
}

/// An instance with no error events and no corrections in any round scores
/// exactly 10000.
pub proof fn law_untouched_instance_scores_full(input: &Input, output: &Output, k: int)
    requires
        input.wf(),
        output.fits(input.t as int, input.c as int),
        0 <= k < input.t,
        forall|r: int|
            0 <= r < input.c ==> (#[trigger] input.testcase@[k].x_depolarizing_error@[r])@.len()
                == 0 && input.testcase@[k].z_depolarizing_error@[r]@.len() == 0,
        forall|r: int|
            0 <= r < input.c ==> (#[trigger] output.x_correction@[k]@[r])@.len() == 0
                && output.z_correction@[k]@[r]@.len() == 0,
    ensures
        instance_score(input, output, k) == 10000,
{
    let d = input.d as int;
    let inst = input.testcase@[k];
    assert(inst.wf(input.c as int, d));
    let xe = rounds_view(inst.x_depolarizing_error);
    let ze = rounds_view(inst.z_depolarizing_error);
    let xc = rounds_view(output.x_correction@[k]);
    let zc = rounds_view(output.z_correction@[k]);
    assert forall|r: int| 0 <= r < xe.len() implies (#[trigger] xe[r]).len() == 0 by {
        assert(inst.x_depolarizing_error@[r]@.len() == 0);
    }
    assert forall|r: int| 0 <= r < ze.len() implies (#[trigger] ze[r]).len() == 0 by {
        assert(inst.x_depolarizing_error@[r]@.len() == 0);
    }
    assert forall|r: int| 0 <= r < xc.len() implies (#[trigger] xc[r]).len() == 0 by {
        assert(output.x_correction@[k]@[r]@.len() == 0);
    }
    assert forall|r: int| 0 <= r < zc.len() implies (#[trigger] zc[r]).len() == 0 by {
        assert(output.x_correction@[k]@[r]@.len() == 0);
    }
    lemma_flip_rounds_empty(clear(d), xe);
    lemma_flip_rounds_empty(clear(d), ze);
    lemma_flip_rounds_empty(clear(d), xc);
    lemma_flip_rounds_empty(clear(d), zc);
    law_clean_lattice_scores_full(d);
}

/// Applies the toggles of the first `n` rounds to `g`, in round order.
pub fn apply_rounds(g: &mut Grid, rounds: &Rounds, n: usize)
    requires
        old(g).wf(),
        n <= rounds@.len(),
        forall|r: int| 0 <= r < n ==> all_within(#[trigger] rounds@[r]@, old(g).side()),
    ensures
        final(g).wf(),
        final(g).side() == old(g).side(),
        final(g)@ == flip_rounds(old(g)@, rounds_view(*rounds).take(n as int)),
{
    let ghost start = g@;
    let mut r: usize = 0;
    while r < n
        invariant
            g.wf(),
            g.side() == old(g).side(),
            r <= n,
            n <= rounds@.len(),
            forall|q: int| 0 <= q < n ==> all_within(#[trigger] rounds@[q]@, g.side()),
            g@ == flip_rounds(start, rounds_view(*rounds).take(r as int)),
        decreases n - r,
    {
        proof {
            let rv = rounds_view(*rounds);
            assert(rv.take(r as int + 1).drop_last() =~= rv.take(r as int));
            assert(rv.take(r as int + 1).last() == rounds@[r as int]@);
        }
        toggle(g, &rounds[r]);
        r += 1;
    }
}

/// Counts the measurement cells of a lattice of side `d`.
pub fn count_measurement_cells(d: usize) -> (n: usize)
    requires
        d * d <= usize::MAX,
    ensures
        n == measurement_total(d as int),
{
    let mut n: usize = 0;
    let mut r: usize = 0;
    while r < d
        invariant
            d * d <= usize::MAX,
            r <= d,
            n == measurements_below(d as int, r as int),
            n <= r * d,
        decreases d - r,
    {
        let mut c: usize = 0;
        proof {
            assert((r + 1) * d <= d * d) by (nonlinear_arith) requires r < d;
        }
        while c < d
            invariant
                d * d <= usize::MAX,
                r < d,
                c <= d,
                n == measurements_below(d as int, r as int) + row_measurements(r as int, c as int),
                n <= r * d + c,
                (r + 1) * d <= d * d,
            decreases d - c,
        {
            proof {
                assert(r * d + c + 1 <= (r + 1) * d) by (nonlinear_arith) requires c < d;
            }
            if r % 2 != c % 2 {
                n += 1;
            }
            c += 1;
        }
        proof {
            assert(r * d + d == (r + 1) * d) by (nonlinear_arith);
        }
        r += 1;
    }
    n
}

/// `round(5000 * (m - f) / m)` in integers.
pub fn base_score(m: usize, f: usize) -> (s: i64)
    requires
        f <= m,
    ensures
        s == base_points(m as int, f as int),
{
    if m == 0 {
        5000
    } else {
        let num: u128 = 10000u128 * ((m - f) as u128) + m as u128;
        let q: u128 = num / (2u128 * m as u128);
        proof {
            lemma_base_bounds(m as int, f as int);
        }
        q as i64
    }
}

/// The bonus for the two residual class indicators.
pub fn bonus_score(a: bool, b: bool) -> (s: i64)
    ensures
        s == bonus_points(a, b),
{
    if !a && !b {
        5000
    } else if a != b {
        2000
    } else {
        0
    }
}

/// The score of one instance from its residual grids.
pub fn score_grids(gx: Grid, gz: Grid) -> (s: i64)
    requires
        gx.wf(),
        gz.wf(),
        gz.side() == gx.side(),
        gx.side() % 2 == 1,
        gx.side() * gx.side() <= usize::MAX,
    ensures
        s == grid_score(gx.side(), gx@, gz@),
{
    let d = gx.rows.len();
    let none = Grid { rows: Vec::new() };
    assert(none@ =~= Seq::<Seq<bool>>::empty());
    let f = count_faulty(&gx, &gz, &none);
    let m = count_measurement_cells(d);
    proof {
        lemma_faults_within_total(gx@, gz@, d as int);
    }
    let base = base_score(m, f);
    proof {
        lemma_base_bounds(m as int, f as int);
    }
    if f == 0 {
        let ghost vx = gx@;
        let ghost vz = gz@;
        let (rx, rz) = sweep(gx, gz);
        base + bonus_score(rx.get(0, 0), rz.get(0, 0))
    } else {
        base
    }
}

/// Valid corrections name cells inside the lattice.
proof fn lemma_valid_within(d: int, s: Seq<(usize, usize)>)
    requires
        list_ok(d, s),
    ensures
        all_within(s, d),
{
    assert forall|k: int| 0 <= k < s.len() implies (#[trigger] s[k]).0 < d && s[k].1 < d by {
        assert(coord_ok(d, s[k]));
    }
}

/// The residual grid of one channel of one instance.
fn residual_grid(d: usize, errors: &Rounds, corrections: &Rounds) -> (g: Grid)
    requires
        forall|r: int| 0 <= r < errors@.len() ==> all_within(#[trigger] errors@[r]@, d as int),
        forall|r: int| 0 <= r < corrections@.len() ==> all_within(#[trigger] corrections@[r]@, d as int),
    ensures
        g.wf(),
        g.side() == d,
        g@ == residual(d as int, *errors, *corrections),
{
    let mut g = clear_grid(d);
    apply_rounds(&mut g, errors, errors.len());
    assert(rounds_view(*errors).take(errors@.len() as int) =~= rounds_view(*errors));
    apply_rounds(&mut g, corrections, corrections.len());
    assert(rounds_view(*corrections).take(corrections@.len() as int) =~= rounds_view(*corrections));
    g
}

/// The score of instance `k`, whose corrections are all valid.
fn score_instance(input: &Input, output: &Output, k: usize) -> (s: i64)
    requires
        input.wf(),
        output.fits(input.t as int, input.c as int),
        all_ok(input.d as int, output, input.t as int, input.c as int),
        k < input.t,
    ensures
        s == instance_score(input, output, k as int),
        0 <= s <= 10000,
{
    let d = input.d;
    let inst: &Instance = &input.testcase[k];
    assert(inst.wf(input.c as int, d as int));
    let xc = &output.x_correction[k];
    let zc = &output.z_correction[k];
    proof {
        assert forall|r: int| 0 <= r < xc@.len() implies all_within(#[trigger] xc@[r]@, d as int) by {
            assert(round_ok(d as int, output, k as int, r));
            lemma_valid_within(d as int, xc@[r]@);
        }
        assert forall|r: int| 0 <= r < zc@.len() implies all_within(#[trigger] zc@[r]@, d as int) by {
            assert(round_ok(d as int, output, k as int, r));
            lemma_valid_within(d as int, zc@[r]@);
        }
    }
    let gx = residual_grid(d, &inst.x_depolarizing_error, xc);
    let gz = residual_grid(d, &inst.z_depolarizing_error, zc);
    proof {
        law_score_bounds(d as int, gx@, gz@);
    }
    score_grids(gx, gz)
}

/// The sum of the scores of all instances, whose corrections are all valid.
pub fn calculate_score(input: &Input, output: &Output) -> (s: i64)
    requires
        input.wf(),
        input.t * 10000 <= i64::MAX,
        output.fits(input.t as int, input.c as int),
        all_ok(input.d as int, output, input.t as int, input.c as int),
    ensures
        s == total_score(input, output),
        0 <= s <= 10000 * input.t,
{
    let mut total: i64 = 0;
    let mut k: usize = 0;
    while k < input.t
        invariant
            input.wf(),
            input.t * 10000 <= i64::MAX,
            output.fits(input.t as int, input.c as int),
            all_ok(input.d as int, output, input.t as int, input.c as int),
            k <= input.t,
            total == score_below(input, output, k as int),
            0 <= total <= k * 10000,
        decreases input.t - k,
    {
        let s = score_instance(input, output, k);
        total = total + s;
        k += 1;
    }
    total
}

/// Validates the corrections and, when all are valid, scores them. A refused
/// correction makes the score 0 and is reported.
pub fn judge(input: &Input, output: &Output) -> (r: (i64, Option<CorrectionError>))
    requires
        input.wf(),
        input.t * 10000 <= i64::MAX,
        output.fits(input.t as int, input.c as int),
    ensures
        r.1 is None <==> all_ok(input.d as int, output, input.t as int, input.c as int),
        r.1 is None ==> r.0 == total_score(input, output),
        0 <= r.0 <= 10000 * input.t,
        r.1 matches Some(e) ==> r.0 == 0 && is_first_error(
            input.d as int,
            output,
            input.t as int,
            input.c as int,
            e,
        ),
{
    match validate(input, output) {
        Ok(()) => (calculate_score(input, output), None),
        Err(e) => (0, Some(e)),
    }
}

} // verus!
