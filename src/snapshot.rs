//! The lattice state shown at one step of a replay: two steps per round, the
//! first after that round's errors, the second after its corrections.
use vstd::prelude::*;
use crate::grid::{Grid, flip_all, toggle, all_within};
use crate::model::{Input, Output, rounds_view};
use crate::score::{clear, flip_rounds, clear_grid, apply_rounds};
use crate::syndrome::{fault_count, faulty, count_faulty, is_faulty};
use crate::sweep::{reduced, sweep};
use crate::validate::{all_ok, round_ok, coord_ok};

verus! {

/// What a replay shows of the first instance at one step.
pub struct Snapshot {
    pub x_error: Grid,
    pub z_error: Grid,
    /// The measurement errors of the step's round.
    pub measure_error: Grid,
    /// The measurement cells that report a defect.
    pub syndrome: Grid,
    /// Whether the error grids were reduced by the sweep.
    pub swept: bool,
}

pub open spec fn min(a: int, b: int) -> int {
    if a < b {
        a
    } else {
        b
    }
}

/// Rounds whose errors are shown at step `turn`.
pub open spec fn error_rounds_shown(turn: int, c: int) -> int {
    min(turn / 2 + 1, c)
}

/// Rounds whose corrections are shown at step `turn`.
pub open spec fn correction_rounds_shown(turn: int, c: int) -> int {
    min((turn + 1) / 2, c)
}

/// The grid of one channel at step `turn`, before any sweep.
pub open spec fn channel_at(
    d: int,
    errors: Seq<Seq<(usize, usize)>>,
    corrections: Seq<Seq<(usize, usize)>>,
    turn: int,
    c: int,
) -> Seq<Seq<bool>> {
    flip_rounds(
        flip_rounds(clear(d), errors.take(error_rounds_shown(turn, c))),
        corrections.take(correction_rounds_shown(turn, c)),
    )
}

/// The step after the last round, at which a clean lattice is shown swept.
pub open spec fn is_final_step(turn: int, c: int) -> bool {
    turn == 2 * c + 1
}

fn min_usize(a: usize, b: usize) -> (m: usize)
    ensures
        m == min(a as int, b as int),
{
    if a < b {
        a
    } else {
        b
    }
}

/// Marks each measurement cell that reports a defect.
fn syndrome_grid(gx: &Grid, gz: &Grid, gm: &Grid) -> (s: Grid)
    requires
        gx.wf(),
        gz.wf(),
        gm.wf(),
        gz.side() == gx.side(),
    ensures
        s.wf(),
        s.side() == gx.side(),
        forall|r: int, c: int|
            0 <= r < gx.side() && 0 <= c < gx.side() ==> #[trigger] s@[r][c] == faulty(
                gx@,
                gz@,
                gm@,
                r,
                c,
            ),
{
    let d = gx.rows.len();
    let mut rows: Vec<Vec<bool>> = Vec::new();
    let mut r: usize = 0;
    while r < d
        invariant
            gx.wf(),
            gz.wf(),
            gm.wf(),
            gz.side() == gx.side(),
            d == gx.side(),
            r <= d,
            rows@.len() == r,
            forall|i: int| 0 <= i < r ==> (#[trigger] rows@[i])@.len() == d,
            forall|i: int, j: int|
                0 <= i < r && 0 <= j < d ==> #[trigger] rows@[i]@[j] == faulty(gx@, gz@, gm@, i, j),
        decreases d - r,
    {
        let mut row: Vec<bool> = Vec::new();
        let mut c: usize = 0;
        while c < d
            invariant
                gx.wf(),
                gz.wf(),
                gm.wf(),
                gz.side() == gx.side(),
                d == gx.side(),
                r < d,
                c <= d,
                row@.len() == c,
                forall|j: int| 0 <= j < c ==> #[trigger] row@[j] == faulty(gx@, gz@, gm@, r as int, j),
            decreases d - c,
        {
            let f = is_faulty(gx, gz, gm, r, c);
            row.push(f);
            c += 1;
        }
        rows.push(row);
        r += 1;
    }
    let s = Grid { rows };
    assert forall|i: int| 0 <= i < d implies #[trigger] s@[i].len() == d by {
        assert(s@[i] == rows@[i]@);
    }
    assert forall|i: int, j: int| 0 <= i < d && 0 <= j < d implies #[trigger] s@[i][j] == faulty(
        gx@,
        gz@,
        gm@,
        i,
        j,
    ) by {
        assert(s@[i] == rows@[i]@);
        assert(rows@[i]@[j] == faulty(gx@, gz@, gm@, i, j));
    }
    s
}

proof fn lemma_valid_rounds_within(d: int, out: &Output, t: int, c: int, k: int)
    requires
        out.fits(t, c),
        all_ok(d, out, t, c),
        0 <= k < t,
    ensures
        forall|r: int| 0 <= r < c ==> all_within(#[trigger] out.x_correction@[k]@[r]@, d),
        forall|r: int| 0 <= r < c ==> all_within(#[trigger] out.z_correction@[k]@[r]@, d),
{
    assert forall|r: int| 0 <= r < c implies all_within(#[trigger] out.x_correction@[k]@[r]@, d) by {
        assert(round_ok(d, out, k, r));
        let s = out.x_correction@[k]@[r]@;
        assert forall|q: int| 0 <= q < s.len() implies (#[trigger] s[q]).0 < d && s[q].1 < d by {
            assert(coord_ok(d, s[q]));
        }
    }
    assert forall|r: int| 0 <= r < c implies all_within(#[trigger] out.z_correction@[k]@[r]@, d) by {
        assert(round_ok(d, out, k, r));
        let s = out.z_correction@[k]@[r]@;
        assert forall|q: int| 0 <= q < s.len() implies (#[trigger] s[q]).0 < d && s[q].1 < d by {
            assert(coord_ok(d, s[q]));
        }
    }
}

/// The state of the first instance at step `turn`. The corrections must
/// have passed validation. At the final step, if no defect is left, the
/// error grids are shown after the sweep.
pub fn snapshot(input: &Input, output: &Output, turn: usize) -> (s: Snapshot)
    requires
        input.wf(),
        input.t >= 1,
        output.fits(input.t as int, input.c as int),
        all_ok(input.d as int, output, input.t as int, input.c as int),
    ensures
        ({
            let d = input.d as int;
            let c = input.c as int;
            let inst = input.testcase@[0];
            let rx = channel_at(
                d,
                rounds_view(inst.x_depolarizing_error),
                rounds_view(output.x_correction@[0]),
                turn as int,
                c,
            );
            let rz = channel_at(
                d,
                rounds_view(inst.z_depolarizing_error),
                rounds_view(output.z_correction@[0]),
                turn as int,
                c,
            );
            &&& s.swept == (is_final_step(turn as int, c) && fault_count(rx, rz, Seq::empty(), d) == 0)
            &&& s.x_error.wf() && s.x_error.side() == d
            &&& s.z_error.wf() && s.z_error.side() == d
            &&& s.measure_error.wf() && s.measure_error.side() == d
            &&& s.x_error@ == if s.swept { reduced(rx, d, false) } else { rx }
            &&& s.z_error@ == if s.swept { reduced(rz, d, true) } else { rz }
            &&& s.measure_error@ == if turn / 2 < c {
                flip_all(clear(d), inst.measure_error@[(turn / 2) as int]@)
            } else {
                clear(d)
            }
            &&& s.syndrome.wf() && s.syndrome.side() == d
            &&& forall|r: int, q: int|
                0 <= r < d && 0 <= q < d ==> #[trigger] s.syndrome@[r][q] == faulty(
                    s.x_error@,
                    s.z_error@,
                    s.measure_error@,
                    r,
                    q,
                )
        }),
{
    let d = input.d;
    let c = input.c;
    let inst = &input.testcase[0];
    assert(inst.wf(c as int, d as int));
    proof {
        lemma_valid_rounds_within(d as int, output, input.t as int, c as int, 0);
    }
    let ne = min_usize(turn / 2 + 1, c);
    let nc = min_usize(turn / 2 + turn % 2, c);
    let mut gx = clear_grid(d);
    apply_rounds(&mut gx, &inst.x_depolarizing_error, ne);
    apply_rounds(&mut gx, &output.x_correction[0], nc);
    let mut gz = clear_grid(d);
    apply_rounds(&mut gz, &inst.z_depolarizing_error, ne);
    apply_rounds(&mut gz, &output.z_correction[0], nc);
    let mut gm = clear_grid(d);
    if turn / 2 < c {
        toggle(&mut gm, &inst.measure_error[turn / 2]);
    }
    let none = Grid { rows: Vec::new() };
    assert(none@ =~= Seq::<Seq<bool>>::empty());
    let last = turn / 2 == c && turn % 2 == 1;
    let swept = last && count_faulty(&gx, &gz, &none) == 0;
    let (sx, sz) = if swept {
        sweep(gx, gz)
    } else {
        (gx, gz)
    };
    let syndrome = syndrome_grid(&sx, &sz, &gm);
    Snapshot { x_error: sx, z_error: sz, measure_error: gm, syndrome, swept }
}

} // verus!
