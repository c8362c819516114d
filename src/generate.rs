//! Reproducible generation of error events from a seed.
use vstd::prelude::*;
use rand_chacha::ChaCha20Rng;
use crate::lattice::{is_data, is_data_cell};
use crate::model::{Input, Instance, Rounds};

verus! {

#[verifier::external_type_specification]
#[verifier::external_body]
pub struct ExChaCha20Rng(ChaCha20Rng);

/// Relies on rand's `SeedableRng::seed_from_u64` for `ChaCha20Rng`: a generator
/// whose stream is fixed by the seed.
#[verifier::external_body]
fn seeded_rng(seed: u64) -> (rng: ChaCha20Rng) {
    <ChaCha20Rng as rand::SeedableRng>::seed_from_u64(seed)
}

/// Relies on rand's `Rng::gen_ratio`: true with chance `num / den`, never for
/// `num == 0`, always for `num == den`; it panics unless `0 < den` and `num <= den`.
#[verifier::external_body]
fn draw_ratio(rng: &mut ChaCha20Rng, num: u32, den: u32) -> (b: bool)
    requires
        0 < den,
        num <= den,
    ensures
        num == 0 ==> !b,
        num == den ==> b,
{
    rand::Rng::gen_ratio(rng, num, den)
}

/// Relies on rand's `Rng::gen_range(low, high)`: a value in `[low, high)`; it
/// panics unless `low < high`.
#[verifier::external_body]
fn draw_below(rng: &mut ChaCha20Rng, n: u32) -> (v: u32)
    requires
        0 < n,
    ensures
        v < n,
{
    rand::Rng::gen_range(rng, 0u32, n)
}

/// Side of the generated lattice.
pub const LATTICE_SIDE: usize = 21;
/// Rounds per generated instance.
pub const ROUNDS: usize = 100;
/// Final rounds in which no data errors are injected.
pub const QUIET_ROUNDS: usize = 5;
/// Seeds above this yield many instances.
pub const LARGE_SEED: u64 = 100000;
/// Instances of an input from a large seed.
pub const LARGE_INSTANCES: usize = 100;

/// The kind of a depolarizing error on a data cell.
#[derive(Clone, Copy, Debug, PartialEq, Eq, Structural)]
pub enum Depolarizing {
    TypeA,
    TypeB,
    Both,
}

impl Depolarizing {
    /// Whether the error flips the type-A parity.
    pub fn hits_a(&self) -> (b: bool)
        ensures
            b == (*self != Depolarizing::TypeB),
    {
        match self {
            Depolarizing::TypeB => false,
            _ => true,
        }
    }

    /// Whether the error flips the type-B parity.
    pub fn hits_b(&self) -> (b: bool)
        ensures
            b == (*self != Depolarizing::TypeA),
    {
        match self {
            Depolarizing::TypeA => false,
            _ => true,
        }
    }
}

/// The severity tier of a seed.
pub open spec fn tier_of(seed: u64) -> int {
    (seed / 200) as int % 5
}

/// The data and measurement error rates of a tier, in thousandths.
pub open spec fn severity_of(tier: int) -> (u32, u32) {
    if tier == 0 {
        (1, 10)
    } else if tier == 1 {
        (10, 30)
    } else if tier == 2 {
        (30, 0)
    } else if tier == 3 {
        (30, 50)
    } else {
        (50, 100)
    }
}

/// The number of instances generated from a seed.
pub open spec fn instances_of(seed: u64) -> int {
    if seed > LARGE_SEED {
        LARGE_INSTANCES as int
    } else {
        1
    }
}

/// `p` comes before `q` in row-major order.
pub open spec fn before(p: (usize, usize), q: (usize, usize)) -> bool {
    p.0 < q.0 || (p.0 == q.0 && p.1 < q.1)
}

/// The coordinates are in strictly increasing row-major order, so none repeats.
pub open spec fn strictly_sorted(s: Seq<(usize, usize)>) -> bool {
    forall|a: int, b: int| 0 <= a < b < s.len() ==> before(#[trigger] s[a], #[trigger] s[b])
}

/// A sorted list of cells of a lattice of side `d` on the data (`data`) or
/// measurement (`!data`) sublattice.
pub open spec fn cell_set(s: Seq<(usize, usize)>, d: int, data: bool) -> bool {
    &&& strictly_sorted(s)
    &&& forall|k: int|
        0 <= k < s.len() ==> (#[trigger] s[k]).0 < d && s[k].1 < d && is_data(
            s[k].0 as int,
            s[k].1 as int,
        ) == data
}

/// All cells of `s` come before `p`.
pub open spec fn all_before(s: Seq<(usize, usize)>, p: (usize, usize)) -> bool {
    forall|k: int| 0 <= k < s.len() ==> before(#[trigger] s[k], p)
}

/// The rounds of an instance as generated: sorted sets of cells, data cells
/// for the two error types and none in the final quiet rounds, measurement
/// cells for measurement errors.
pub open spec fn generated_instance(inst: Instance, c: int, d: int) -> bool {
    &&& inst.x_depolarizing_error@.len() == c
    &&& inst.z_depolarizing_error@.len() == c
    &&& inst.measure_error@.len() == c
    &&& forall|r: int| 0 <= r < c ==> cell_set(#[trigger] inst.x_depolarizing_error@[r]@, d, true)
    &&& forall|r: int| 0 <= r < c ==> cell_set(#[trigger] inst.z_depolarizing_error@[r]@, d, true)
    &&& forall|r: int| 0 <= r < c ==> cell_set(#[trigger] inst.measure_error@[r]@, d, false)
    &&& forall|r: int|
        0 <= r && c - QUIET_ROUNDS <= r < c ==> (#[trigger] inst.x_depolarizing_error@[r])@.len() == 0
            && inst.z_depolarizing_error@[r]@.len() == 0
}

proof fn lemma_push_sorted(s: Seq<(usize, usize)>, d: int, data: bool, p: (usize, usize))
    requires
        cell_set(s, d, data),
        all_before(s, p),
        p.0 < d,
        p.1 < d,
        d < usize::MAX,
        is_data(p.0 as int, p.1 as int) == data,
    ensures
        cell_set(s.push(p), d, data),
        all_before(s.push(p), (p.0, (p.1 + 1) as usize)),
{
    let t = s.push(p);
    assert forall|a: int, b: int| 0 <= a < b < t.len() implies before(#[trigger] t[a], #[trigger] t[b]) by {
        if b == s.len() {
            assert(t[a] == s[a]);
        } else {
            assert(t[a] == s[a] && t[b] == s[b]);
        }
    }
    assert forall|k: int| 0 <= k < t.len() implies before(#[trigger] t[k], (p.0, (p.1 + 1) as usize)) by {
        if k < s.len() {
            assert(t[k] == s[k]);
        }
    }
    assert forall|k: int| 0 <= k < t.len() implies (#[trigger] t[k]).0 < d && t[k].1 < d && is_data(
        t[k].0 as int,
        t[k].1 as int,
    ) == data by {
        if k < s.len() {
            assert(t[k] == s[k]);
        }
    }
}

proof fn lemma_next_row(s: Seq<(usize, usize)>, d: int, data: bool, i: usize, j: usize)
    requires
        cell_set(s, d, data),
        all_before(s, (i, j)),
        i < usize::MAX,
    ensures
        all_before(s, ((i + 1) as usize, 0)),
{
    assert forall|k: int| 0 <= k < s.len() implies before(#[trigger] s[k], ((i + 1) as usize, 0usize)) by {
        assert(before(s[k], (i, j)));
    }
}

/// The severity rates of a tier, in thousandths.
pub fn severity(tier: u64) -> (r: (u32, u32))
    requires
        tier < 5,
    ensures
        r == severity_of(tier as int),
{
    if tier == 0 {
        (1, 10)
    } else if tier == 1 {
        (10, 30)
    } else if tier == 2 {
        (30, 0)
    } else if tier == 3 {
        (30, 50)
    } else {
        (50, 100)
    }
}

/// The kind of depolarizing error picked by a uniform draw from `0..3`.
pub fn kind_of_choice(choice: u32) -> (k: Depolarizing)
    requires
        choice < 3,
    ensures
        choice == 0 ==> k == Depolarizing::TypeA,
        choice == 1 ==> k == Depolarizing::TypeB,
        choice == 2 ==> k == Depolarizing::Both,
{
    if choice == 0 {
        Depolarizing::TypeA
    } else if choice == 1 {
        Depolarizing::TypeB
    } else {
        Depolarizing::Both
    }
}

/// Draws whether a data cell suffers a depolarizing error, with chance
/// `e_d / 1000`, and if so of which kind, each with chance one third.
pub fn draw_depolarizing(rng: &mut ChaCha20Rng, e_d: u32) -> (r: Option<Depolarizing>)
    requires
        e_d <= 1000,
    ensures
        e_d == 0 ==> r is None,
        e_d == 1000 ==> r is Some,
{
    if draw_ratio(rng, e_d, 1000) {
        let choice = draw_below(rng, 3);
        Some(kind_of_choice(choice))
    } else {
        None
    }
}

/// Draws the depolarizing errors of one round, data cells in row-major order.
fn draw_data_errors(rng: &mut ChaCha20Rng, d: usize, e_d: u32) -> (r: (Vec<(usize, usize)>, Vec<
    (usize, usize),
>))
    requires
        e_d <= 1000,
        d < usize::MAX,
    ensures
        cell_set(r.0@, d as int, true),
        cell_set(r.1@, d as int, true),
        e_d == 0 ==> r.0@.len() == 0 && r.1@.len() == 0,
{
    let mut xs: Vec<(usize, usize)> = Vec::new();
    let mut zs: Vec<(usize, usize)> = Vec::new();
    let mut i: usize = 0;
    while i < d
        invariant
            e_d <= 1000,
            d < usize::MAX,
            i <= d,
            cell_set(xs@, d as int, true),
            cell_set(zs@, d as int, true),
            all_before(xs@, (i, 0)),
            all_before(zs@, (i, 0)),
            e_d == 0 ==> xs@.len() == 0 && zs@.len() == 0,
        decreases d - i,
    {
        let mut j: usize = 0;
        while j < d
            invariant
                e_d <= 1000,
                d < usize::MAX,
                i < d,
                j <= d,
                cell_set(xs@, d as int, true),
                cell_set(zs@, d as int, true),
                all_before(xs@, (i, j)),
                all_before(zs@, (i, j)),
                e_d == 0 ==> xs@.len() == 0 && zs@.len() == 0,
            decreases d - j,
        {
            proof {
                assert forall|k: int| 0 <= k < xs@.len() implies before(#[trigger] xs@[k], (i, (j + 1) as usize)) by {
                    assert(before(xs@[k], (i, j)));
                }
                assert forall|k: int| 0 <= k < zs@.len() implies before(#[trigger] zs@[k], (i, (j + 1) as usize)) by {
                    assert(before(zs@[k], (i, j)));
                }
            }
            if is_data_cell(i, j) {
                match draw_depolarizing(rng, e_d) {
                    Some(kind) => {
                        if kind.hits_a() {
                            proof { lemma_push_sorted(xs@, d as int, true, (i, j)); }
                            xs.push((i, j));
                        }
                        if kind.hits_b() {
                            proof { lemma_push_sorted(zs@, d as int, true, (i, j)); }
                            zs.push((i, j));
                        }
                    },
                    None => {},
                }
            }
            j += 1;
        }
        proof {
            lemma_next_row(xs@, d as int, true, i, j);
            lemma_next_row(zs@, d as int, true, i, j);
        }
        i += 1;
    }
    (xs, zs)
}

/// Draws the measurement errors of one round, measurement cells in
/// row-major order, each with chance `e_m / 1000`.
fn draw_measure_errors(rng: &mut ChaCha20Rng, d: usize, e_m: u32) -> (ms: Vec<(usize, usize)>)
    requires
        e_m <= 1000,
        d < usize::MAX,
    ensures
        cell_set(ms@, d as int, false),
        e_m == 0 ==> ms@.len() == 0,
{
    let mut ms: Vec<(usize, usize)> = Vec::new();
    let mut i: usize = 0;
    while i < d
        invariant
            e_m <= 1000,
            d < usize::MAX,
            i <= d,
            cell_set(ms@, d as int, false),
            all_before(ms@, (i, 0)),
            e_m == 0 ==> ms@.len() == 0,
        decreases d - i,
    {
        let mut j: usize = 0;
        while j < d
            invariant
                e_m <= 1000,
                d < usize::MAX,
                i < d,
                j <= d,
                cell_set(ms@, d as int, false),
                all_before(ms@, (i, j)),
                e_m == 0 ==> ms@.len() == 0,
            decreases d - j,
        {
            proof {
                assert forall|k: int| 0 <= k < ms@.len() implies before(#[trigger] ms@[k], (i, (j + 1) as usize)) by {
                    assert(before(ms@[k], (i, j)));
                }
            }
            if !is_data_cell(i, j) {
                if draw_ratio(rng, e_m, 1000) {
                    proof { lemma_push_sorted(ms@, d as int, false, (i, j)); }
                    ms.push((i, j));
                }
            }
            j += 1;
        }
        proof {
            lemma_next_row(ms@, d as int, false, i, j);
        }
        i += 1;
    }
    ms
}

/// Draws one instance of `c` rounds: depolarizing errors in all but the last
/// `QUIET_ROUNDS` rounds, then measurement errors, round after round.
fn draw_instance(rng: &mut ChaCha20Rng, d: usize, c: usize, e_d: u32, e_m: u32) -> (inst: Instance)
    requires
        e_d <= 1000,
        e_m <= 1000,
        d < usize::MAX,
    ensures
        generated_instance(inst, c as int, d as int),
{
    let mut xr: Rounds = Vec::new();
    let mut zr: Rounds = Vec::new();
    let mut mr: Rounds = Vec::new();
    let mut turn: usize = 0;
    while turn < c
        invariant
            e_d <= 1000,
            e_m <= 1000,
            d < usize::MAX,
            turn <= c,
            xr@.len() == turn,
            zr@.len() == turn,
            mr@.len() == turn,
            forall|r: int| 0 <= r < turn ==> cell_set(#[trigger] xr@[r]@, d as int, true),
            forall|r: int| 0 <= r < turn ==> cell_set(#[trigger] zr@[r]@, d as int, true),
            forall|r: int| 0 <= r < turn ==> cell_set(#[trigger] mr@[r]@, d as int, false),
            forall|r: int|
                0 <= r && c - QUIET_ROUNDS <= r < turn ==> (#[trigger] xr@[r])@.len() == 0 && zr@[r]@.len()
                    == 0,
        decreases c - turn,
    {
        let (xs, zs) = if c > QUIET_ROUNDS && turn < c - QUIET_ROUNDS {
            draw_data_errors(rng, d, e_d)
        } else {
            (Vec::new(), Vec::new())
        };
        let ms = draw_measure_errors(rng, d, e_m);
        xr.push(xs);
        zr.push(zs);
        mr.push(ms);
        turn += 1;
    }
    Instance { x_depolarizing_error: xr, z_depolarizing_error: zr, measure_error: mr }
}

/// Generates the test input of a seed: a 21 by 21 lattice, 100 rounds, one
/// instance (a hundred above `LARGE_SEED`), and the rates of the seed's tier.
/// The same seed always draws the same events.
pub fn gen(seed: u64) -> (input: Input)
    ensures
        input.wf(),
        input.d == LATTICE_SIDE,
        input.c == ROUNDS,
        input.t == instances_of(seed),
        (input.e_d, input.e_m) == severity_of(tier_of(seed)),
        forall|k: int|
            0 <= k < input.t ==> generated_instance(
                #[trigger] input.testcase@[k],
                ROUNDS as int,
                LATTICE_SIDE as int,
            ),
{
    let d = LATTICE_SIDE;
    let c = ROUNDS;
    let t = if seed > LARGE_SEED {
        LARGE_INSTANCES
    } else {
        1
    };
    let (e_d, e_m) = severity((seed / 200) % 5);
    let mut rng = seeded_rng(seed);
    let mut testcase: Vec<Instance> = Vec::new();
    let mut k: usize = 0;
    while k < t
        invariant
            k <= t,
            e_d <= 1000,
            e_m <= 1000,
            testcase@.len() == k,
            forall|q: int|
                0 <= q < k ==> generated_instance(#[trigger] testcase@[q], c as int, d as int),
            d == LATTICE_SIDE,
            c == ROUNDS,
        decreases t - k,
    {
        let inst = draw_instance(&mut rng, d, c, e_d, e_m);
        testcase.push(inst);
        k += 1;
    }
    let input = Input { d, c, e_d, e_m, t, testcase };
    proof {
        assert forall|q: int| 0 <= q < t implies (#[trigger] input.testcase@[q]).wf(
            c as int,
            d as int,
        ) by {
            let inst = input.testcase@[q];
            assert(generated_instance(inst, c as int, d as int));
            assert forall|r: int| 0 <= r < c implies crate::grid::all_within(
                #[trigger] inst.x_depolarizing_error@[r]@,
                d as int,
            ) by {
                assert(cell_set(inst.x_depolarizing_error@[r]@, d as int, true));
            }
            assert forall|r: int| 0 <= r < c implies crate::grid::all_within(
                #[trigger] inst.z_depolarizing_error@[r]@,
                d as int,
            ) by {
                assert(cell_set(inst.z_depolarizing_error@[r]@, d as int, true));
            }
            assert forall|r: int| 0 <= r < c implies crate::grid::all_within(
                #[trigger] inst.measure_error@[r]@,
                d as int,
            ) by {
                assert(cell_set(inst.measure_error@[r]@, d as int, false));
            }
        }
    }
    input
}

} // verus!
