//! Syndrome extraction: which measurement cells see an odd number of set neighbours.
use vstd::prelude::*;
use crate::lattice::{is_data, checks_type_a, is_data_cell};
use crate::grid::{Grid, bit};

verus! {

/// Whether an odd number of the four orthogonal neighbours of `(r, c)` are set.
pub open spec fn neighbour_parity(g: Seq<Seq<bool>>, r: int, c: int) -> bool {
    ((bit(g, r - 1, c) != bit(g, r + 1, c)) != bit(g, r, c - 1)) != bit(g, r, c + 1)
}

/// Whether the measurement cell `(r, c)` reports a defect: the parity of its
/// neighbours in the grid of its type, flipped where a measurement error sits.
pub open spec fn faulty(
    gx: Seq<Seq<bool>>,
    gz: Seq<Seq<bool>>,
    gm: Seq<Seq<bool>>,
    r: int,
    c: int,
) -> bool {
    !is_data(r, c) && (bit(gm, r, c) != if checks_type_a(c) {
        neighbour_parity(gx, r, c)
    } else {
        neighbour_parity(gz, r, c)
    })
}

/// Number of faulty cells `(r, c)` with `c < n`.
pub open spec fn row_faults(
    gx: Seq<Seq<bool>>,
    gz: Seq<Seq<bool>>,
    gm: Seq<Seq<bool>>,
    r: int,
    n: int,
) -> nat
    decreases n,
{
    if n <= 0 {
        0
    } else {
        row_faults(gx, gz, gm, r, n - 1) + if faulty(gx, gz, gm, r, n - 1) { 1nat } else { 0nat }
    }
}

/// Number of faulty cells in rows below `m` of a lattice of side `d`.
pub open spec fn faults_below(
    gx: Seq<Seq<bool>>,
    gz: Seq<Seq<bool>>,
    gm: Seq<Seq<bool>>,
    d: int,
    m: int,
) -> nat
    decreases m,
{
    if m <= 0 {
        0
    } else {
        faults_below(gx, gz, gm, d, m - 1) + row_faults(gx, gz, gm, m - 1, d)
    }
}

/// The faulty syndrome count of a lattice of side `d`.
pub open spec fn fault_count(
    gx: Seq<Seq<bool>>,
    gz: Seq<Seq<bool>>,
    gm: Seq<Seq<bool>>,
    d: int,
) -> nat {
    faults_below(gx, gz, gm, d, d)
}

proof fn lemma_row_faults_bound(
    gx: Seq<Seq<bool>>,
    gz: Seq<Seq<bool>>,
    gm: Seq<Seq<bool>>,
    r: int,
    n: int,
)
    requires
        n >= 0,
    ensures
        row_faults(gx, gz, gm, r, n) <= n,
    decreases n,
{
    if n > 0 {
        lemma_row_faults_bound(gx, gz, gm, r, n - 1);
    }
}

proof fn lemma_faults_below_bound(
    gx: Seq<Seq<bool>>,
    gz: Seq<Seq<bool>>,
    gm: Seq<Seq<bool>>,
    d: int,
    m: int,
)
    requires
        m >= 0,
        d >= 0,
    ensures
        faults_below(gx, gz, gm, d, m) <= m * d,
    decreases m,
{
    if m > 0 {
        lemma_faults_below_bound(gx, gz, gm, d, m - 1);
        lemma_row_faults_bound(gx, gz, gm, m - 1, d);
        assert((m - 1) * d + d == m * d) by (nonlinear_arith);
    }
}

/// Whether an odd number of the neighbours of `(r, c)` are set in `g`.
pub fn parity_around(g: &Grid, r: usize, c: usize) -> (b: bool)
    requires
        g.wf(),
        r < g.side(),
        c < g.side(),
    ensures
        b == neighbour_parity(g@, r as int, c as int),
{
    let _d = g.rows.len();
    let up = if r > 0 { g.read(r - 1, c) } else { false };
    let down = g.read(r + 1, c);
    let left = if c > 0 { g.read(r, c - 1) } else { false };
    let right = g.read(r, c + 1);
    ((up != down) != left) != right
}

/// Whether measurement cell `(r, c)` reports a defect.
pub fn is_faulty(gx: &Grid, gz: &Grid, gm: &Grid, r: usize, c: usize) -> (b: bool)
    requires
        gx.wf(),
        gz.wf(),
        gm.wf(),
        r < gx.side(),
        c < gx.side(),
        gz.side() == gx.side(),
    ensures
        b == faulty(gx@, gz@, gm@, r as int, c as int),
{
    if is_data_cell(r, c) {
        false
    } else {
        let p = if c % 2 == 1 { parity_around(gx, r, c) } else { parity_around(gz, r, c) };
        gm.read(r, c) != p
    }
}

/// Counts the measurement cells that report a defect. `gm` holds the
/// measurement errors of the round; an empty grid stands for none.
pub fn count_faulty(gx: &Grid, gz: &Grid, gm: &Grid) -> (n: usize)
    requires
        gx.wf(),
        gz.wf(),
        gm.wf(),
        gz.side() == gx.side(),
        gx.side() * gx.side() <= usize::MAX,
    ensures
        n == fault_count(gx@, gz@, gm@, gx.side()),
{
    let d = gx.rows.len();
    let mut n: usize = 0;
    let mut r: usize = 0;
    while r < d
        invariant
            gx.wf(),
            gz.wf(),
            gm.wf(),
            gz.side() == gx.side(),
            d == gx.side(),
            d * d <= usize::MAX,
            r <= d,
            n == faults_below(gx@, gz@, gm@, d as int, r as int),
        decreases d - r,
    {
        let mut c: usize = 0;
        proof {
            lemma_faults_below_bound(gx@, gz@, gm@, d as int, r as int);
            lemma_faults_below_bound(gx@, gz@, gm@, d as int, r as int + 1);
            assert(r * d + d == (r + 1) * d) by (nonlinear_arith);
            assert((r + 1) * d <= d * d) by (nonlinear_arith) requires r < d;
        }
        while c < d
            invariant
                gx.wf(),
                gz.wf(),
                gm.wf(),
                gz.side() == gx.side(),
                d == gx.side(),
                r < d,
                c <= d,
                n == faults_below(gx@, gz@, gm@, d as int, r as int) + row_faults(
                    gx@,
                    gz@,
                    gm@,
                    r as int,
                    c as int,
                ),
                faults_below(gx@, gz@, gm@, d as int, r as int) <= r * d,
                (r + 1) * d <= d * d,
                d * d <= usize::MAX,
            decreases d - c,
        {
            proof {
                lemma_row_faults_bound(gx@, gz@, gm@, r as int, c as int);
                assert(r * d + c + 1 <= (r + 1) * d) by (nonlinear_arith) requires c < d;
            }
            if is_faulty(gx, gz, gm, r, c) {
                n += 1;
            }
            c += 1;
        }
        r += 1;
    }
    n
}

} // verus!
