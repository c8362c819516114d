//! The boundary sweep that reduces a residual parity grid to its class indicator.
//!
//! A grid is swept along lines: rows for the type-A grid, columns for the
//! type-B grid (`across`). Odd lines are visited from the far edge towards the
//! origin; on each, even positions are visited in order, and wherever the cell
//! one line further out is set, the stabilizer around it is applied, which
//! clears that cell and pushes the defect one line closer to the origin.
use vstd::prelude::*;
use crate::grid::{Grid, flip, square};

verus! {

/// The cell at position `b` of line `a`.
pub open spec fn at(across: bool, a: int, b: int) -> (int, int) {
    if across {
        (b, a)
    } else {
        (a, b)
    }
}

/// The bit at position `b` of line `a`.
pub open spec fn line_bit(g: Seq<Seq<bool>>, across: bool, a: int, b: int) -> bool {
    g[at(across, a, b).0][at(across, a, b).1]
}

/// Flips the bit at position `b` of line `a`.
pub open spec fn line_flip(g: Seq<Seq<bool>>, across: bool, a: int, b: int) -> Seq<Seq<bool>> {
    flip(g, at(across, a, b).0, at(across, a, b).1)
}

/// Whether `(r, c)` is one of the cells that the stabilizer move at line `a`,
/// position `b` flips: one line out, one line in, and the side neighbours on
/// line `a` that lie in the lattice.
pub open spec fn in_plaquette(d: int, across: bool, a: int, b: int, r: int, c: int) -> bool {
    (r, c) == at(across, a + 1, b) || (r, c) == at(across, a - 1, b) || (b != 0 && (r, c) == at(
        across,
        a,
        b - 1,
    )) || (b != d - 1 && (r, c) == at(across, a, b + 1))
}

/// The stabilizer move at line `a`, position `b`.
pub open spec fn plaquette(g: Seq<Seq<bool>>, d: int, across: bool, a: int, b: int) -> Seq<
    Seq<bool>,
> {
    let g1 = line_flip(g, across, a + 1, b);
    let g2 = if b != 0 {
        line_flip(g1, across, a, b - 1)
    } else {
        g1
    };
    let g3 = if b != d - 1 {
        line_flip(g2, across, a, b + 1)
    } else {
        g2
    };
    line_flip(g3, across, a - 1, b)
}

/// One step of the sweep: the move is made only where the outer cell is set.
pub open spec fn sweep_step(g: Seq<Seq<bool>>, d: int, across: bool, a: int, b: int) -> Seq<
    Seq<bool>,
> {
    if line_bit(g, across, a + 1, b) {
        plaquette(g, d, across, a, b)
    } else {
        g
    }
}

/// The steps at the even positions below `n` of line `a`, in increasing order.
pub open spec fn sweep_line(g: Seq<Seq<bool>>, d: int, across: bool, a: int, n: int) -> Seq<
    Seq<bool>,
>
    decreases n,
{
    if n <= 0 {
        g
    } else {
        let h = sweep_line(g, d, across, a, n - 1);
        if (n - 1) % 2 == 0 {
            sweep_step(h, d, across, a, n - 1)
        } else {
            h
        }
    }
}

/// The passes over the odd lines below `m`, from line `m - 1` down.
pub open spec fn sweep_lines(g: Seq<Seq<bool>>, d: int, across: bool, m: int) -> Seq<Seq<bool>>
    decreases m,
{
    if m <= 0 {
        g
    } else {
        let h = if (m - 1) % 2 == 1 {
            sweep_line(g, d, across, m - 1, d)
        } else {
            g
        };
        sweep_lines(h, d, across, m - 1)
    }
}

/// The fully swept grid.
pub open spec fn reduced(g: Seq<Seq<bool>>, d: int, across: bool) -> Seq<Seq<bool>> {
    sweep_lines(g, d, across, d)
}

/// Flipping one bit changes that bit alone.
pub proof fn lemma_flip_bit(g: Seq<Seq<bool>>, d: int, r: int, c: int)
    requires
        square(g, d),
        0 <= r < d,
        0 <= c < d,
    ensures
        square(flip(g, r, c), d),
        forall|i: int, j: int|
            0 <= i < d && 0 <= j < d ==> #[trigger] flip(g, r, c)[i][j] == (g[i][j] != (i == r
                && j == c)),
{
    crate::grid::lemma_flip_square(g, d, r, c);
}

/// The stabilizer move keeps the grid square, and flips exactly the cells of
/// its plaquette.
pub proof fn lemma_plaquette_bits(g: Seq<Seq<bool>>, d: int, across: bool, a: int, b: int)
    requires
        square(g, d),
        1 <= a,
        a + 1 < d,
        0 <= b < d,
    ensures
        square(plaquette(g, d, across, a, b), d),
        forall|i: int, j: int|
            0 <= i < d && 0 <= j < d ==> #[trigger] plaquette(g, d, across, a, b)[i][j] == (
            g[i][j] != in_plaquette(d, across, a, b, i, j)),
{
    let p1 = at(across, a + 1, b);
    let g1 = line_flip(g, across, a + 1, b);
    lemma_flip_bit(g, d, p1.0, p1.1);
    let g2 = if b != 0 {
        line_flip(g1, across, a, b - 1)
    } else {
        g1
    };
    if b != 0 {
        lemma_flip_bit(g1, d, at(across, a, b - 1).0, at(across, a, b - 1).1);
    }
    let g3 = if b != d - 1 {
        line_flip(g2, across, a, b + 1)
    } else {
        g2
    };
    if b != d - 1 {
        lemma_flip_bit(g2, d, at(across, a, b + 1).0, at(across, a, b + 1).1);
    }
    lemma_flip_bit(g3, d, at(across, a - 1, b).0, at(across, a - 1, b).1);
}

/// Applying the stabilizer move twice at the same place restores the grid.
pub proof fn law_plaquette_twice(g: Seq<Seq<bool>>, d: int, across: bool, a: int, b: int)
    requires
        square(g, d),
        1 <= a,
        a + 1 < d,
        0 <= b < d,
    ensures
        plaquette(plaquette(g, d, across, a, b), d, across, a, b) == g,
{
    let once = plaquette(g, d, across, a, b);
    lemma_plaquette_bits(g, d, across, a, b);
    lemma_plaquette_bits(once, d, across, a, b);
    let h = plaquette(once, d, across, a, b);
    assert forall|i: int| 0 <= i < d implies #[trigger] h[i] == g[i] by {
        assert forall|j: int| 0 <= j < d implies #[trigger] h[i][j] == g[i][j] by {
            assert(h[i][j] == (once[i][j] != in_plaquette(d, across, a, b, i, j)));
        }
        assert(h[i] =~= g[i]);
    }
    assert(h =~= g);
}

/// The parity of the bits at position 0 of the even lines below `n`: the
/// residual on the data cells of the edge that the sweep walks defects to.
pub open spec fn edge_parity(g: Seq<Seq<bool>>, across: bool, n: int) -> bool
    decreases n,
{
    if n <= 0 {
        false
    } else {
        edge_parity(g, across, n - 1) != ((n - 1) % 2 == 0 && line_bit(g, across, n - 1, 0))
    }
}

proof fn lemma_line_flip(g: Seq<Seq<bool>>, d: int, across: bool, a: int, b: int)
    requires
        square(g, d),
        0 <= a < d,
        0 <= b < d,
    ensures
        square(line_flip(g, across, a, b), d),
        forall|x: int, y: int|
            0 <= x < d && 0 <= y < d ==> #[trigger] line_bit(line_flip(g, across, a, b), across, x, y)
                == (line_bit(g, across, x, y) != (x == a && y == b)),
{
    lemma_flip_bit(g, d, at(across, a, b).0, at(across, a, b).1);
}

proof fn lemma_edge_flip(g: Seq<Seq<bool>>, d: int, across: bool, a: int, b: int, n: int)
    requires
        square(g, d),
        0 <= a < d,
        0 <= b < d,
        0 <= n <= d,
    ensures
        edge_parity(line_flip(g, across, a, b), across, n) == (edge_parity(g, across, n) != (b == 0
            && a % 2 == 0 && a < n)),
    decreases n,
{
    lemma_line_flip(g, d, across, a, b);
    if n > 0 {
        lemma_edge_flip(g, d, across, a, b, n - 1);
        assert(line_bit(line_flip(g, across, a, b), across, n - 1, 0) == (line_bit(g, across, n - 1, 0)
            != (n - 1 == a && 0 == b)));
    }
}

/// The stabilizer move at an odd line and even position keeps the edge parity.
proof fn lemma_plaquette_edge(g: Seq<Seq<bool>>, d: int, across: bool, a: int, b: int)
    requires
        square(g, d),
        1 <= a,
        a + 1 < d,
        0 <= b < d,
        a % 2 == 1,
        b % 2 == 0,
    ensures
        square(plaquette(g, d, across, a, b), d),
        edge_parity(plaquette(g, d, across, a, b), across, d) == edge_parity(g, across, d),
{
    let g1 = line_flip(g, across, a + 1, b);
    lemma_edge_flip(g, d, across, a + 1, b, d);
    lemma_line_flip(g, d, across, a + 1, b);
    let g2 = if b != 0 {
        line_flip(g1, across, a, b - 1)
    } else {
        g1
    };
    if b != 0 {
        lemma_edge_flip(g1, d, across, a, b - 1, d);
        lemma_line_flip(g1, d, across, a, b - 1);
    }
    let g3 = if b != d - 1 {
        line_flip(g2, across, a, b + 1)
    } else {
        g2
    };
    if b != d - 1 {
        lemma_edge_flip(g2, d, across, a, b + 1, d);
        lemma_line_flip(g2, d, across, a, b + 1);
    }
    lemma_edge_flip(g3, d, across, a - 1, b, d);
    lemma_line_flip(g3, d, across, a - 1, b);
}

/// The stabilizer move at an even position changes position 0 only on the
/// two neighbouring lines, and only when the position is 0.
proof fn lemma_plaquette_edge_bits(g: Seq<Seq<bool>>, d: int, across: bool, a: int, b: int)
    requires
        square(g, d),
        1 <= a,
        a + 1 < d,
        0 <= b < d,
        b % 2 == 0,
    ensures
        forall|x: int|
            0 <= x < d ==> #[trigger] line_bit(plaquette(g, d, across, a, b), across, x, 0) == (
            line_bit(g, across, x, 0) != (b == 0 && (x == a + 1 || x == a - 1))),
{
    lemma_plaquette_bits(g, d, across, a, b);
    assert forall|x: int| 0 <= x < d implies #[trigger] line_bit(
        plaquette(g, d, across, a, b),
        across,
        x,
        0,
    ) == (line_bit(g, across, x, 0) != (b == 0 && (x == a + 1 || x == a - 1))) by {
        let p = at(across, x, 0);
        assert(in_plaquette(d, across, a, b, p.0, p.1) == (b == 0 && (x == a + 1 || x == a - 1)));
    }
}

/// A pass over an odd line keeps the edge parity and the grid square.
proof fn lemma_sweep_line_edge(g: Seq<Seq<bool>>, d: int, across: bool, a: int, n: int)
    requires
        square(g, d),
        1 <= a,
        a + 1 < d,
        a % 2 == 1,
        0 <= n <= d,
    ensures
        square(sweep_line(g, d, across, a, n), d),
        edge_parity(sweep_line(g, d, across, a, n), across, d) == edge_parity(g, across, d),
        forall|x: int|
            0 <= x < d && x != a + 1 && x != a - 1 ==> #[trigger] line_bit(
                sweep_line(g, d, across, a, n),
                across,
                x,
                0,
            ) == line_bit(g, across, x, 0),
        n >= 1 ==> !line_bit(sweep_line(g, d, across, a, n), across, a + 1, 0),
    decreases n,
{
    if n > 0 {
        lemma_sweep_line_edge(g, d, across, a, n - 1);
        let h = sweep_line(g, d, across, a, n - 1);
        if (n - 1) % 2 == 0 {
            lemma_plaquette_edge(h, d, across, a, n - 1);
            lemma_plaquette_edge_bits(h, d, across, a, n - 1);
        }
    }
}

/// The passes over the lines below `m` keep the edge parity, leave position 0
/// of lines above `m` alone, and clear it on even lines from 2 to `m`.
proof fn lemma_sweep_lines_edge(g: Seq<Seq<bool>>, d: int, across: bool, m: int)
    requires
        square(g, d),
        d % 2 == 1,
        0 <= m <= d,
    ensures
        square(sweep_lines(g, d, across, m), d),
        edge_parity(sweep_lines(g, d, across, m), across, d) == edge_parity(g, across, d),
        forall|x: int|
            m < x < d ==> #[trigger] line_bit(sweep_lines(g, d, across, m), across, x, 0) == line_bit(
                g,
                across,
                x,
                0,
            ),
        forall|x: int|
            2 <= x <= m && x % 2 == 0 ==> !#[trigger] line_bit(
                sweep_lines(g, d, across, m),
                across,
                x,
                0,
            ),
    decreases m,
{
    if m > 0 {
        let h = if (m - 1) % 2 == 1 {
            sweep_line(g, d, across, m - 1, d)
        } else {
            g
        };
        if (m - 1) % 2 == 1 {
            lemma_sweep_line_edge(g, d, across, m - 1, d);
        }
        lemma_sweep_lines_edge(h, d, across, m - 1);
    }
}

proof fn lemma_edge_parity_origin(g: Seq<Seq<bool>>, across: bool, n: int)
    requires
        n >= 1,
        forall|x: int| 2 <= x < n && x % 2 == 0 ==> !#[trigger] line_bit(g, across, x, 0),
    ensures
        edge_parity(g, across, n) == line_bit(g, across, 0, 0),
    decreases n,
{
    if n > 1 {
        lemma_edge_parity_origin(g, across, n - 1);
        if (n - 1) % 2 == 0 {
            assert(!line_bit(g, across, n - 1, 0));
        }
    } else {
        assert(edge_parity(g, across, 0) == false);
    }
}

/// The class indicator that the sweep leaves at the origin is the parity of
/// the residual on the data cells of the edge line at position 0.
pub proof fn lemma_reduced_origin(g: Seq<Seq<bool>>, d: int, across: bool)
    requires
        square(g, d),
        d % 2 == 1,
    ensures
        reduced(g, d, across)[0][0] == edge_parity(g, across, d),
{
    lemma_sweep_lines_edge(g, d, across, d);
    lemma_edge_parity_origin(reduced(g, d, across), across, d);
}

/// The class indicator does not depend on stabilizer moves of the sweep made
/// before it: applying the move at any odd line and even position first
/// leaves the swept origin bit unchanged.
pub proof fn law_class_invariant_under_plaquette(
    g: Seq<Seq<bool>>,
    d: int,
    across: bool,
    a: int,
    b: int,
)
    requires
        square(g, d),
        d % 2 == 1,
        1 <= a,
        a + 1 < d,
        0 <= b < d,
        a % 2 == 1,
        b % 2 == 0,
    ensures
        reduced(plaquette(g, d, across, a, b), d, across)[0][0] == reduced(g, d, across)[0][0],
{
    lemma_plaquette_edge(g, d, across, a, b);
    lemma_reduced_origin(g, d, across);
    lemma_reduced_origin(plaquette(g, d, across, a, b), d, across);
}

/// Flips the bit at position `b` of line `a`.
fn flip_on_line(g: &mut Grid, across: bool, a: usize, b: usize)
    requires
        old(g).wf(),
        a < old(g).side(),
        b < old(g).side(),
    ensures
        final(g).wf(),
        final(g).side() == old(g).side(),
        final(g)@ == line_flip(old(g)@, across, a as int, b as int),
{
    if across {
        g.flip(b, a);
    } else {
        g.flip(a, b);
    }
}

/// Applies the stabilizer move at line `a`, position `b`.
fn apply_plaquette(g: &mut Grid, across: bool, a: usize, b: usize)
    requires
        old(g).wf(),
        1 <= a,
        a + 1 < old(g).side(),
        b < old(g).side(),
    ensures
        final(g).wf(),
        final(g).side() == old(g).side(),
        final(g)@ == plaquette(old(g)@, old(g).side(), across, a as int, b as int),
{
    let d = g.rows.len();
    flip_on_line(g, across, a + 1, b);
    if b != 0 {
        flip_on_line(g, across, a, b - 1);
    }
    if b != d - 1 {
        flip_on_line(g, across, a, b + 1);
    }
    flip_on_line(g, across, a - 1, b);
}

/// Sweeps one grid; `across` selects columns instead of rows as lines.
fn sweep_grid(g: &mut Grid, across: bool)
    requires
        old(g).wf(),
        old(g).side() % 2 == 1,
    ensures
        final(g).wf(),
        final(g).side() == old(g).side(),
        final(g)@ == reduced(old(g)@, old(g).side(), across),
{
    let d = g.rows.len();
    let ghost d_int = d as int;
    let mut m: usize = d;
    while m > 0
        invariant
            g.wf(),
            g.side() == d,
            d % 2 == 1,
            d_int == d,
            m <= d,
            sweep_lines(g@, d_int, across, m as int) == reduced(old(g)@, d_int, across),
        decreases m,
    {
        let a = m - 1;
        if a % 2 == 1 {
            let ghost start = g@;
            let mut b: usize = 0;
            while b < d
                invariant
                    g.wf(),
                    g.side() == d,
                    d % 2 == 1,
                    d_int == d,
                    a % 2 == 1,
                    a < d,
                    b <= d,
                    g@ == sweep_line(start, d_int, across, a as int, b as int),
                decreases d - b,
            {
                let ghost prev = g@;
                if b % 2 == 0 {
                    let (r, c) = if across { (b, a + 1) } else { (a + 1, b) };
                    if g.get(r, c) {
                        apply_plaquette(g, across, a, b);
                    }
                    assert(g@ == sweep_step(prev, d_int, across, a as int, b as int));
                }
                assert(sweep_line(start, d_int, across, a as int, b as int + 1) == if b % 2 == 0 {
                    sweep_step(prev, d_int, across, a as int, b as int)
                } else {
                    prev
                });
                b += 1;
            }
        }
        m = a;
    }
    assert(sweep_lines(g@, d_int, across, 0) == g@);
}

/// Sweeps the type-A grid along rows and the type-B grid along columns. Where
/// the syndrome is clean, the bits left at the origin tell whether each
/// residual error is logically trivial (clear) or not (set).
pub fn sweep(x_error: Grid, z_error: Grid) -> (r: (Grid, Grid))
    requires
        x_error.wf(),
        z_error.wf(),
        x_error.side() % 2 == 1,
        z_error.side() % 2 == 1,
    ensures
        r.0.wf(),
        r.1.wf(),
        r.0.side() == x_error.side(),
        r.1.side() == z_error.side(),
        r.0@ == reduced(x_error@, x_error.side(), false),
        r.1@ == reduced(z_error@, z_error.side(), true),
{
    let mut gx = x_error;
    let mut gz = z_error;
    sweep_grid(&mut gx, false);
    sweep_grid(&mut gz, true);
    (gx, gz)
}

} // verus!
