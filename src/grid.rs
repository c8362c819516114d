//! Square parity grids and the toggle operation.
use vstd::prelude::*;

verus! {

/// A square grid of parity bits, one row per vector.
#[derive(Clone, Debug, PartialEq, Eq)]
pub struct Grid {
    pub rows: Vec<Vec<bool>>,
}

/// The bit at `(r, c)`; cells outside the grid read as clear.
pub open spec fn bit(g: Seq<Seq<bool>>, r: int, c: int) -> bool {
    0 <= r < g.len() && 0 <= c < g[r].len() && g[r][c]
}

/// `g` is a `d` by `d` grid.
pub open spec fn square(g: Seq<Seq<bool>>, d: int) -> bool {
    g.len() == d && forall|i: int| 0 <= i < d ==> #[trigger] g[i].len() == d
}

/// The grid with the bit at `(r, c)` flipped.
pub open spec fn flip(g: Seq<Seq<bool>>, r: int, c: int) -> Seq<Seq<bool>> {
    g.update(r, g[r].update(c, !g[r][c]))
}

/// The grid after flipping the bit at each listed coordinate, in order.
pub open spec fn flip_all(g: Seq<Seq<bool>>, s: Seq<(usize, usize)>) -> Seq<Seq<bool>>
    decreases s.len(),
{
    if s.len() == 0 {
        g
    } else {
        flip(flip_all(g, s.drop_last()), s.last().0 as int, s.last().1 as int)
    }
}

/// Every listed coordinate lies inside a `d` by `d` grid.
pub open spec fn all_within(s: Seq<(usize, usize)>, d: int) -> bool {
    forall|k: int| 0 <= k < s.len() ==> (#[trigger] s[k]).0 < d && s[k].1 < d
}

/// How many times `(r, c)` occurs in `s`.
pub open spec fn occurrences(s: Seq<(usize, usize)>, r: int, c: int) -> nat
    decreases s.len(),
{
    if s.len() == 0 {
        0
    } else {
        occurrences(s.drop_last(), r, c) + if s.last().0 == r && s.last().1 == c { 1nat } else { 0nat }
    }
}

/// Flipping keeps the grid square.
pub proof fn lemma_flip_square(g: Seq<Seq<bool>>, d: int, r: int, c: int)
    requires
        square(g, d),
        0 <= r < d,
        0 <= c < d,
    ensures
        square(flip(g, r, c), d),
{
    assert forall|i: int| 0 <= i < d implies #[trigger] flip(g, r, c)[i].len() == d by {
        if i == r {
        }
    }
}

/// After flipping the listed coordinates, each bit is the old bit exclusive-or
/// the parity of how often its coordinate was listed.
pub proof fn lemma_flip_all_bits(g: Seq<Seq<bool>>, d: int, s: Seq<(usize, usize)>)
    requires
        square(g, d),
        all_within(s, d),
    ensures
        square(flip_all(g, s), d),
        forall|r: int, c: int|
            0 <= r < d && 0 <= c < d ==> #[trigger] flip_all(g, s)[r][c] == (g[r][c] != (
            occurrences(s, r, c) % 2 == 1)),
    decreases s.len(),
{
    if s.len() > 0 {
        let p = s.drop_last();
        assert(all_within(p, d)) by {
            assert forall|k: int| 0 <= k < p.len() implies (#[trigger] p[k]).0 < d && p[k].1 < d by {
                assert(p[k] == s[k]);
            }
        }
        lemma_flip_all_bits(g, d, p);
        let last = s.last();
        assert(s[s.len() - 1] == last);
        lemma_flip_square(flip_all(g, p), d, last.0 as int, last.1 as int);
    }
}

/// Flipping the same coordinates twice restores the grid.
pub proof fn law_flip_all_twice(g: Seq<Seq<bool>>, d: int, s: Seq<(usize, usize)>)
    requires
        square(g, d),
        all_within(s, d),
    ensures
        flip_all(flip_all(g, s), s) == g,
{
    lemma_flip_all_bits(g, d, s);
    lemma_flip_all_bits(flip_all(g, s), d, s);
    let h = flip_all(flip_all(g, s), s);
    assert forall|r: int| 0 <= r < d implies #[trigger] h[r] == g[r] by {
        assert forall|c: int| 0 <= c < d implies #[trigger] h[r][c] == g[r][c] by {
            assert(h[r][c] == flip_all(g, s)[r][c] != (occurrences(s, r, c) % 2 == 1));
        }
        assert(h[r] =~= g[r]);
    }
    assert(h =~= g);
}

impl View for Grid {
    type V = Seq<Seq<bool>>;

    open spec fn view(&self) -> Seq<Seq<bool>> {
        self.rows@.map_values(|row: Vec<bool>| row@)
    }
}

impl Grid {
    /// The side length.
    pub open spec fn side(&self) -> int {
        self.rows@.len() as int
    }

    pub open spec fn wf(&self) -> bool {
        square(self@, self.side())
    }

    /// A `d` by `d` grid with every bit clear.
    pub fn new(d: usize) -> (g: Grid)
        ensures
            g.wf(),
            g.side() == d,
            forall|r: int, c: int| #![auto] !bit(g@, r, c),
    {
        let mut rows: Vec<Vec<bool>> = Vec::new();
        let mut i: usize = 0;
        while i < d
            invariant
                i <= d,
                rows@.len() == i,
                forall|k: int| 0 <= k < i ==> #[trigger] rows@[k]@ == Seq::new(d as nat, |x: int| false),
            decreases d - i,
        {
            rows.push(vec![false; d]);
            i += 1;
        }
        let g = Grid { rows };
        assert forall|r: int, c: int| !bit(g@, r, c) by {
            if 0 <= r < d {
                assert(g@[r] == rows@[r]@);
            }
        }
        g
    }

    /// The bit at `(r, c)`.
    pub fn get(&self, r: usize, c: usize) -> (b: bool)
        requires
            self.wf(),
            r < self.side(),
            c < self.side(),
        ensures
            b == self@[r as int][c as int],
    {
        assert(self@[r as int] == self.rows@[r as int]@);
        self.rows[r][c]
    }

    /// The bit at `(r, c)`, reading clear outside the grid.
    pub fn read(&self, r: usize, c: usize) -> (b: bool)
        requires
            self.wf(),
        ensures
            b == bit(self@, r as int, c as int),
    {
        if r < self.rows.len() && c < self.rows.len() {
            self.get(r, c)
        } else {
            false
        }
    }

    /// Flips the bit at `(r, c)`.
    pub fn flip(&mut self, r: usize, c: usize)
        requires
            old(self).wf(),
            r < old(self).side(),
            c < old(self).side(),
        ensures
            final(self).wf(),
            final(self).side() == old(self).side(),
            final(self)@ == flip(old(self)@, r as int, c as int),
    {
        let ghost before = self@;
        assert(before[r as int] == self.rows@[r as int]@);
        let v = self.rows[r][c];
        self.rows[r][c] = !v;
        assert(self@ =~= flip(before, r as int, c as int));
    }
}

/// Flips the bit at each listed coordinate; a coordinate listed twice cancels.
pub fn toggle(g: &mut Grid, coords: &Vec<(usize, usize)>)
    requires
        old(g).wf(),
        all_within(coords@, old(g).side()),
    ensures
        final(g).wf(),
        final(g).side() == old(g).side(),
        final(g)@ == flip_all(old(g)@, coords@),
{
    let ghost before = g@;
    let mut i: usize = 0;
    while i < coords.len()
        invariant
            i <= coords@.len(),
            g.wf(),
            g.side() == old(g).side(),
            all_within(coords@, g.side()),
            g@ == flip_all(before, coords@.take(i as int)),
        decreases coords@.len() - i,
    {
        let (r, c) = coords[i];
        proof {
            assert(coords@[i as int] == (r, c));
            assert(coords@.take(i as int + 1).drop_last() =~= coords@.take(i as int));
        }
        g.flip(r, c);
        i += 1;
    }
    assert(coords@.take(i as int) =~= coords@);
}

} // verus!
