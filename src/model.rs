//! The data of a test input and of a decoder's output.
use vstd::prelude::*;
use crate::grid::all_within;

verus! {

/// Coordinates `(row, col)` touched in each round.
pub type Rounds = Vec<Vec<(usize, usize)>>;

/// One independent trial: per round, the cells hit by a type-A error, by a
/// type-B error, and by a measurement error.
#[derive(Clone, Debug, PartialEq, Eq)]
pub struct Instance {
    pub x_depolarizing_error: Rounds,
    pub z_depolarizing_error: Rounds,
    pub measure_error: Rounds,
}

/// A test input. The severities `e_d` and `e_m` are probabilities written in
/// thousandths (`e_d == 30` stands for 0.03).
#[derive(Clone, Debug, PartialEq, Eq)]
pub struct Input {
    pub d: usize,
    pub c: usize,
    pub e_d: u32,
    pub e_m: u32,
    pub t: usize,
    pub testcase: Vec<Instance>,
}

/// The corrections of a decoder: indexed by instance, then by round.
#[derive(Clone, Debug, PartialEq, Eq)]
pub struct Output {
    pub x_correction: Vec<Rounds>,
    pub z_correction: Vec<Rounds>,
}

/// The coordinate lists of each round as sequences.
pub open spec fn rounds_view(v: Rounds) -> Seq<Seq<(usize, usize)>> {
    v@.map_values(|r: Vec<(usize, usize)>| r@)
}

/// `v` has `c` rounds, each naming cells inside a lattice of side `d`.
pub open spec fn rounds_within(v: Rounds, c: int, d: int) -> bool {
    &&& v@.len() == c
    &&& forall|r: int| 0 <= r < c ==> all_within(#[trigger] v@[r]@, d)
}

impl Instance {
    pub open spec fn wf(&self, c: int, d: int) -> bool {
        &&& rounds_within(self.x_depolarizing_error, c, d)
        &&& rounds_within(self.z_depolarizing_error, c, d)
        &&& rounds_within(self.measure_error, c, d)
    }
}

impl Input {
    /// An odd lattice whose cell count fits in `usize`, `t` instances of `c`
    /// rounds, and every event inside the lattice.
    pub open spec fn wf(&self) -> bool {
        &&& self.d % 2 == 1
        &&& self.d * self.d <= usize::MAX
        &&& self.e_d <= 1000
        &&& self.e_m <= 1000
        &&& self.testcase@.len() == self.t
        &&& forall|k: int|
            0 <= k < self.t ==> (#[trigger] self.testcase@[k]).wf(self.c as int, self.d as int)
    }
}

impl Output {
    /// The output holds `t` instances of `c` rounds in both channels.
    pub open spec fn fits(&self, t: int, c: int) -> bool {
        &&& self.x_correction@.len() == t
        &&& self.z_correction@.len() == t
        &&& forall|k: int| 0 <= k < t ==> #[trigger] self.x_correction@[k]@.len() == c
        &&& forall|k: int| 0 <= k < t ==> #[trigger] self.z_correction@[k]@.len() == c
    }
}

/// Whether every round of `v` names cells inside a lattice of side `d`, and
/// there are `c` rounds.
pub fn check_rounds(v: &Rounds, c: usize, d: usize) -> (b: bool)
    ensures
        b == rounds_within(*v, c as int, d as int),
{
    if v.len() != c {
        return false;
    }
    let mut r: usize = 0;
    while r < c
        invariant
            v@.len() == c,
            r <= c,
            forall|q: int| 0 <= q < r ==> all_within(#[trigger] v@[q]@, d as int),
        decreases c - r,
    {
        let cells = &v[r];
        let mut i: usize = 0;
        while i < cells.len()
            invariant
                v@.len() == c,
                r < c,
                cells@ == v@[r as int]@,
                forall|q: int| 0 <= q < r ==> all_within(#[trigger] v@[q]@, d as int),
                i <= cells@.len(),
                forall|k: int| 0 <= k < i ==> (#[trigger] cells@[k]).0 < d && cells@[k].1 < d,
            decreases cells@.len() - i,
        {
            if cells[i].0 >= d || cells[i].1 >= d {
                assert(!all_within(v@[r as int]@, d as int)) by {
                    assert(cells@[i as int] == cells[i as int]);
                }
                return false;
            }
            i += 1;
        }
        r += 1;
    }
    true
}

impl Input {
    /// Whether the input is well formed.
    pub fn is_valid(&self) -> (b: bool)
        ensures
            b == self.wf(),
    {
        if self.d % 2 != 1 || self.d > usize::MAX / self.d || self.e_d > 1000 || self.e_m > 1000
            || self.testcase.len() != self.t {
            proof {
                if self.d % 2 == 1 && self.d > usize::MAX / self.d {
                    assert(self.d * self.d > usize::MAX) by (nonlinear_arith)
                        requires
                            self.d > usize::MAX / self.d,
                            self.d > 0,
                    ;
                }
            }
            return false;
        }
        proof {
            assert(self.d * self.d <= usize::MAX) by (nonlinear_arith)
                requires
                    self.d <= usize::MAX / self.d,
                    self.d > 0,
            ;
        }
        let mut k: usize = 0;
        while k < self.t
            invariant
                self.testcase@.len() == self.t,
                k <= self.t,
                forall|j: int| 0 <= j < k ==> (#[trigger] self.testcase@[j]).wf(self.c as int, self.d as int),
            decreases self.t - k,
        {
            let inst = &self.testcase[k];
            if !check_rounds(&inst.x_depolarizing_error, self.c, self.d)
                || !check_rounds(&inst.z_depolarizing_error, self.c, self.d)
                || !check_rounds(&inst.measure_error, self.c, self.d) {
                return false;
            }
            k += 1;
        }
        true
    }
}

impl Output {
    /// Whether the output holds `t` instances of `c` rounds in both channels.
    pub fn has_shape(&self, t: usize, c: usize) -> (b: bool)
        ensures
            b == self.fits(t as int, c as int),
    {
        if self.x_correction.len() != t || self.z_correction.len() != t {
            return false;
        }
        let mut k: usize = 0;
        while k < t
            invariant
                self.x_correction@.len() == t,
                self.z_correction@.len() == t,
                k <= t,
                forall|j: int| 0 <= j < k ==> #[trigger] self.x_correction@[j]@.len() == c,
                forall|j: int| 0 <= j < k ==> #[trigger] self.z_correction@[j]@.len() == c,
            decreases t - k,
        {
            if self.x_correction[k].len() != c || self.z_correction[k].len() != c {
                return false;
            }
            k += 1;
        }
        true
    }
}

} // verus!
