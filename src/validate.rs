//! Validation of a decoder's corrections against the lattice.
use vstd::prelude::*;
use crate::lattice::is_data;
use crate::model::{Input, Output};

verus! {

/// Why a correction coordinate is refused.
#[derive(Clone, Copy, Debug, PartialEq, Eq, Structural)]
pub enum ErrorKind {
    /// The coordinate lies outside the lattice.
    OutOfBounds,
    /// The coordinate is a measurement cell.
    NotADataCell,
}

/// The correction channel: type-A (X) or type-B (Z).
#[derive(Clone, Copy, Debug, PartialEq, Eq, Structural)]
pub enum Channel {
    TypeA,
    TypeB,
}

/// The first refused correction: where it stands and why.
#[derive(Clone, Copy, Debug, PartialEq, Eq, Structural)]
pub struct CorrectionError {
    pub kind: ErrorKind,
    pub channel: Channel,
    pub instance: usize,
    pub round: usize,
    /// Position of the coordinate in its round's list.
    pub index: usize,
    pub row: usize,
    pub col: usize,
}

/// The verdict on one coordinate.
pub open spec fn coord_verdict(d: int, r: int, c: int) -> Option<ErrorKind> {
    if !(0 <= r < d && 0 <= c < d) {
        Some(ErrorKind::OutOfBounds)
    } else if !is_data(r, c) {
        Some(ErrorKind::NotADataCell)
    } else {
        None
    }
}

/// A coordinate names a data cell of the lattice.
pub open spec fn coord_ok(d: int, p: (usize, usize)) -> bool {
    coord_verdict(d, p.0 as int, p.1 as int) is None
}

/// Every coordinate of `s` names a data cell.
pub open spec fn list_ok(d: int, s: Seq<(usize, usize)>) -> bool {
    forall|i: int| 0 <= i < s.len() ==> coord_ok(d, #[trigger] s[i])
}

/// Both channels of round `r` of instance `k` are valid.
pub open spec fn round_ok(d: int, out: &Output, k: int, r: int) -> bool {
    list_ok(d, out.x_correction@[k]@[r]@) && list_ok(d, out.z_correction@[k]@[r]@)
}

/// Every correction of the first `t` instances, `c` rounds each, is valid.
pub open spec fn all_ok(d: int, out: &Output, t: int, c: int) -> bool {
    forall|k: int, r: int| 0 <= k < t && 0 <= r < c ==> #[trigger] round_ok(d, out, k, r)
}

/// The list of the channel in round `r` of instance `k`.
pub open spec fn channel_list(out: &Output, ch: Channel, k: int, r: int) -> Seq<(usize, usize)> {
    match ch {
        Channel::TypeA => out.x_correction@[k]@[r]@,
        Channel::TypeB => out.z_correction@[k]@[r]@,
    }
}

/// `e` names the first refused coordinate in the scan order: instance, then
/// round, then type-A before type-B, then position in the list.
pub open spec fn is_first_error(d: int, out: &Output, t: int, c: int, e: CorrectionError) -> bool {
    let k = e.instance as int;
    let r = e.round as int;
    let s = channel_list(out, e.channel, k, r);
    &&& k < t && r < c
    &&& e.index < s.len()
    &&& s[e.index as int] == (e.row, e.col)
    &&& coord_verdict(d, e.row as int, e.col as int) == Some(e.kind)
    &&& forall|kk: int, rr: int| 0 <= kk < k && 0 <= rr < c ==> #[trigger] round_ok(d, out, kk, rr)
    &&& forall|rr: int| 0 <= rr < r ==> #[trigger] round_ok(d, out, k, rr)
    &&& e.channel == Channel::TypeB ==> list_ok(d, out.x_correction@[k]@[r]@)
    &&& forall|i: int| 0 <= i < e.index ==> coord_ok(d, #[trigger] s[i])
}

/// Checks one coordinate against a lattice of side `d`.
pub fn check_coordinate(d: usize, r: usize, c: usize) -> (v: Result<(), ErrorKind>)
    ensures
        v is Ok <==> coord_verdict(d as int, r as int, c as int) is None,
        v is Err ==> coord_verdict(d as int, r as int, c as int) == Some(v->Err_0),
{
    if r >= d || c >= d {
        Err(ErrorKind::OutOfBounds)
    } else if r % 2 != c % 2 {
        Err(ErrorKind::NotADataCell)
    } else {
        Ok(())
    }
}

/// The first refused coordinate of `s`, with its position, if any.
fn check_list(d: usize, s: &Vec<(usize, usize)>) -> (v: Option<(usize, ErrorKind)>)
    ensures
        v is None <==> list_ok(d as int, s@),
        v matches Some((i, kind)) ==> i < s@.len() && coord_verdict(
            d as int,
            s@[i as int].0 as int,
            s@[i as int].1 as int,
        ) == Some(kind) && forall|j: int| 0 <= j < i ==> coord_ok(d as int, #[trigger] s@[j]),
{
    let mut i: usize = 0;
    while i < s.len()
        invariant
            i <= s@.len(),
            forall|j: int| 0 <= j < i ==> coord_ok(d as int, #[trigger] s@[j]),
        decreases s@.len() - i,
    {
        let (r, c) = s[i];
        match check_coordinate(d, r, c) {
            Err(kind) => {
                return Some((i, kind));
            },
            Ok(()) => {},
        }
        i += 1;
    }
    None
}

/// Checks every correction of `output` against the lattice of `input`,
/// stopping at the first refused one.
pub fn validate(input: &Input, output: &Output) -> (v: Result<(), CorrectionError>)
    requires
        output.fits(input.t as int, input.c as int),
    ensures
        v is Ok <==> all_ok(input.d as int, output, input.t as int, input.c as int),
        v matches Err(e) ==> is_first_error(input.d as int, output, input.t as int, input.c as int, e),
{
    let d = input.d;
    let ghost dd = d as int;
    let ghost cc = input.c as int;
    let mut k: usize = 0;
    while k < input.t
        invariant
            output.fits(input.t as int, input.c as int),
            d == input.d,
            dd == d,
            cc == input.c,
            k <= input.t,
            forall|kk: int, rr: int| 0 <= kk < k && 0 <= rr < cc ==> #[trigger] round_ok(dd, output, kk, rr),
        decreases input.t - k,
    {
        let mut r: usize = 0;
        while r < input.c
            invariant
                output.fits(input.t as int, input.c as int),
                d == input.d,
                dd == d,
                cc == input.c,
                k < input.t,
                r <= input.c,
                forall|kk: int, rr: int| 0 <= kk < k && 0 <= rr < cc ==> #[trigger] round_ok(dd, output, kk, rr),
                forall|rr: int| 0 <= rr < r ==> #[trigger] round_ok(dd, output, k as int, rr),
            decreases input.c - r,
        {
            let xs = &output.x_correction[k][r];
            if let Some((i, kind)) = check_list(d, xs) {
                let e = CorrectionError {
                    kind,
                    channel: Channel::TypeA,
                    instance: k,
                    round: r,
                    index: i,
                    row: xs[i].0,
                    col: xs[i].1,
                };
                assert(!round_ok(dd, output, k as int, r as int));
                return Err(e);
            }
            let zs = &output.z_correction[k][r];
            if let Some((i, kind)) = check_list(d, zs) {
                let e = CorrectionError {
                    kind,
                    channel: Channel::TypeB,
                    instance: k,
                    round: r,
                    index: i,
                    row: zs[i].0,
                    col: zs[i].1,
                };
                assert(!round_ok(dd, output, k as int, r as int));
                return Err(e);
            }
            r += 1;
        }
        k += 1;
    }
    Ok(())
}

} // verus!
