//! Writing an input in its text form.
use vstd::prelude::*;
use crate::model::{Input, Instance, Rounds};

verus! {

/// The decimal digits of `n`.
pub open spec fn decimal(n: nat) -> Seq<u8>
    decreases n,
{
    if n < 10 {
        seq![(48 + n) as u8]
    } else {
        decimal(n / 10).push((48 + n % 10) as u8)
    }
}

/// A rate in thousandths as the shortest decimal: `0`, `1`, or `0.` and up
/// to three digits without trailing zeros.
pub open spec fn rate_text(v: u32) -> Seq<u8> {
    let a = (v / 100) as int;
    let b = (v / 10 % 10) as int;
    let c = (v % 10) as int;
    if v == 0 {
        seq![48u8]
    } else if v >= 1000 {
        seq![49u8]
    } else if c != 0 {
        seq![48u8, 46u8, (48 + a) as u8, (48 + b) as u8, (48 + c) as u8]
    } else if b != 0 {
        seq![48u8, 46u8, (48 + a) as u8, (48 + b) as u8]
    } else {
        seq![48u8, 46u8, (48 + a) as u8]
    }
}

/// One event line: `k r row col`.
pub open spec fn event_line(k: nat, r: nat, p: (usize, usize)) -> Seq<u8> {
    decimal(k) + seq![32u8] + decimal(r) + seq![32u8] + decimal(p.0 as nat) + seq![32u8] + decimal(
        p.1 as nat,
    ) + seq![10u8]
}

/// The lines of the first `n` cells of `s`, in round `r` of instance `k`.
pub open spec fn cells_text(k: nat, r: nat, s: Seq<(usize, usize)>, n: int) -> Seq<u8>
    decreases n,
{
    if n <= 0 {
        seq![]
    } else {
        cells_text(k, r, s, n - 1) + event_line(k, r, s[n - 1])
    }
}

/// The lines of the first `n` rounds of instance `k`.
pub open spec fn rounds_text(k: nat, rs: Seq<Seq<(usize, usize)>>, n: int) -> Seq<u8>
    decreases n,
{
    if n <= 0 {
        seq![]
    } else {
        rounds_text(k, rs, n - 1) + cells_text(k, (n - 1) as nat, rs[n - 1], rs[n - 1].len() as int)
    }
}

/// The number of events in the first `n` rounds.
pub open spec fn rounds_count(rs: Seq<Seq<(usize, usize)>>, n: int) -> nat
    decreases n,
{
    if n <= 0 {
        0
    } else {
        rounds_count(rs, n - 1) + rs[n - 1].len()
    }
}

/// The rounds of channel `ch` (type-A, type-B, measurement) of an instance.
pub open spec fn channel(inst: Instance, ch: int) -> Seq<Seq<(usize, usize)>> {
    let v = if ch == 0 {
        inst.x_depolarizing_error
    } else if ch == 1 {
        inst.z_depolarizing_error
    } else {
        inst.measure_error
    };
    v@.map_values(|r: Vec<(usize, usize)>| r@)
}

/// The lines of channel `ch` of the first `n` instances, `c` rounds each.
pub open spec fn channel_text(insts: Seq<Instance>, ch: int, c: int, n: int) -> Seq<u8>
    decreases n,
{
    if n <= 0 {
        seq![]
    } else {
        channel_text(insts, ch, c, n - 1) + rounds_text((n - 1) as nat, channel(insts[n - 1], ch), c)
    }
}

/// The number of events of channel `ch` in the first `n` instances.
pub open spec fn channel_count(insts: Seq<Instance>, ch: int, c: int, n: int) -> nat
    decreases n,
{
    if n <= 0 {
        0
    } else {
        channel_count(insts, ch, c, n - 1) + rounds_count(channel(insts[n - 1], ch), c)
    }
}

/// A section: the event count, then one line per event.
pub open spec fn section_text(input: &Input, ch: int) -> Seq<u8> {
    let insts = input.testcase@;
    decimal(channel_count(insts, ch, input.c as int, input.t as int)) + seq![10u8] + channel_text(
        insts,
        ch,
        input.c as int,
        input.t as int,
    )
}

/// The text of an input: the header line `d c e_d e_m t`, then the type-A,
/// type-B and measurement sections.
pub open spec fn input_text(input: &Input) -> Seq<u8> {
    decimal(input.d as nat) + seq![32u8] + decimal(input.c as nat) + seq![32u8] + rate_text(
        input.e_d,
    ) + seq![32u8] + rate_text(input.e_m) + seq![32u8] + decimal(input.t as nat) + seq![10u8]
        + section_text(input, 0) + section_text(input, 1) + section_text(input, 2)
}

/// Appends the decimal digits of `n`.
pub fn write_decimal(out: &mut Vec<u8>, n: usize)
    ensures
        final(out)@ == old(out)@ + decimal(n as nat),
    decreases n,
{
    if n >= 10 {
        write_decimal(out, n / 10);
    }
    out.push((48 + n % 10) as u8);
    proof {
        if n < 10 {
            assert(final(out)@ =~= old(out)@ + decimal(n as nat));
        } else {
            assert(final(out)@ =~= old(out)@ + decimal(n as nat));
        }
    }
}

/// Appends a rate in thousandths.
pub fn write_rate(out: &mut Vec<u8>, v: u32)
    ensures
        final(out)@ == old(out)@ + rate_text(v),
{
    let a = (v / 100 % 10) as u8;
    let b = (v / 10 % 10) as u8;
    let c = (v % 10) as u8;
    let ghost start = out@;
    if v == 0 {
        out.push(48);
    } else if v >= 1000 {
        out.push(49);
    } else {
        out.push(48);
        out.push(46);
        out.push(48 + a);
        if c != 0 {
            out.push(48 + b);
            out.push(48 + c);
        } else if b != 0 {
            out.push(48 + b);
        }
    }
    assert(out@ =~= start + rate_text(v));
}

fn pick(inst: &Instance, ch: u8) -> (v: &Rounds)
    requires
        ch < 3,
    ensures
        v@.map_values(|r: Vec<(usize, usize)>| r@) == channel(*inst, ch as int),
{
    if ch == 0 {
        &inst.x_depolarizing_error
    } else if ch == 1 {
        &inst.z_depolarizing_error
    } else {
        &inst.measure_error
    }
}

/// Appends the lines of one round's cells.
fn write_cells(out: &mut Vec<u8>, k: usize, r: usize, s: &Vec<(usize, usize)>)
    ensures
        final(out)@ == old(out)@ + cells_text(k as nat, r as nat, s@, s@.len() as int),
{
    let mut i: usize = 0;
    while i < s.len()
        invariant
            i <= s@.len(),
            out@ == old(out)@ + cells_text(k as nat, r as nat, s@, i as int),
        decreases s@.len() - i,
    {
        let ghost before = out@;
        write_decimal(out, k);
        out.push(32);
        write_decimal(out, r);
        out.push(32);
        write_decimal(out, s[i].0);
        out.push(32);
        write_decimal(out, s[i].1);
        out.push(10);
        assert(out@ =~= before + event_line(k as nat, r as nat, s@[i as int]));
        i += 1;
    }
}

/// The number of events of channel `ch`, if it fits in `usize`.
fn count_channel(input: &Input, ch: u8) -> (n: Option<usize>)
    requires
        ch < 3,
        input.testcase@.len() == input.t,
        forall|k: int| 0 <= k < input.t ==> (#[trigger] channel(input.testcase@[k], ch as int)).len() == input.c,
    ensures
        n is Some <==> channel_count(input.testcase@, ch as int, input.c as int, input.t as int) <= usize::MAX,
        n matches Some(x) ==> x == channel_count(input.testcase@, ch as int, input.c as int, input.t as int),
{
    let ghost insts = input.testcase@;
    let ghost cc = input.c as int;
    let mut total: usize = 0;
    let mut k: usize = 0;
    while k < input.t
        invariant
            insts == input.testcase@,
            cc == input.c,
            input.testcase@.len() == input.t,
            forall|j: int| 0 <= j < input.t ==> (#[trigger] channel(insts[j], ch as int)).len() == cc,
            ch < 3,
            k <= input.t,
            total == channel_count(insts, ch as int, cc, k as int),
        decreases input.t - k,
    {
        let rs = pick(&input.testcase[k], ch);
        let ghost rv = channel(insts[k as int], ch as int);
        let mut r: usize = 0;
        while r < input.c
            invariant
                insts == input.testcase@,
                cc == input.c,
                k < input.t,
                rv == channel(insts[k as int], ch as int),
                rs@.map_values(|x: Vec<(usize, usize)>| x@) == rv,
                rv.len() == cc,
                r <= input.c,
                total == channel_count(insts, ch as int, cc, k as int) + rounds_count(rv, r as int),
            decreases input.c - r,
        {
            assert(rv[r as int] == rs@[r as int]@);
            let len = rs[r].len();
            if total > usize::MAX - len {
                proof {
                    lemma_count_grows(insts, ch as int, cc, k as int + 1, input.t as int);
                    lemma_rounds_count_grows(rv, r as int + 1, cc);
                }
                return None;
            }
            total = total + len;
            r += 1;
        }
        k += 1;
    }
    Some(total)
}

/// Appends the lines of channel `ch` of every instance.
fn write_channel(out: &mut Vec<u8>, input: &Input, ch: u8)
    requires
        ch < 3,
        input.testcase@.len() == input.t,
        forall|k: int| 0 <= k < input.t ==> (#[trigger] channel(input.testcase@[k], ch as int)).len() == input.c,
    ensures
        final(out)@ == old(out)@ + channel_text(input.testcase@, ch as int, input.c as int, input.t as int),
{
    let ghost insts = input.testcase@;
    let ghost cc = input.c as int;
    let mut k: usize = 0;
    while k < input.t
        invariant
            insts == input.testcase@,
            cc == input.c,
            input.testcase@.len() == input.t,
            forall|j: int| 0 <= j < input.t ==> (#[trigger] channel(insts[j], ch as int)).len() == cc,
            ch < 3,
            k <= input.t,
            out@ == old(out)@ + channel_text(insts, ch as int, cc, k as int),
        decreases input.t - k,
    {
        let rs = pick(&input.testcase[k], ch);
        let ghost rv = channel(insts[k as int], ch as int);
        let ghost mid = out@;
        let mut r: usize = 0;
        while r < input.c
            invariant
                insts == input.testcase@,
                cc == input.c,
                k < input.t,
                rv == channel(insts[k as int], ch as int),
                rs@.map_values(|x: Vec<(usize, usize)>| x@) == rv,
                rv.len() == cc,
                r <= input.c,
                out@ == mid + rounds_text(k as nat, rv, r as int),
            decreases input.c - r,
        {
            assert(rv[r as int] == rs@[r as int]@);
            write_cells(out, k, r, &rs[r]);
            assert(out@ =~= mid + rounds_text(k as nat, rv, r as int + 1));
            r += 1;
        }
        assert(out@ =~= old(out)@ + channel_text(insts, ch as int, cc, k as int + 1));
        k += 1;
    }
}

impl Input {
    /// The text form of the input, or `None` where an event count does not
    /// fit in `usize`.
    pub fn to_text(&self) -> (r: Option<Vec<u8>>)
        requires
            self.wf(),
        ensures
            r is Some <==> (forall|ch: int| 0 <= ch < 3 ==> #[trigger] channel_count(
                self.testcase@,
                ch,
                self.c as int,
                self.t as int,
            ) <= usize::MAX),
            r matches Some(b) ==> b@ == input_text(self),
    {
        proof {
            assert forall|ch: int, k: int| 0 <= ch < 3 && 0 <= k < self.t implies (#[trigger] channel(
                self.testcase@[k],
                ch,
            )).len() == self.c by {
                assert(self.testcase@[k].wf(self.c as int, self.d as int));
            }
        }
        let mut out: Vec<u8> = Vec::new();
        write_decimal(&mut out, self.d);
        out.push(32);
        write_decimal(&mut out, self.c);
        out.push(32);
        write_rate(&mut out, self.e_d);
        out.push(32);
        write_rate(&mut out, self.e_m);
        out.push(32);
        write_decimal(&mut out, self.t);
        out.push(10);
        let mut ch: u8 = 0;
        let ghost head = out@;
        while ch < 3
            invariant
                self.wf(),
                ch <= 3,
                forall|q: int, k: int| 0 <= q < 3 && 0 <= k < self.t ==> (#[trigger] channel(
                    self.testcase@[k],
                    q,
                )).len() == self.c,
                forall|q: int| 0 <= q < ch ==> #[trigger] channel_count(
                    self.testcase@,
                    q,
                    self.c as int,
                    self.t as int,
                ) <= usize::MAX,
                ch == 0 ==> out@ == head,
                ch == 1 ==> out@ == head + section_text(self, 0),
                ch == 2 ==> out@ == head + section_text(self, 0) + section_text(self, 1),
                ch == 3 ==> out@ == head + section_text(self, 0) + section_text(self, 1) + section_text(self, 2),
            decreases 3 - ch,
        {
            let ghost before = out@;
            let n = match count_channel(self, ch) {
                Some(n) => n,
                None => {
                    return None;
                },
            };
            write_decimal(&mut out, n);
            out.push(10);
            write_channel(&mut out, self, ch);
            assert(out@ =~= before + section_text(self, ch as int));
            ch += 1;
        }
        assert(out@ =~= input_text(self));
        Some(out)
    }
}

proof fn lemma_rounds_count_grows(rs: Seq<Seq<(usize, usize)>>, a: int, b: int)
    requires
        0 <= a <= b,
    ensures
        rounds_count(rs, a) <= rounds_count(rs, b),
    decreases b - a,
{
    if a < b {
        lemma_rounds_count_grows(rs, a, b - 1);
    }
}

proof fn lemma_count_grows(insts: Seq<Instance>, ch: int, c: int, a: int, b: int)
    requires
        0 <= a <= b,
    ensures
        channel_count(insts, ch, c, a) <= channel_count(insts, ch, c, b),
    decreases b - a,
{
    if a < b {
        lemma_count_grows(insts, ch, c, a, b - 1);
    }
}

} // verus!
