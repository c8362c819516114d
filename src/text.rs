//! The whitespace-separated text form of inputs and outputs.
use vstd::prelude::*;
use vstd::string::StringSliceAdditionalSpecFns;
use crate::model::{Input, Instance, Output, Rounds};

verus! {

/// The text does not have the expected shape.
#[derive(Clone, Copy, Debug, PartialEq, Eq, Structural)]
pub struct MalformedInput;

/// An event line: instance, round, row, column.
pub type Event = (usize, usize, usize, usize);

pub open spec fn is_space(b: u8) -> bool {
    b == 32 || (9 <= b && b <= 13)
}

pub open spec fn is_digit(b: u8) -> bool {
    48 <= b && b <= 57
}

/// The finished tokens and the token in progress after reading `s`.
pub open spec fn scan(s: Seq<u8>) -> (Seq<Seq<u8>>, Seq<u8>)
    decreases s.len(),
{
    if s.len() == 0 {
        (seq![], seq![])
    } else {
        let (ts, cur) = scan(s.drop_last());
        if is_space(s.last()) {
            if cur.len() > 0 {
                (ts.push(cur), seq![])
            } else {
                (ts, cur)
            }
        } else {
            (ts, cur.push(s.last()))
        }
    }
}

/// The maximal runs of non-whitespace bytes of `s`, in order.
pub open spec fn tokens(s: Seq<u8>) -> Seq<Seq<u8>> {
    let (ts, cur) = scan(s);
    if cur.len() > 0 {
        ts.push(cur)
    } else {
        ts
    }
}

/// The number that a string of decimal digits denotes.
pub open spec fn digits_value(s: Seq<u8>) -> nat
    decreases s.len(),
{
    if s.len() == 0 {
        0
    } else {
        digits_value(s.drop_last()) * 10 + (s.last() - 48) as nat
    }
}

pub open spec fn all_digits(s: Seq<u8>) -> bool {
    forall|i: int| 0 <= i < s.len() ==> is_digit(#[trigger] s[i])
}

/// The `usize` that a token denotes, if it is a nonempty run of digits whose
/// value fits.
pub open spec fn usize_of(s: Seq<u8>) -> Option<usize> {
    if s.len() > 0 && all_digits(s) && digits_value(s) <= usize::MAX {
        Some(digits_value(s) as usize)
    } else {
        None
    }
}

/// The first three fractional digits, padded with zeros.
pub open spec fn frac3(f: Seq<u8>) -> Seq<u8> {
    if f.len() >= 3 {
        f.take(3)
    } else {
        f + Seq::new((3 - f.len()) as nat, |i: int| 48u8)
    }
}

/// Position of the first `.` in `s`, or its length.
pub open spec fn first_dot(s: Seq<u8>) -> int
    decreases s.len(),
{
    if s.len() == 0 {
        0
    } else if first_dot(s.drop_last()) < s.len() - 1 {
        first_dot(s.drop_last())
    } else if s.last() == 46 {
        s.len() - 1
    } else {
        s.len() as int
    }
}

/// A probability in thousandths, written `I` or `I.F` with decimal digits;
/// digits of `F` after the third must be zeros, and the value at most 1.
pub open spec fn rate_of(s: Seq<u8>) -> Option<u32> {
    let i = first_dot(s);
    let ip = s.take(i);
    let f = s.skip(i + 1);
    let ok = ip.len() > 0 && all_digits(ip) && (i == s.len() || (f.len() > 0 && all_digits(f)
        && forall|k: int| 3 <= k < f.len() ==> #[trigger] f[k] == 48u8));
    let v = digits_value(ip) * 1000 + if i == s.len() {
        0
    } else {
        digits_value(frac3(f))
    };
    if ok && v <= 1000 {
        Some(v as u32)
    } else {
        None
    }
}

/// The number at token `i`, if any.
pub open spec fn num_at(ts: Seq<Seq<u8>>, i: int) -> Option<usize> {
    if 0 <= i < ts.len() {
        usize_of(ts[i])
    } else {
        None
    }
}

/// The event made of tokens `i` to `i + 3`.
pub open spec fn event_at(ts: Seq<Seq<u8>>, i: int) -> Option<Event> {
    if num_at(ts, i) is Some && num_at(ts, i + 1) is Some && num_at(ts, i + 2) is Some && num_at(
        ts,
        i + 3,
    ) is Some {
        Some(
            (
                num_at(ts, i)->0,
                num_at(ts, i + 1)->0,
                num_at(ts, i + 2)->0,
                num_at(ts, i + 3)->0,
            ),
        )
    } else {
        None
    }
}

/// A section at token `i`: a count `n` and then `n` events.
pub open spec fn section_ok(ts: Seq<Seq<u8>>, i: int) -> bool {
    &&& num_at(ts, i) is Some
    &&& forall|q: int| 0 <= q < num_at(ts, i)->0 ==> #[trigger] event_at(ts, i + 1 + 4 * q) is Some
}

/// The token after a section at `i`.
pub open spec fn section_end(ts: Seq<Seq<u8>>, i: int) -> int {
    i + 1 + 4 * num_at(ts, i)->0
}

/// The events of a section at `i`.
pub open spec fn section_events(ts: Seq<Seq<u8>>, i: int) -> Seq<Event> {
    Seq::new(num_at(ts, i)->0 as nat, |q: int| event_at(ts, i + 1 + 4 * q)->0)
}

/// The cells of the events that belong to instance `k`, round `r`, in order.
pub open spec fn events_for(evs: Seq<Event>, k: int, r: int) -> Seq<(usize, usize)>
    decreases evs.len(),
{
    if evs.len() == 0 {
        seq![]
    } else {
        let e = evs.last();
        let rest = events_for(evs.drop_last(), k, r);
        if e.0 == k && e.1 == r {
            rest.push((e.2, e.3))
        } else {
            rest
        }
    }
}

/// Every event names an instance below `t` and a round below `c`.
pub open spec fn events_in(evs: Seq<Event>, t: int, c: int) -> bool {
    forall|q: int| 0 <= q < evs.len() ==> (#[trigger] evs[q]).0 < t && evs[q].1 < c
}

/// Every event names a cell inside a lattice of side `d`.
pub open spec fn events_within(evs: Seq<Event>, d: int) -> bool {
    forall|q: int| 0 <= q < evs.len() ==> (#[trigger] evs[q]).2 < d && evs[q].3 < d
}

proof fn lemma_digits_prefix(s: Seq<u8>, j: int)
    requires
        all_digits(s),
        0 <= j <= s.len(),
    ensures
        digits_value(s.take(j)) <= digits_value(s),
    decreases s.len(),
{
    if j < s.len() {
        let p = s.drop_last();
        assert(all_digits(p)) by {
            assert forall|i: int| 0 <= i < p.len() implies is_digit(#[trigger] p[i]) by {
                assert(p[i] == s[i]);
            }
        }
        lemma_digits_prefix(p, j);
        assert(p.take(j) =~= s.take(j));
        assert(is_digit(s[s.len() - 1]));
    } else {
        assert(s.take(j) =~= s);
    }
}

/// The value of `s[lo..hi]` as decimal digits, if they are all digits and
/// the value fits in `usize`.
pub fn parse_digits(s: &Vec<u8>, lo: usize, hi: usize) -> (v: Option<usize>)
    requires
        lo <= hi <= s@.len(),
    ensures
        v is Some <==> all_digits(s@.subrange(lo as int, hi as int)) && digits_value(
            s@.subrange(lo as int, hi as int),
        ) <= usize::MAX,
        v matches Some(x) ==> x == digits_value(s@.subrange(lo as int, hi as int)),
{
    let ghost w = s@.subrange(lo as int, hi as int);
    let mut acc: usize = 0;
    let mut i: usize = lo;
    while i < hi
        invariant
            lo <= i <= hi <= s@.len(),
            w == s@.subrange(lo as int, hi as int),
            all_digits(w.take(i - lo)),
            acc == digits_value(w.take(i - lo)),
        decreases hi - i,
    {
        let x = s[i];
        let ghost n = i - lo;
        proof {
            assert(w.take(n + 1).drop_last() =~= w.take(n));
            assert(w.take(n + 1).last() == x);
        }
        if x < 48 || x > 57 {
            assert(!is_digit(w[n]));
            return None;
        }
        let dgt = (x - 48) as usize;
        if acc > (usize::MAX - dgt) / 10 {
            proof {
                assert(acc * 10 + dgt > usize::MAX) by (nonlinear_arith)
                    requires
                        acc > (usize::MAX - dgt) / 10,
                        dgt <= 9,
                ;
                if all_digits(w) {
                    lemma_digits_prefix(w, n + 1);
                }
            }
            return None;
        }
        proof {
            assert(acc * 10 + dgt <= usize::MAX) by (nonlinear_arith)
                requires
                    acc <= (usize::MAX - dgt) / 10,
                    dgt <= 9,
            ;
            assert forall|k: int| 0 <= k < n + 1 implies is_digit(#[trigger] w.take(n + 1)[k]) by {
                if k < n {
                    assert(w.take(n + 1)[k] == w.take(n)[k]);
                }
            }
        }
        acc = acc * 10 + dgt;
        i += 1;
    }
    assert(w.take(hi - lo) =~= w);
    Some(acc)
}

/// The number a token denotes.
pub fn parse_usize(t: &Vec<u8>) -> (v: Option<usize>)
    ensures
        v == usize_of(t@),
{
    if t.len() == 0 {
        return None;
    }
    let r = parse_digits(t, 0, t.len());
    assert(t@.subrange(0, t@.len() as int) =~= t@);
    r
}

proof fn lemma_first_dot(s: Seq<u8>)
    ensures
        0 <= first_dot(s) <= s.len(),
        first_dot(s) < s.len() ==> s[first_dot(s)] == 46,
        forall|j: int| 0 <= j < first_dot(s) ==> #[trigger] s[j] != 46,
    decreases s.len(),
{
    if s.len() > 0 {
        let p = s.drop_last();
        lemma_first_dot(p);
        assert forall|j: int| 0 <= j < first_dot(s) implies #[trigger] s[j] != 46 by {
            if j < p.len() {
                assert(p[j] == s[j]);
            }
        }
    }
}

/// The digit `t[i]` as a number, if it is a digit.
fn digit_at(t: &Vec<u8>, i: usize) -> (v: Option<u32>)
    requires
        i < t@.len(),
    ensures
        v is Some <==> is_digit(t@[i as int]),
        v matches Some(x) ==> x == t@[i as int] - 48,
{
    let x = t[i];
    if 48 <= x && x <= 57 {
        Some((x - 48) as u32)
    } else {
        None
    }
}

/// A probability in thousandths, as `rate_of` reads it.
pub fn parse_rate(t: &Vec<u8>) -> (v: Option<u32>)
    ensures
        v == rate_of(t@),
{
    let ghost s = t@;
    proof {
        lemma_first_dot(s);
    }
    let n = t.len();
    let mut i: usize = 0;
    while i < n && t[i] != 46
        invariant
            n == s.len(),
            s == t@,
            i <= n,
            forall|j: int| 0 <= j < i ==> #[trigger] s[j] != 46,
        decreases n - i,
    {
        i += 1;
    }
    proof {
        let fd = first_dot(s);
        if fd < i {
            assert(s[fd] == 46);
        }
        if i < fd {
            assert(s[i as int] != 46);
        }
    }
    assert(i == first_dot(s));
    let ghost ip = s.take(i as int);
    let ghost f = s.skip(i + 1);
    if i == 0 {
        return None;
    }
    let whole = parse_digits(t, 0, i);
    assert(s.subrange(0, i as int) =~= ip);
    let w = match whole {
        None => {
            return None;
        },
        Some(w) => w,
    };
    if w > 1 {
        return None;
    }
    if i == n {
        return Some((w * 1000) as u32);
    }
    if i + 1 == n {
        return None;
    }
    let mut k: usize = i + 1;
    while k < n
        invariant
            n == s.len(),
            s == t@,
            i + 1 <= k <= n,
            i == first_dot(s),
            ip == s.take(i as int),
            ip.len() > 0 && all_digits(ip),
            digits_value(ip) == w,
            w <= 1,
            f == s.skip(i + 1),
            forall|q: int| 0 <= q < k - i - 1 ==> is_digit(#[trigger] f[q]),
            forall|q: int| 3 <= q < k - i - 1 ==> #[trigger] f[q] == 48u8,
        decreases n - k,
    {
        assert(f[k - i - 1] == s[k as int]);
        match digit_at(t, k) {
            None => {
                assert(!all_digits(f));
                return None;
            },
            Some(x) => {
                if k - i >= 4 && x != 0 {
                    assert(f[k - i - 1] != 48u8);
                    return None;
                }
            },
        }
        k += 1;
    }
    let d0 = match digit_at(t, i + 1) { Some(x) => x, None => 0 };
    let d1 = if n - i > 2 { match digit_at(t, i + 2) { Some(x) => x, None => 0 } } else { 0 };
    let d2 = if n - i > 3 { match digit_at(t, i + 3) { Some(x) => x, None => 0 } } else { 0 };
    proof {
        let g = frac3(f);
        assert(g.len() == 3);
        assert(g[0] == f[0]);
        assert(f[0] == s[i + 1]);
        if i + 2 < n {
            assert(g[1] == f[1] && f[1] == s[i + 2]);
        } else {
            assert(g[1] == 48u8);
        }
        if i + 3 < n {
            assert(g[2] == f[2] && f[2] == s[i + 3]);
        } else {
            assert(g[2] == 48u8);
        }
        reveal_with_fuel(digits_value, 4);
        assert(g.drop_last().drop_last().drop_last() =~= Seq::<u8>::empty());
        assert(digits_value(g) == (g[0] - 48) * 100 + (g[1] - 48) * 10 + (g[2] - 48));
    }
    let v = w * 1000 + (d0 * 100 + d1 * 10 + d2) as usize;
    if v > 1000 {
        None
    } else {
        Some(v as u32)
    }
}

/// Splits `b` into its whitespace-separated tokens.
pub fn split_tokens(b: &[u8]) -> (ts: Vec<Vec<u8>>)
    ensures
        ts@.map_values(|t: Vec<u8>| t@) == tokens(b@),
{
    let mut ts: Vec<Vec<u8>> = Vec::new();
    let mut cur: Vec<u8> = Vec::new();
    let mut i: usize = 0;
    while i < b.len()
        invariant
            i <= b@.len(),
            (ts@.map_values(|t: Vec<u8>| t@), cur@) == scan(b@.take(i as int)),
        decreases b@.len() - i,
    {
        let x = b[i];
        proof {
            assert(b@.take(i as int + 1).drop_last() =~= b@.take(i as int));
            assert(b@.take(i as int + 1).last() == x);
        }
        if x == 32 || (9 <= x && x <= 13) {
            if cur.len() > 0 {
                let ghost done = cur@;
                ts.push(cur);
                cur = Vec::new();
                assert(ts@.map_values(|t: Vec<u8>| t@) =~= scan(b@.take(i as int)).0.push(done));
            }
        } else {
            cur.push(x);
        }
        i += 1;
    }
    assert(b@.take(i as int) =~= b@);
    if cur.len() > 0 {
        let last = cur;
        ts.push(last);
        assert(ts@.map_values(|t: Vec<u8>| t@) =~= scan(b@).0.push(last@));
    }
    ts
}

/// The tokens of a vector of tokens.
pub open spec fn token_view(ts: &Vec<Vec<u8>>) -> Seq<Seq<u8>> {
    ts@.map_values(|t: Vec<u8>| t@)
}

/// The number at token `i`.
fn num_token(ts: &Vec<Vec<u8>>, i: usize) -> (v: Option<usize>)
    ensures
        v == num_at(token_view(ts), i as int),
{
    if i < ts.len() {
        parse_usize(&ts[i])
    } else {
        None
    }
}

/// Reads the section at token `i`: its events and the token after it.
fn read_section(ts: &Vec<Vec<u8>>, i: usize) -> (r: Option<(Vec<Event>, usize)>)
    ensures
        r is Some <==> section_ok(token_view(ts), i as int),
        r matches Some((evs, end)) ==> evs@ == section_events(token_view(ts), i as int) && end
            == section_end(token_view(ts), i as int),
{
    let ghost tv = token_view(ts);
    let n = match num_token(ts, i) {
        None => {
            return None;
        },
        Some(n) => n,
    };
    assert(tv.len() == ts@.len());
    assert(num_at(tv, i as int) is Some);
    let len = ts.len();
    assert(i < len);
    let mut evs: Vec<Event> = Vec::new();
    let mut pos: usize = i + 1;
    let mut q: usize = 0;
    while q < n
        invariant
            tv == token_view(ts),
            num_at(tv, i as int) == Some(n),
            q <= n,
            pos == i + 1 + 4 * q,
            pos <= ts@.len(),
            evs@.len() == q,
            forall|j: int| 0 <= j < q ==> #[trigger] event_at(tv, i + 1 + 4 * j) is Some,
            forall|j: int| 0 <= j < q ==> evs@[j] == #[trigger] event_at(tv, i + 1 + 4 * j)->0,
        decreases n - q,
    {
        let a = num_token(ts, pos);
        let b = if ts.len() - pos > 1 { num_token(ts, pos + 1) } else { None };
        let c = if ts.len() - pos > 2 { num_token(ts, pos + 2) } else { None };
        let d = if ts.len() - pos > 3 { num_token(ts, pos + 3) } else { None };
        match (a, b, c, d) {
            (Some(a), Some(b), Some(c), Some(d)) => {
                evs.push((a, b, c, d));
            },
            _ => {
                assert(event_at(tv, i + 1 + 4 * q) is None);
                return None;
            },
        }
        pos = pos + 4;
        q += 1;
    }
    assert(evs@ =~= section_events(tv, i as int));
    Some((evs, pos))
}

/// Sorts events by instance and round, keeping their order; `None` where an
/// event names an instance at or above `t` or a round at or above `c`.
fn place_events(evs: &Vec<Event>, t: usize, c: usize) -> (r: Option<Vec<Rounds>>)
    ensures
        r is Some <==> events_in(evs@, t as int, c as int),
        r matches Some(v) ==> {
            &&& v@.len() == t
            &&& forall|k: int| 0 <= k < t ==> (#[trigger] v@[k])@.len() == c
            &&& forall|k: int, q: int|
                0 <= k < t && 0 <= q < c ==> (#[trigger] v@[k]@[q])@ == events_for(evs@, k, q)
        },
{
    let mut v: Vec<Rounds> = Vec::new();
    let mut k: usize = 0;
    while k < t
        invariant
            k <= t,
            v@.len() == k,
            forall|j: int| 0 <= j < k ==> (#[trigger] v@[j])@.len() == c,
            forall|j: int, q: int| 0 <= j < k && 0 <= q < c ==> (#[trigger] v@[j]@[q])@.len() == 0,
        decreases t - k,
    {
        let mut rounds: Rounds = Vec::new();
        let mut q: usize = 0;
        while q < c
            invariant
                q <= c,
                rounds@.len() == q,
                forall|j: int| 0 <= j < q ==> (#[trigger] rounds@[j])@.len() == 0,
            decreases c - q,
        {
            rounds.push(Vec::new());
            q += 1;
        }
        v.push(rounds);
        k += 1;
    }
    let mut i: usize = 0;
    while i < evs.len()
        invariant
            i <= evs@.len(),
            v@.len() == t,
            forall|j: int| 0 <= j < t ==> (#[trigger] v@[j])@.len() == c,
            forall|j: int, q: int|
                0 <= j < t && 0 <= q < c ==> (#[trigger] v@[j]@[q])@ == events_for(
                    evs@.take(i as int),
                    j,
                    q,
                ),
            events_in(evs@.take(i as int), t as int, c as int),
        decreases evs@.len() - i,
    {
        let (a, b, x, y) = evs[i];
        proof {
            assert(evs@.take(i as int + 1).drop_last() =~= evs@.take(i as int));
            assert(evs@.take(i as int + 1).last() == (a, b, x, y));
        }
        if a >= t || b >= c {
            assert(!events_in(evs@, t as int, c as int)) by {
                assert(evs@[i as int] == (a, b, x, y));
            }
            return None;
        }
        let ghost before = v@;
        v[a][b].push((x, y));
        proof {
            assert forall|j: int| 0 <= j < t implies (#[trigger] v@[j])@.len() == c by {
                if j != a {
                    assert(v@[j] == before[j]);
                }
            }
            assert forall|j: int, q: int| 0 <= j < t && 0 <= q < c implies (#[trigger] v@[j]@[q])@
                == events_for(evs@.take(i as int + 1), j, q) by {
                if j != a {
                    assert(v@[j] == before[j]);
                } else if q != b {
                    assert(v@[j]@[q] == before[j]@[q]);
                }
            }
            let p = evs@.take(i as int + 1);
            assert forall|j: int| 0 <= j < p.len() implies (#[trigger] p[j]).0 < t && p[j].1 < c by {
                if j < i {
                    assert(p[j] == evs@.take(i as int)[j]);
                }
            }
        }
        i += 1;
    }
    assert(evs@.take(i as int) =~= evs@);
    Some(v)
}

/// Whether every event names a cell inside a lattice of side `d`.
fn check_within(evs: &Vec<Event>, d: usize) -> (b: bool)
    ensures
        b == events_within(evs@, d as int),
{
    let mut i: usize = 0;
    while i < evs.len()
        invariant
            i <= evs@.len(),
            forall|q: int| 0 <= q < i ==> (#[trigger] evs@[q]).2 < d && evs@[q].3 < d,
        decreases evs@.len() - i,
    {
        if evs[i].2 >= d || evs[i].3 >= d {
            assert(!events_within(evs@, d as int)) by {
                assert(evs@[i as int] == evs[i as int]);
            }
            return false;
        }
        i += 1;
    }
    true
}

/// The events of a corrections text: type-A, then type-B. A text without
/// tokens holds none.
pub open spec fn output_sections(ts: Seq<Seq<u8>>) -> (Seq<Event>, Seq<Event>) {
    if ts.len() == 0 {
        (seq![], seq![])
    } else {
        (section_events(ts, 0), section_events(ts, section_end(ts, 0)))
    }
}

/// A corrections text for `t` instances of `c` rounds: empty, or two
/// sections whose events name existing instances and rounds.
pub open spec fn output_text_ok(ts: Seq<Seq<u8>>, t: int, c: int) -> bool {
    ts.len() == 0 || {
        &&& section_ok(ts, 0)
        &&& section_ok(ts, section_end(ts, 0))
        &&& events_in(output_sections(ts).0, t, c)
        &&& events_in(output_sections(ts).1, t, c)
    }
}

/// Reads the corrections of a decoder for `t` instances of `c` rounds.
pub fn parse_output(f: &str, c: usize, t: usize) -> (r: Result<Output, MalformedInput>)
    ensures
        r is Ok <==> output_text_ok(tokens(f.spec_bytes()), t as int, c as int),
        r matches Ok(o) ==> {
            let (xs, zs) = output_sections(tokens(f.spec_bytes()));
            &&& o.fits(t as int, c as int)
            &&& forall|k: int, q: int|
                0 <= k < t && 0 <= q < c ==> (#[trigger] o.x_correction@[k]@[q])@ == events_for(
                    xs,
                    k,
                    q,
                )
            &&& forall|k: int, q: int|
                0 <= k < t && 0 <= q < c ==> (#[trigger] o.z_correction@[k]@[q])@ == events_for(
                    zs,
                    k,
                    q,
                )
        },
{
    let ts = split_tokens(f.as_bytes());
    let ghost tv = tokens(f.spec_bytes());
    assert(token_view(&ts) == tv);
    let (xe, ze) = if ts.len() == 0 {
        (Vec::new(), Vec::new())
    } else {
        let (xe, e0) = match read_section(&ts, 0) {
            Some(p) => p,
            None => {
                return Err(MalformedInput);
            },
        };
        let (ze, _e1) = match read_section(&ts, e0) {
            Some(p) => p,
            None => {
                return Err(MalformedInput);
            },
        };
        (xe, ze)
    };
    assert(xe@ =~= output_sections(tv).0);
    assert(ze@ =~= output_sections(tv).1);
    let x_correction = match place_events(&xe, t, c) {
        Some(v) => v,
        None => {
            return Err(MalformedInput);
        },
    };
    let z_correction = match place_events(&ze, t, c) {
        Some(v) => v,
        None => {
            return Err(MalformedInput);
        },
    };
    Ok(Output { x_correction, z_correction })
}

/// The header values and the three event sections of an input text.
pub open spec fn input_fields(ts: Seq<Seq<u8>>) -> (usize, usize, u32, u32, usize, Seq<Event>, Seq<Event>, Seq<Event>) {
    let e1 = section_end(ts, 5);
    let e2 = section_end(ts, e1);
    (
        num_at(ts, 0)->0,
        num_at(ts, 1)->0,
        rate_of(ts[2])->0,
        rate_of(ts[3])->0,
        num_at(ts, 4)->0,
        section_events(ts, 5),
        section_events(ts, e1),
        section_events(ts, e2),
    )
}

/// An input text: `d c e_d e_m t`, then the type-A, type-B and measurement
/// sections, on an odd lattice whose cell count fits in `usize`, with every
/// event in an existing instance and round and inside the lattice.
pub open spec fn input_text_ok(ts: Seq<Seq<u8>>) -> bool {
    let (d, c, ed, em, t, xs, zs, ms) = input_fields(ts);
    &&& ts.len() >= 5
    &&& num_at(ts, 0) is Some && num_at(ts, 1) is Some && num_at(ts, 4) is Some
    &&& rate_of(ts[2]) is Some && rate_of(ts[3]) is Some
    &&& d % 2 == 1 && d * d <= usize::MAX
    &&& section_ok(ts, 5)
    &&& section_ok(ts, section_end(ts, 5))
    &&& section_ok(ts, section_end(ts, section_end(ts, 5)))
    &&& events_in(xs, t as int, c as int) && events_within(xs, d as int)
    &&& events_in(zs, t as int, c as int) && events_within(zs, d as int)
    &&& events_in(ms, t as int, c as int) && events_within(ms, d as int)
}

/// Gathers the rounds of each channel into instances.
fn assemble(xs: Vec<Rounds>, zs: Vec<Rounds>, ms: Vec<Rounds>) -> (v: Vec<Instance>)
    requires
        zs@.len() == xs@.len(),
        ms@.len() == xs@.len(),
    ensures
        v@.len() == xs@.len(),
        forall|k: int|
            0 <= k < xs@.len() ==> (#[trigger] v@[k]).x_depolarizing_error == xs@[k]
                && v@[k].z_depolarizing_error == zs@[k] && v@[k].measure_error == ms@[k],
{
    let ghost (x0, z0, m0) = (xs@, zs@, ms@);
    let mut xs = xs;
    let mut zs = zs;
    let mut ms = ms;
    let mut v: Vec<Instance> = Vec::new();
    while xs.len() > 0
        invariant
            xs@ == x0.skip(v@.len() as int),
            zs@ == z0.skip(v@.len() as int),
            ms@ == m0.skip(v@.len() as int),
            z0.len() == x0.len(),
            m0.len() == x0.len(),
            v@.len() <= x0.len(),
            forall|k: int|
                0 <= k < v@.len() ==> (#[trigger] v@[k]).x_depolarizing_error == x0[k]
                    && v@[k].z_depolarizing_error == z0[k] && v@[k].measure_error == m0[k],
        decreases xs@.len(),
    {
        let ghost n = v@.len() as int;
        let x = xs.remove(0);
        let z = zs.remove(0);
        let m = ms.remove(0);
        assert(x == x0[n] && z == z0[n] && m == m0[n]);
        v.push(Instance { x_depolarizing_error: x, z_depolarizing_error: z, measure_error: m });
        assert(xs@ =~= x0.skip(n + 1));
        assert(zs@ =~= z0.skip(n + 1));
        assert(ms@ =~= m0.skip(n + 1));
    }
    v
}

/// Reads an input text.
pub fn parse_input(f: &str) -> (r: Result<Input, MalformedInput>)
    ensures
        r is Ok <==> input_text_ok(tokens(f.spec_bytes())),
        r matches Ok(input) ==> {
            let (d, c, ed, em, t, xs, zs, ms) = input_fields(tokens(f.spec_bytes()));
            &&& input.wf()
            &&& input.d == d && input.c == c && input.e_d == ed && input.e_m == em && input.t == t
            &&& forall|k: int, q: int|
                0 <= k < t && 0 <= q < c ==> {
                    &&& (#[trigger] input.testcase@[k].x_depolarizing_error@[q])@ == events_for(xs, k, q)
                    &&& input.testcase@[k].z_depolarizing_error@[q]@ == events_for(zs, k, q)
                    &&& input.testcase@[k].measure_error@[q]@ == events_for(ms, k, q)
                }
        },
{
    let ts = split_tokens(f.as_bytes());
    let ghost tv = tokens(f.spec_bytes());
    assert(token_view(&ts) == tv);
    if ts.len() < 5 {
        return Err(MalformedInput);
    }
    let d = match num_token(&ts, 0) { Some(v) => v, None => { return Err(MalformedInput); } };
    let c = match num_token(&ts, 1) { Some(v) => v, None => { return Err(MalformedInput); } };
    assert(tv[2] == ts@[2]@ && tv[3] == ts@[3]@);
    let e_d = match parse_rate(&ts[2]) { Some(v) => v, None => { return Err(MalformedInput); } };
    let e_m = match parse_rate(&ts[3]) { Some(v) => v, None => { return Err(MalformedInput); } };
    let t = match num_token(&ts, 4) { Some(v) => v, None => { return Err(MalformedInput); } };
    if d % 2 != 1 || d > usize::MAX / d {
        proof {
            if d % 2 == 1 {
                assert(d * d > usize::MAX) by (nonlinear_arith)
                    requires
                        d > usize::MAX / d,
                        d > 0,
                ;
            }
        }
        return Err(MalformedInput);
    }
    proof {
        assert(d * d <= usize::MAX) by (nonlinear_arith)
            requires
                d <= usize::MAX / d,
                d > 0,
        ;
    }
    let (xe, e1) = match read_section(&ts, 5) { Some(p) => p, None => { return Err(MalformedInput); } };
    let (ze, e2) = match read_section(&ts, e1) { Some(p) => p, None => { return Err(MalformedInput); } };
    let (me, _e3) = match read_section(&ts, e2) { Some(p) => p, None => { return Err(MalformedInput); } };
    if !check_within(&xe, d) || !check_within(&ze, d) || !check_within(&me, d) {
        return Err(MalformedInput);
    }
    let xs = match place_events(&xe, t, c) { Some(v) => v, None => { return Err(MalformedInput); } };
    let zs = match place_events(&ze, t, c) { Some(v) => v, None => { return Err(MalformedInput); } };
    let ms = match place_events(&me, t, c) { Some(v) => v, None => { return Err(MalformedInput); } };
    let ghost (xv, zv, mv) = (xs@, zs@, ms@);
    let testcase = assemble(xs, zs, ms);
    let input = Input { d, c, e_d, e_m, t, testcase };
    proof {
        assert forall|k: int| 0 <= k < t implies (#[trigger] input.testcase@[k]).wf(c as int, d as int) by {
            let inst = input.testcase@[k];
            assert forall|q: int| 0 <= q < c implies crate::grid::all_within(
                #[trigger] inst.x_depolarizing_error@[q]@, d as int) by {
                lemma_events_for_within(xe@, d as int, k, q);
            }
            assert forall|q: int| 0 <= q < c implies crate::grid::all_within(
                #[trigger] inst.z_depolarizing_error@[q]@, d as int) by {
                lemma_events_for_within(ze@, d as int, k, q);
            }
            assert forall|q: int| 0 <= q < c implies crate::grid::all_within(
                #[trigger] inst.measure_error@[q]@, d as int) by {
                lemma_events_for_within(me@, d as int, k, q);
            }
        }
    }
    Ok(input)
}

/// The cells gathered from events inside the lattice lie inside it.
proof fn lemma_events_for_within(evs: Seq<Event>, d: int, k: int, q: int)
    requires
        events_within(evs, d),
    ensures
        crate::grid::all_within(events_for(evs, k, q), d),
    decreases evs.len(),
{
    if evs.len() > 0 {
        let p = evs.drop_last();
        assert(events_within(p, d)) by {
            assert forall|j: int| 0 <= j < p.len() implies (#[trigger] p[j]).2 < d && p[j].3 < d by {
                assert(p[j] == evs[j]);
            }
        }
        lemma_events_for_within(p, d, k, q);
        assert(evs[evs.len() - 1] == evs.last());
        let s = events_for(evs, k, q);
        let r = events_for(p, k, q);
        assert forall|j: int| 0 <= j < s.len() implies (#[trigger] s[j]).0 < d && s[j].1 < d by {
            if j < r.len() {
                assert(s[j] == r[j]);
            }
        }
    }
}

} // verus!
