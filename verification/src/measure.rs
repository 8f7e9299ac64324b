//! Signal acquisition: drives the trigger sequence on the line, consumes
//! the sensor's preamble, and classifies each of 40 data pulses as a bit
//! by its high duration.
//!
//! All edge waits are instances of one primitive, [`wait_for_level`],
//! parameterized by an optional per-wait timeout and a pacing knob.  The
//! falling-edge waits poll with an explicit 1 microsecond pacing delay per
//! read; the rising-edge waits deliberately omit that pacing to avoid
//! false timeouts.  This asymmetry in polling granularity is intentional
//! and preserved as a configuration knob, not unified silently.
use vstd::prelude::*;

verus! {

use crate::pin::{poll_step, sat_add, SensorPin};
use crate::{frame_ok, is_bit};

/// Time bound of one edge wait in the timeout-bounded mode, microseconds.
pub const TIMEOUT_US: u64 = 100;

/// Upper bound on the modelled time one timeout-bounded acquisition
/// takes: 1000 for the trigger's low pulse, at most 305 for the three
/// preamble edges, and at most 203 for each of the 40 bit slots.
pub const ACQUISITION_BOUND_US: u64 = 1000 + 305 + 40 * 203;

/// How a raw read of the 40 frame bits can fail.
#[derive(Clone, Copy, Debug, PartialEq, Eq, Structural)]
pub enum ReadBitsError {
    /// An edge wait exceeded its time bound.
    TimeoutErr,
}

/// No instant on the poll grid `{start + j * step | j >= 0}` within
/// `[start, end)` shows the line at level `want`.
pub open spec fn no_target_on_grid<P: SensorPin>(
    p: &P,
    start: int,
    end: int,
    step: int,
    want: bool,
) -> bool {
    forall|t: int|
        start <= t < end && (t - start) % step == 0 ==> #[trigger] p.line_level(t) != want
}

/// How a measured high duration is classified: 1 when it exceeds 50
/// microseconds, else 0.
pub open spec fn classify_bit(d: int) -> u8 {
    if d > 50 {
        1
    } else {
        0
    }
}

/// How many polls, beyond the first, a timeout-bounded edge wait makes
/// before giving up: the poll grid has period [`poll_step`], and polling
/// stops once the elapsed time exceeds [`TIMEOUT_US`].
pub open spec fn polls_within_bound(pace: bool) -> nat {
    if pace {
        50
    } else {
        100
    }
}

/// The instant of the first poll, on the grid `{t, t + step, ...}`, at
/// which the line shows level `want` — `None` if none of the first
/// `1 + polls` polls does.
pub open spec fn first_level_poll<P: SensorPin>(
    p: &P,
    t: int,
    step: int,
    want: bool,
    polls: nat,
) -> Option<int>
    decreases polls,
{
    if p.line_level(t) == want {
        Some(t)
    } else if polls == 0 {
        None
    } else {
        first_level_poll(p, t + step, step, want, (polls - 1) as nat)
    }
}

/// What one timeout-bounded edge wait started at instant `t` yields: the
/// elapsed duration and the instant after the successful poll, or `None`
/// on timeout.
pub open spec fn edge_wait_result<P: SensorPin>(p: &P, t: int, want: bool, pace: bool) -> Option<
    (int, int),
> {
    match first_level_poll(p, t, poll_step(pace), want, polls_within_bound(pace)) {
        Some(hit) => Some((hit + 1 - t, hit + 1)),
        None => None,
    }
}

/// The instant after the sensor's three preamble edges have been
/// consumed by timeout-bounded waits starting at instant `t`, or `None`
/// if one of them times out.
pub open spec fn preamble_from_line<P: SensorPin>(p: &P, t: int) -> Option<int> {
    match edge_wait_result(p, t, false, true) {
        None => None,
        Some((d0, t1)) => match edge_wait_result(p, t1, true, false) {
            None => None,
            Some((d1, t2)) => match edge_wait_result(p, t2, false, true) {
                None => None,
                Some((d2, t3)) => Some(t3),
            },
        },
    }
}

/// The `count` bits the timeout-bounded bit loop reads from the line
/// starting at instant `t`, with the instant after the last one — each
/// bit is the classification of the high duration its falling-edge wait
/// measures — or `None` if an edge wait times out.
pub open spec fn bits_from_line<P: SensorPin>(p: &P, t: int, count: nat) -> Option<
    (Seq<u8>, int),
>
    decreases count,
{
    if count == 0 {
        Some((Seq::empty(), t))
    } else {
        match edge_wait_result(p, t, true, false) {
            None => None,
            Some((dr, t1)) => match edge_wait_result(p, t1, false, true) {
                None => None,
                Some((df, t2)) => match bits_from_line(p, t2, (count - 1) as nat) {
                    None => None,
                    Some((rest, tf)) => Some((seq![classify_bit(df)] + rest, tf)),
                },
            },
        }
    }
}

/// What one whole timeout-bounded acquisition started at instant `t`
/// reads off the line: the one-millisecond trigger takes the clock to
/// `t + 1000`, then the preamble is consumed, then 40 bits are read.
pub open spec fn acquisition_from_line<P: SensorPin>(p: &P, t: int) -> Option<(Seq<u8>, int)> {
    match preamble_from_line(p, t + 1000) {
        None => None,
        Some(t3) => bits_from_line(p, t3, 40),
    }
}

/// `hit` is the instant of the first poll, on the grid starting at `t`
/// with period `step`, at which the line shows level `want`.
pub open spec fn is_first_on_grid<P: SensorPin>(
    p: &P,
    t: int,
    step: int,
    want: bool,
    hit: int,
) -> bool {
    &&& t <= hit
    &&& (hit - t) % step == 0
    &&& p.line_level(hit) == want
    &&& no_target_on_grid(p, t, hit, step, want)
}

/// The legacy unbounded bit loop, started at instant `t`, reads exactly
/// `bits` and ends at instant `t_end`: for each bit, the rising-edge wait
/// first sees the line high at some instant `hr` (polling every
/// microsecond), the paced falling-edge wait first sees it low at some
/// instant `hf` (polling every other microsecond from `hr + 1`), the bit
/// is the classification of the measured high duration `hf - hr`, and the
/// loop continues at `hf + 1`.
pub open spec fn legacy_bits_read<P: SensorPin>(
    p: &P,
    t: int,
    bits: Seq<u8>,
    t_end: int,
) -> bool
    decreases bits.len(),
{
    if bits.len() == 0 {
        t_end == t
    } else {
        exists|hr: int, hf: int|
            {
                &&& #[trigger] is_first_on_grid(p, t, 1, true, hr)
                &&& #[trigger] is_first_on_grid(p, hr + 1, 2, false, hf)
                &&& bits.first() == classify_bit(hf - hr)
                &&& legacy_bits_read(p, hf + 1, bits.drop_first(), t_end)
            }
    }
}

/// The legacy unbounded preamble, started at instant `t`, consumes a
/// falling, a rising and a second falling edge and ends at `t_end`.
pub open spec fn legacy_preamble<P: SensorPin>(p: &P, t: int, t_end: int) -> bool {
    exists|h0: int, h1: int, h2: int|
        {
            &&& #[trigger] is_first_on_grid(p, t, 2, false, h0)
            &&& #[trigger] is_first_on_grid(p, h0 + 1, 1, true, h1)
            &&& #[trigger] is_first_on_grid(p, h1 + 1, 2, false, h2)
            &&& t_end == h2 + 1
        }
}

/// One whole legacy acquisition started at instant `t` reads `bits` off
/// the line and ends at `t_end`: the one-millisecond trigger takes the
/// clock to `t + 1000`, the preamble is consumed, then the bits are read.
pub open spec fn legacy_acquisition<P: SensorPin>(
    p: &P,
    t: int,
    bits: Seq<u8>,
    t_end: int,
) -> bool {
    exists|t_mid: int|
        #[trigger] legacy_preamble(p, t + 1000, t_mid) && legacy_bits_read(p, t_mid, bits, t_end)
}

/// Extending a legacy bit read by one observed pulse appends its
/// classified bit.
proof fn lemma_legacy_bits_snoc<P: SensorPin>(
    p: &P,
    t: int,
    bits: Seq<u8>,
    t_mid: int,
    hr: int,
    hf: int,
    b: u8,
)
    requires
        legacy_bits_read(p, t, bits, t_mid),
        is_first_on_grid(p, t_mid, 1, true, hr),
        is_first_on_grid(p, hr + 1, 2, false, hf),
        b == classify_bit(hf - hr),
    ensures
        legacy_bits_read(p, t, bits.push(b), hf + 1),
    decreases bits.len(),
{
    if bits.len() == 0 {
        assert(t_mid == t);
        assert(bits.push(b).first() == b);
        assert(bits.push(b).drop_first() =~= Seq::<u8>::empty());
        assert(legacy_bits_read(p, hf + 1, bits.push(b).drop_first(), hf + 1));
        assert(is_first_on_grid(p, t, 1, true, hr) && is_first_on_grid(p, hr + 1, 2, false, hf));
    } else {
        let (hr0, hf0) = choose|hr0: int, hf0: int|
            {
                &&& #[trigger] is_first_on_grid(p, t, 1, true, hr0)
                &&& #[trigger] is_first_on_grid(p, hr0 + 1, 2, false, hf0)
                &&& bits.first() == classify_bit(hf0 - hr0)
                &&& legacy_bits_read(p, hf0 + 1, bits.drop_first(), t_mid)
            };
        lemma_legacy_bits_snoc(p, hf0 + 1, bits.drop_first(), t_mid, hr, hf, b);
        assert(bits.push(b).first() == bits.first());
        assert(bits.push(b).drop_first() =~= bits.drop_first().push(b));
        assert(is_first_on_grid(p, t, 1, true, hr0) && is_first_on_grid(
            p,
            hr0 + 1,
            2,
            false,
            hf0,
        ));
    }
}

/// A first-target observation carries over between pins with the same
/// line trace.
proof fn lemma_first_on_grid_same_line<P: SensorPin>(
    p1: &P,
    p2: &P,
    t: int,
    step: int,
    want: bool,
    hit: int,
)
    requires
        forall|u: int| #[trigger] p1.line_level(u) == p2.line_level(u),
        is_first_on_grid(p1, t, step, want, hit),
    ensures
        is_first_on_grid(p2, t, step, want, hit),
{
    assert forall|u: int| t <= u < hit && (u - t) % step == 0 implies #[trigger] p2.line_level(u)
        != want by {
        assert(p1.line_level(u) != want);
    }
}

/// Every integer is a multiple of one.
proof fn lemma_unit_grid(x: int)
    requires
        0 <= x,
    ensures
        x % 1 == 0,
{
    vstd::arithmetic::div_mod::lemma_fundamental_div_mod_converse(x, 1, x, 0);
}

/// The successful poll a wait observed is the first one: no earlier poll
/// on the grid showed the wanted level.
proof fn lemma_first_level_poll_hit<P: SensorPin>(
    p: &P,
    t0: int,
    step: int,
    want: bool,
    polls: nat,
    hit: int,
)
    requires
        step >= 1,
        t0 <= hit,
        (hit - t0) % step == 0,
        hit - t0 <= polls * step,
        p.line_level(hit) == want,
        no_target_on_grid(p, t0, hit, step, want),
    ensures
        first_level_poll(p, t0, step, want, polls) == Some(hit),
    decreases polls,
{
    if p.line_level(t0) == want {
        if hit > t0 {
            vstd::arithmetic::div_mod::lemma_small_mod(0, step as nat);
            assert((t0 - t0) % step == 0);
            assert(false);
        }
    } else {
        assert(hit != t0);
        let x = hit - t0;
        vstd::arithmetic::div_mod::lemma_fundamental_div_mod(x, step);
        vstd::arithmetic::div_mod::lemma_div_pos_is_pos(x, step);
        let q = x / step;
        assert(q >= 1) by (nonlinear_arith)
            requires
                x == step * q + 0,
                x > 0,
                q >= 0,
                step >= 1,
        ;
        assert(x >= step) by (nonlinear_arith)
            requires
                x == step * q + 0,
                q >= 1,
                step >= 1,
        ;
        assert(polls >= 1) by (nonlinear_arith)
            requires
                hit - t0 <= polls * step,
                hit - t0 >= step,
                step >= 1,
                polls >= 0,
        ;
        vstd::arithmetic::div_mod::lemma_mod_multiples_vanish(-1, hit - t0, step);
        assert((hit - (t0 + step)) % step == 0);
        assert(hit - (t0 + step) <= (polls - 1) * step) by (nonlinear_arith)
            requires
                hit - t0 <= polls * step,
                polls >= 1,
        ;
        assert(no_target_on_grid(p, t0 + step, hit, step, want)) by {
            assert forall|t: int|
                t0 + step <= t < hit && (t - (t0 + step)) % step == 0 implies #[trigger] p.line_level(
                t,
            ) != want by {
                vstd::arithmetic::div_mod::lemma_mod_multiples_vanish(1, t - (t0 + step), step);
                assert((t - t0) % step == 0);
            }
        }
        lemma_first_level_poll_hit(p, t0 + step, step, want, (polls - 1) as nat, hit);
    }
}

/// A wait that saw no wanted level on any poll of its grid yields no
/// instant.
proof fn lemma_first_level_poll_none<P: SensorPin>(
    p: &P,
    t0: int,
    step: int,
    want: bool,
    polls: nat,
)
    requires
        step >= 1,
        no_target_on_grid(p, t0, t0 + polls * step + 1, step, want),
    ensures
        first_level_poll(p, t0, step, want, polls) is None,
    decreases polls,
{
    vstd::arithmetic::div_mod::lemma_small_mod(0, step as nat);
    assert((t0 - t0) % step == 0);
    assert(polls * step >= 0) by (nonlinear_arith)
        requires
            polls >= 0,
            step >= 1,
    ;
    assert(p.line_level(t0) != want);
    if polls > 0 {
        assert(no_target_on_grid(p, t0 + step, t0 + step + (polls - 1) * step + 1, step, want))
            by {
            assert((polls - 1) * step == polls * step - step) by (nonlinear_arith);
            assert forall|t: int|
                t0 + step <= t < t0 + step + (polls - 1) * step + 1 && (t - (t0 + step)) % step
                    == 0 implies #[trigger] p.line_level(t) != want by {
                vstd::arithmetic::div_mod::lemma_mod_multiples_vanish(1, t - (t0 + step), step);
                assert((t - t0) % step == 0);
            }
        }
        lemma_first_level_poll_none(p, t0 + step, step, want, (polls - 1) as nat);
    }
}

/// Two pins with the same line trace make the same poll observations.
proof fn lemma_first_level_poll_same_line<P: SensorPin>(
    p1: &P,
    p2: &P,
    t: int,
    step: int,
    want: bool,
    polls: nat,
)
    requires
        forall|u: int| #[trigger] p1.line_level(u) == p2.line_level(u),
    ensures
        first_level_poll(p1, t, step, want, polls) == first_level_poll(p2, t, step, want, polls),
    decreases polls,
{
    if p1.line_level(t) != want && polls > 0 {
        lemma_first_level_poll_same_line(p1, p2, t + step, step, want, (polls - 1) as nat);
    }
}

/// Two pins with the same line trace yield the same preamble outcome.
proof fn lemma_preamble_same_line<P: SensorPin>(p1: &P, p2: &P, t: int)
    requires
        forall|u: int| #[trigger] p1.line_level(u) == p2.line_level(u),
    ensures
        preamble_from_line(p1, t) == preamble_from_line(p2, t),
{
    lemma_first_level_poll_same_line(p1, p2, t, 2, false, 50);
    match edge_wait_result(p1, t, false, true) {
        None => {},
        Some((d0, t1)) => {
            lemma_first_level_poll_same_line(p1, p2, t1, 1, true, 100);
            match edge_wait_result(p1, t1, true, false) {
                None => {},
                Some((d1, t2)) => {
                    lemma_first_level_poll_same_line(p1, p2, t2, 2, false, 50);
                },
            }
        },
    }
}

/// A grid instant is `start` plus a whole number of steps.
proof fn lemma_grid_index(start: int, step: int, t: int)
    requires
        step >= 1,
        start <= t,
        (t - start) % step == 0,
    ensures
        t == start + ((t - start) / step) * step,
        0 <= (t - start) / step,
{
    vstd::arithmetic::div_mod::lemma_fundamental_div_mod(t - start, step);
    vstd::arithmetic::div_mod::lemma_div_pos_is_pos(t - start, step);
    assert(step * ((t - start) / step) == ((t - start) / step) * step) by (nonlinear_arith);
}

/// The linear facts about multiples of the poll period that the edge-wait
/// proof steps need.
proof fn lemma_mul_step(j: int, k: int, s: int)
    requires
        s >= 1,
    ensures
        (j + 1) * s == j * s + s,
        (j - 1) * s == j * s - s,
        j >= 0 ==> j * s >= 0,
        j >= 0 ==> j <= j * s,
        0 <= j < k ==> j * s + s <= k * s,
{
    assert((j + 1) * s == j * s + s) by (nonlinear_arith);
    assert((j - 1) * s == j * s - s) by (nonlinear_arith);
    assert(j >= 0 ==> j * s >= 0) by (nonlinear_arith)
        requires
            s >= 1,
    ;
    assert(j >= 0 ==> j <= j * s) by (nonlinear_arith)
        requires
            s >= 1,
    ;
    assert(0 <= j < k ==> j * s + s <= k * s) by (nonlinear_arith)
        requires
            s >= 1,
    ;
}

/// Polls the line until it reads level `want_high`, and returns the
/// elapsed microseconds.  With `timeout_us` set, gives up once the
/// elapsed time exceeds the bound; without it, polls until the line
/// complies, giving up only if the microsecond clock reaches the end of
/// its range.  With `pace`, each poll is followed by a one-microsecond
/// delay, so the poll grid has a period of two microseconds instead of
/// one.
#[verifier::loop_isolation(false)]
fn wait_for_level<P: SensorPin>(
    pin: &mut P,
    want_high: bool,
    timeout_us: Option<u64>,
    pace: bool,
) -> (r: Option<u64>)
    requires
        0 <= old(pin).now_us_spec() <= u64::MAX as int,
        timeout_us matches Some(b) ==> old(pin).now_us_spec() + b as int + poll_step(pace) + 2
            <= u64::MAX as int,
    ensures
        forall|t: int| #[trigger] final(pin).line_level(t) == old(pin).line_level(t),
        0 <= final(pin).now_us_spec() <= u64::MAX as int,
        old(pin).now_us_spec() <= final(pin).now_us_spec(),
        timeout_us matches Some(b) ==> final(pin).now_us_spec() <= old(pin).now_us_spec()
            + b as int + poll_step(pace),
        match r {
            Some(d) => {
                &&& 1 <= d
                &&& (d as int - 1) % poll_step(pace) == 0
                &&& final(pin).now_us_spec() == old(pin).now_us_spec() + d
                &&& old(pin).line_level(old(pin).now_us_spec() + d - 1) == want_high
                &&& no_target_on_grid(
                    old(pin),
                    old(pin).now_us_spec(),
                    old(pin).now_us_spec() + d - 1,
                    poll_step(pace),
                    want_high,
                )
            },
            None => {
                ||| (timeout_us matches Some(b) && {
                    &&& old(pin).now_us_spec() + b as int + 1 <= final(pin).now_us_spec()
                    &&& no_target_on_grid(
                        old(pin),
                        old(pin).now_us_spec(),
                        old(pin).now_us_spec() + b as int + 1,
                        poll_step(pace),
                        want_high,
                    )
                })
                ||| final(pin).now_us_spec() == u64::MAX as int
            },
        },
{
    let start = pin.now_us();
    let ghost t0 = old(pin).now_us_spec();
    let ghost s = poll_step(pace);
    let ghost mut polls: int = 0;
    loop
        invariant
            polls >= 0,
            polls * s >= 0,
            forall|t: int| #[trigger] pin.line_level(t) == old(pin).line_level(t),
            pin.now_us_spec() == sat_add(t0, polls * s),
            no_target_on_grid(old(pin), t0, sat_add(t0, polls * s), s, want_high),
            timeout_us matches Some(b) ==> (polls == 0 || (polls - 1) * s + 1 <= b as int),
        decreases u64::MAX as int - pin.now_us_spec(),
    {
        let now0 = pin.now_us();
        if now0 == u64::MAX {
            return None;
        }
        proof {
            assert(t0 + polls * s < u64::MAX as int);
        }
        let high = pin.read_level();
        if high == want_high {
            let now = pin.now_us();
            proof {
                assert(pin.now_us_spec() == t0 + polls * s + 1);
                vstd::arithmetic::div_mod::lemma_mod_multiples_basic(polls, s);
                match timeout_us {
                    Some(b) => {
                        lemma_mul_step(polls, polls, s);
                        assert(polls * s + 1 <= b as int + s);
                    },
                    None => {},
                }
            }
            return Some(now - start);
        }
        proof {
            lemma_mul_step(polls, polls, s);
            assert forall|t: int|
                t0 <= t < sat_add(t0, polls * s + s) && (t - t0) % s == 0 implies #[trigger] old(
                pin,
            ).line_level(t) != want_high by {
                lemma_grid_index(t0, s, t);
                let j = (t - t0) / s;
                lemma_mul_step(j, polls, s);
                if t < sat_add(t0, polls * s) {
                } else {
                    assert(t0 + polls * s <= t);
                    assert(j * s <= polls * s + s - 1);
                    if j < polls {
                        assert(j * s + s <= polls * s);
                        assert(t < t0 + polls * s);
                    }
                    lemma_mul_step(polls, j, s);
                    if polls < j {
                        assert(polls * s + s <= j * s);
                    }
                    assert(j == polls);
                    assert(t == t0 + polls * s);
                }
            }
        }
        if let Option::Some(bound) = timeout_us {
            let now = pin.now_us();
            if now - start > bound {
                proof {
                    assert(pin.now_us_spec() == sat_add(t0, polls * s + 1));
                    assert(pin.now_us_spec() >= t0 + bound as int + 1);
                    assert(t0 + bound as int + 1 <= t0 + polls * s + s);
                    assert(sat_add(t0, polls * s + s) >= t0 + bound as int + 1);
                }
                return None;
            }
            proof {
                assert(polls * s + 1 <= bound as int);
            }
        }
        if pace {
            pin.busy_wait_us(1);
        }
        proof {
            lemma_mul_step(polls, polls, s);
            polls = polls + 1;
            assert(pin.now_us_spec() == sat_add(t0, polls * s));
        }
    }
}

/// Waits without a time limit for the line to go low, polling with an
/// explicit 1 microsecond pacing delay per read, and returns the elapsed
/// microseconds.  Returns `None` only if the clock reaches the end of its
/// range first.
fn wait_for_falling_edge<P: SensorPin>(pin: &mut P) -> (r: Option<u64>)
    requires
        0 <= old(pin).now_us_spec() <= u64::MAX as int,
    ensures
        forall|t: int| #[trigger] final(pin).line_level(t) == old(pin).line_level(t),
        0 <= final(pin).now_us_spec() <= u64::MAX as int,
        old(pin).now_us_spec() <= final(pin).now_us_spec(),
        match r {
            Some(d) => {
                &&& 1 <= d
                &&& (d as int - 1) % 2 == 0
                &&& final(pin).now_us_spec() == old(pin).now_us_spec() + d
                &&& !old(pin).line_level(old(pin).now_us_spec() + d - 1)
                &&& no_target_on_grid(
                    old(pin),
                    old(pin).now_us_spec(),
                    old(pin).now_us_spec() + d - 1,
                    2,
                    false,
                )
            },
            None => final(pin).now_us_spec() == u64::MAX as int,
        },
{
    wait_for_level(pin, false, None, true)
}

/// Waits without a time limit for the line to go high and returns the
/// elapsed microseconds.  Deliberately polls without pacing (the paced
/// variant tends to miss short rises).  Returns `None` only if the clock
/// reaches the end of its range first.
fn wait_for_rising_edge<P: SensorPin>(pin: &mut P) -> (r: Option<u64>)
    requires
        0 <= old(pin).now_us_spec() <= u64::MAX as int,
    ensures
        forall|t: int| #[trigger] final(pin).line_level(t) == old(pin).line_level(t),
        0 <= final(pin).now_us_spec() <= u64::MAX as int,
        old(pin).now_us_spec() <= final(pin).now_us_spec(),
        match r {
            Some(d) => {
                &&& 1 <= d
                &&& final(pin).now_us_spec() == old(pin).now_us_spec() + d
                &&& old(pin).line_level(old(pin).now_us_spec() + d - 1)
                &&& no_target_on_grid(
                    old(pin),
                    old(pin).now_us_spec(),
                    old(pin).now_us_spec() + d - 1,
                    1,
                    true,
                )
            },
            None => final(pin).now_us_spec() == u64::MAX as int,
        },
{
    wait_for_level(pin, true, None, false)
}

/// Waits at most [`TIMEOUT_US`] microseconds for the line to go low,
/// polling with the same 1 microsecond pacing as the unbounded
/// falling-edge wait, and returns the elapsed microseconds, or `None` on
/// timeout.
fn wait_for_falling_edge_timeout<P: SensorPin>(pin: &mut P) -> (r: Option<u64>)
    requires
        0 <= old(pin).now_us_spec(),
        old(pin).now_us_spec() + TIMEOUT_US as int + 4 <= u64::MAX as int,
    ensures
        forall|t: int| #[trigger] final(pin).line_level(t) == old(pin).line_level(t),
        0 <= final(pin).now_us_spec() <= u64::MAX as int,
        old(pin).now_us_spec() <= final(pin).now_us_spec(),
        final(pin).now_us_spec() <= old(pin).now_us_spec() + TIMEOUT_US as int + 2,
        match r {
            Some(d) => {
                &&& 1 <= d <= TIMEOUT_US + 2
                &&& (d as int - 1) % 2 == 0
                &&& final(pin).now_us_spec() == old(pin).now_us_spec() + d
                &&& !old(pin).line_level(old(pin).now_us_spec() + d - 1)
                &&& no_target_on_grid(
                    old(pin),
                    old(pin).now_us_spec(),
                    old(pin).now_us_spec() + d - 1,
                    2,
                    false,
                )
                &&& edge_wait_result(old(pin), old(pin).now_us_spec(), false, true) == Some(
                    (d as int, old(pin).now_us_spec() + d),
                )
            },
            None => {
                &&& old(pin).now_us_spec() + TIMEOUT_US as int + 1 <= final(pin).now_us_spec()
                &&& no_target_on_grid(
                    old(pin),
                    old(pin).now_us_spec(),
                    old(pin).now_us_spec() + TIMEOUT_US as int + 1,
                    2,
                    false,
                )
                &&& edge_wait_result(old(pin), old(pin).now_us_spec(), false, true) is None
            },
        },
{
    let r = wait_for_level(pin, false, Some(TIMEOUT_US), true);
    proof {
        let t0 = old(pin).now_us_spec();
        match r {
            Some(d) => {
                let hit = t0 + d - 1;
                assert(d as int - 1 <= 100);
                lemma_first_level_poll_hit(old(pin), t0, 2, false, 50, hit);
            },
            None => {
                lemma_first_level_poll_none(old(pin), t0, 2, false, 50);
            },
        }
    }
    r
}

/// Waits at most [`TIMEOUT_US`] microseconds for the line to go high and
/// returns the elapsed microseconds, or `None` on timeout.  Polls without
/// pacing, like the unbounded rising-edge wait.
fn wait_for_rising_edge_timeout<P: SensorPin>(pin: &mut P) -> (r: Option<u64>)
    requires
        0 <= old(pin).now_us_spec(),
        old(pin).now_us_spec() + TIMEOUT_US as int + 3 <= u64::MAX as int,
    ensures
        forall|t: int| #[trigger] final(pin).line_level(t) == old(pin).line_level(t),
        0 <= final(pin).now_us_spec() <= u64::MAX as int,
        old(pin).now_us_spec() <= final(pin).now_us_spec(),
        final(pin).now_us_spec() <= old(pin).now_us_spec() + TIMEOUT_US as int + 1,
        match r {
            Some(d) => {
                &&& 1 <= d <= TIMEOUT_US + 1
                &&& final(pin).now_us_spec() == old(pin).now_us_spec() + d
                &&& old(pin).line_level(old(pin).now_us_spec() + d - 1)
                &&& no_target_on_grid(
                    old(pin),
                    old(pin).now_us_spec(),
                    old(pin).now_us_spec() + d - 1,
                    1,
                    true,
                )
                &&& edge_wait_result(old(pin), old(pin).now_us_spec(), true, false) == Some(
                    (d as int, old(pin).now_us_spec() + d),
                )
            },
            None => {
                &&& old(pin).now_us_spec() + TIMEOUT_US as int + 1 <= final(pin).now_us_spec()
                &&& no_target_on_grid(
                    old(pin),
                    old(pin).now_us_spec(),
                    old(pin).now_us_spec() + TIMEOUT_US as int + 1,
                    1,
                    true,
                )
                &&& edge_wait_result(old(pin), old(pin).now_us_spec(), true, false) is None
            },
        },
{
    let r = wait_for_level(pin, true, Some(TIMEOUT_US), false);
    proof {
        let t0 = old(pin).now_us_spec();
        match r {
            Some(d) => {
                let hit = t0 + d - 1;
                vstd::arithmetic::div_mod::lemma_fundamental_div_mod_converse(
                    d as int - 1,
                    1,
                    d as int - 1,
                    0,
                );
                lemma_first_level_poll_hit(old(pin), t0, 1, true, 100, hit);
            },
            None => {
                lemma_first_level_poll_none(old(pin), t0, 1, true, 100);
            },
        }
    }
    r
}

/// Drives the host-initiated start condition: high, switch to output,
/// hold low for one millisecond, high again, then hand the line to the
/// sensor by switching to input.
fn trigger_measure<P: SensorPin>(pin: &mut P)
    requires
        0 <= old(pin).now_us_spec() <= u64::MAX as int,
    ensures
        forall|t: int| #[trigger] final(pin).line_level(t) == old(pin).line_level(t),
        final(pin).now_us_spec() == sat_add(old(pin).now_us_spec(), 1000),
{
    pin.set_high();
    pin.set_as_output();
    pin.set_low();
    pin.busy_wait_us(1000);
    pin.set_high();
    pin.set_as_input();
}

/// Consumes the sensor's preamble — a falling edge, a rising edge, and a
/// final falling edge — with unbounded waits (legacy path).
fn skip_start_of_measure<P: SensorPin>(pin: &mut P) -> (r: Result<(), ReadBitsError>)
    requires
        0 <= old(pin).now_us_spec() <= u64::MAX as int,
    ensures
        forall|t: int| #[trigger] final(pin).line_level(t) == old(pin).line_level(t),
        0 <= final(pin).now_us_spec() <= u64::MAX as int,
        old(pin).now_us_spec() <= final(pin).now_us_spec(),
        r is Err ==> final(pin).now_us_spec() == u64::MAX as int,
        r is Ok ==> old(pin).now_us_spec() < u64::MAX as int && legacy_preamble(
            old(pin),
            old(pin).now_us_spec(),
            final(pin).now_us_spec(),
        ),
{
    let ghost t0 = old(pin).now_us_spec();
    let r1 = wait_for_falling_edge(pin);
    if r1.is_none() {
        return Err(ReadBitsError::TimeoutErr);
    }
    let ghost h0 = pin.now_us_spec() - 1;
    let ghost q1 = *pin;
    let r2 = wait_for_rising_edge(pin);
    proof {
        match r2 {
            Some(d2) => {
                lemma_unit_grid(d2 as int - 1);
                lemma_first_on_grid_same_line(&q1, old(pin), h0 + 1, 1, true, h0 + d2);
            },
            None => {},
        }
    }
    if r2.is_none() {
        return Err(ReadBitsError::TimeoutErr);
    }
    let ghost h1 = pin.now_us_spec() - 1;
    let ghost q2 = *pin;
    let r3 = wait_for_falling_edge(pin);
    proof {
        match r3 {
            Some(d3) => {
                lemma_first_on_grid_same_line(&q2, old(pin), h1 + 1, 2, false, h1 + d3);
            },
            None => {},
        }
    }
    if r3.is_none() {
        return Err(ReadBitsError::TimeoutErr);
    }
    proof {
        let h2 = pin.now_us_spec() - 1;
        assert(is_first_on_grid(old(pin), t0, 2, false, h0));
        assert(is_first_on_grid(old(pin), h0 + 1, 1, true, h1));
        assert(is_first_on_grid(old(pin), h1 + 1, 2, false, h2));
    }
    Ok(())
}

/// Consumes the sensor's preamble with every edge wait bounded by
/// [`TIMEOUT_US`].
fn skip_start_of_measure_timeout<P: SensorPin>(pin: &mut P) -> (r: Result<(), ReadBitsError>)
    requires
        0 <= old(pin).now_us_spec(),
        old(pin).now_us_spec() + 310 <= u64::MAX as int,
    ensures
        forall|t: int| #[trigger] final(pin).line_level(t) == old(pin).line_level(t),
        0 <= final(pin).now_us_spec() <= u64::MAX as int,
        old(pin).now_us_spec() <= final(pin).now_us_spec(),
        final(pin).now_us_spec() <= old(pin).now_us_spec() + 305,
        match r {
            Ok(_) => preamble_from_line(old(pin), old(pin).now_us_spec()) == Some(
                final(pin).now_us_spec(),
            ),
            Err(e) => e == ReadBitsError::TimeoutErr && preamble_from_line(
                old(pin),
                old(pin).now_us_spec(),
            ) is None,
        },
{
    let ghost t0 = old(pin).now_us_spec();
    if wait_for_falling_edge_timeout(pin).is_none() {
        return Err(ReadBitsError::TimeoutErr);
    }
    let ghost q1 = *pin;
    let ghost t1 = q1.now_us_spec();
    let r2 = wait_for_rising_edge_timeout(pin);
    proof {
        lemma_first_level_poll_same_line(&q1, old(pin), t1, 1, true, 100);
    }
    if r2.is_none() {
        return Err(ReadBitsError::TimeoutErr);
    }
    let ghost q2 = *pin;
    let ghost t2 = q2.now_us_spec();
    let r3 = wait_for_falling_edge_timeout(pin);
    proof {
        lemma_first_level_poll_same_line(&q2, old(pin), t2, 2, false, 50);
    }
    if r3.is_none() {
        return Err(ReadBitsError::TimeoutErr);
    }
    Ok(())
}

/// Reads the 40 frame bits through the legacy unbounded edge waits:
/// triggers a measurement, skips the preamble, then classifies each data
/// pulse as 1 when its high duration exceeds 50 microseconds.  Can block
/// as long as the sensor stays silent; it gives up only when the clock
/// reaches the end of its range.
#[verifier::loop_isolation(false)]
pub fn read_bits<P: SensorPin>(pin: &mut P) -> (r: Result<[u8; 40], ReadBitsError>)
    requires
        0 <= old(pin).now_us_spec() <= u64::MAX as int,
    ensures
        forall|t: int| #[trigger] final(pin).line_level(t) == old(pin).line_level(t),
        0 <= final(pin).now_us_spec() <= u64::MAX as int,
        old(pin).now_us_spec() <= final(pin).now_us_spec(),
        match r {
            Ok(bits) => frame_ok(bits@) && legacy_acquisition(
                old(pin),
                old(pin).now_us_spec(),
                bits@,
                final(pin).now_us_spec(),
            ),
            Err(e) => e == ReadBitsError::TimeoutErr && final(pin).now_us_spec()
                == u64::MAX as int,
        },
{
    let ghost t0 = old(pin).now_us_spec();
    let mut measures: [u8; 40] = [0u8; 40];
    trigger_measure(pin);
    pin.set_as_input();

    let ghost q_pre = *pin;
    let skipped = skip_start_of_measure(pin);
    if skipped.is_err() {
        return Err(ReadBitsError::TimeoutErr);
    }
    let ghost t_bits = pin.now_us_spec();
    proof {
        assert(q_pre.now_us_spec() == t0 + 1000);
        let (h0, h1, h2) = choose|h0: int, h1: int, h2: int|
            {
                &&& #[trigger] is_first_on_grid(&q_pre, t0 + 1000, 2, false, h0)
                &&& #[trigger] is_first_on_grid(&q_pre, h0 + 1, 1, true, h1)
                &&& #[trigger] is_first_on_grid(&q_pre, h1 + 1, 2, false, h2)
                &&& t_bits == h2 + 1
            };
        lemma_first_on_grid_same_line(&q_pre, old(pin), t0 + 1000, 2, false, h0);
        lemma_first_on_grid_same_line(&q_pre, old(pin), h0 + 1, 1, true, h1);
        lemma_first_on_grid_same_line(&q_pre, old(pin), h1 + 1, 2, false, h2);
        assert(legacy_preamble(old(pin), t0 + 1000, t_bits));
    }

    let mut i: usize = 0;
    while i < 40
        invariant
            i <= 40,
            forall|t: int| #[trigger] pin.line_level(t) == old(pin).line_level(t),
            0 <= pin.now_us_spec() <= u64::MAX as int,
            old(pin).now_us_spec() <= pin.now_us_spec(),
            forall|j: int| 0 <= j < 40 ==> is_bit(#[trigger] measures@[j]),
            legacy_bits_read(old(pin), t_bits, measures@.subrange(0, i as int), pin.now_us_spec()),
        decreases 40 - i,
    {
        let ghost now_i = pin.now_us_spec();
        let ghost q_r = *pin;
        let rise = wait_for_rising_edge(pin);
        proof {
            match rise {
                Some(dr) => {
                    lemma_unit_grid(dr as int - 1);
                    lemma_first_on_grid_same_line(&q_r, old(pin), now_i, 1, true, now_i + dr - 1);
                },
                None => {},
            }
        }
        if rise.is_none() {
            return Err(ReadBitsError::TimeoutErr);
        }
        let ghost hr = pin.now_us_spec() - 1;
        let ghost q_f = *pin;
        let fall = wait_for_falling_edge(pin);
        proof {
            match fall {
                Some(df) => {
                    lemma_first_on_grid_same_line(&q_f, old(pin), hr + 1, 2, false, hr + df);
                },
                None => {},
            }
        }
        let delay = match fall {
            Some(d) => d,
            None => {
                return Err(ReadBitsError::TimeoutErr);
            },
        };
        let ghost hf = pin.now_us_spec() - 1;
        let ghost before = measures@;
        measures[i] = if delay > 50 {
            1
        } else {
            0
        };
        proof {
            assert(hf - hr == delay as int);
            assert(measures@[i as int] == classify_bit(hf - hr));
            assert(measures@.subrange(0, i as int) =~= before.subrange(0, i as int));
            lemma_legacy_bits_snoc(
                old(pin),
                t_bits,
                measures@.subrange(0, i as int),
                now_i,
                hr,
                hf,
                measures@[i as int],
            );
            assert(measures@.subrange(0, i + 1) =~= measures@.subrange(0, i as int).push(
                measures@[i as int],
            ));
        }
        i = i + 1;
    }
    proof {
        assert(measures@.subrange(0, 40) =~= measures@);
        assert(legacy_acquisition(old(pin), t0, measures@, pin.now_us_spec()));
    }
    Ok(measures)
}

/// Reads the 40 frame bits with every edge wait bounded by
/// [`TIMEOUT_US`]: triggers a measurement, skips the preamble, then
/// classifies each data pulse as 1 when its high duration exceeds 50
/// microseconds.  A silent or disconnected sensor yields a timeout, and
/// the whole call takes at most [`ACQUISITION_BOUND_US`] microseconds of
/// modelled time.
#[verifier::loop_isolation(false)]
pub fn read_bits_timeout<P: SensorPin>(pin: &mut P) -> (r: Result<[u8; 40], ReadBitsError>)
    requires
        0 <= old(pin).now_us_spec(),
        old(pin).now_us_spec() + ACQUISITION_BOUND_US as int + 110 <= u64::MAX as int,
    ensures
        forall|t: int| #[trigger] final(pin).line_level(t) == old(pin).line_level(t),
        old(pin).now_us_spec() <= final(pin).now_us_spec(),
        final(pin).now_us_spec() <= old(pin).now_us_spec() + ACQUISITION_BOUND_US as int,
        match r {
            Ok(bits) => frame_ok(bits@) && acquisition_from_line(
                old(pin),
                old(pin).now_us_spec(),
            ) == Some((bits@, final(pin).now_us_spec())),
            Err(e) => e == ReadBitsError::TimeoutErr && acquisition_from_line(
                old(pin),
                old(pin).now_us_spec(),
            ) is None,
        },
{
    let ghost t0 = old(pin).now_us_spec();
    let mut measures: [u8; 40] = [0u8; 40];
    trigger_measure(pin);
    pin.set_as_input();

    let ghost q_pre = *pin;
    let skipped = skip_start_of_measure_timeout(pin);
    proof {
        lemma_preamble_same_line(&q_pre, old(pin), t0 + 1000);
    }
    if skipped.is_err() {
        return Err(ReadBitsError::TimeoutErr);
    }
    let ghost t_bits = pin.now_us_spec();
    proof {
        assert(preamble_from_line(old(pin), t0 + 1000) == Some(t_bits));
        match bits_from_line(old(pin), t_bits, 40) {
            Some(pr) => {
                assert(measures@.subrange(0, 0) + pr.0 =~= pr.0);
            },
            None => {},
        }
    }

    let mut i: usize = 0;
    while i < 40
        invariant
            i <= 40,
            forall|t: int| #[trigger] pin.line_level(t) == old(pin).line_level(t),
            old(pin).now_us_spec() <= pin.now_us_spec(),
            pin.now_us_spec() <= old(pin).now_us_spec() + 1305 + 203 * (i as int),
            forall|j: int| 0 <= j < 40 ==> is_bit(#[trigger] measures@[j]),
            bits_from_line(old(pin), t_bits, 40) == (match bits_from_line(
                old(pin),
                pin.now_us_spec(),
                (40 - i) as nat,
            ) {
                Some(pr) => Some((measures@.subrange(0, i as int) + pr.0, pr.1)),
                None => None::<(Seq<u8>, int)>,
            }),
        decreases 40 - i,
    {
        let ghost now_i = pin.now_us_spec();
        let ghost q_r = *pin;
        let rise = wait_for_rising_edge_timeout(pin);
        proof {
            lemma_first_level_poll_same_line(&q_r, old(pin), now_i, 1, true, 100);
        }
        if rise.is_none() {
            return Err(ReadBitsError::TimeoutErr);
        }
        let ghost now_1 = pin.now_us_spec();
        let ghost q_f = *pin;
        let fall = wait_for_falling_edge_timeout(pin);
        proof {
            lemma_first_level_poll_same_line(&q_f, old(pin), now_1, 2, false, 50);
        }
        let delay = match fall {
            Some(d) => d,
            None => {
                return Err(ReadBitsError::TimeoutErr);
            },
        };
        let ghost now_2 = pin.now_us_spec();
        let ghost before = measures@;
        measures[i] = if delay > 50 {
            1
        } else {
            0
        };
        proof {
            assert(edge_wait_result(old(pin), now_i, true, false) matches Some(pr) && pr.1
                == now_1);
            assert(edge_wait_result(old(pin), now_1, false, true) == Some(
                (delay as int, now_2),
            ));
            assert(measures@[i as int] == classify_bit(delay as int));
            assert(measures@.subrange(0, i as int) =~= before.subrange(0, i as int));
            match bits_from_line(old(pin), now_2, (40 - (i + 1)) as nat) {
                Some(pr) => {
                    assert(bits_from_line(old(pin), now_i, (40 - i) as nat) == Some(
                        (seq![classify_bit(delay as int)] + pr.0, pr.1),
                    ));
                    assert(measures@.subrange(0, i + 1) =~= measures@.subrange(0, i as int)
                        + seq![classify_bit(delay as int)]);
                    assert(measures@.subrange(0, i + 1) + pr.0 =~= measures@.subrange(0, i as int)
                        + (seq![classify_bit(delay as int)] + pr.0));
                },
                None => {
                    assert(bits_from_line(old(pin), now_i, (40 - i) as nat) is None);
                },
            }
        }
        i = i + 1;
    }
    proof {
        assert(bits_from_line(old(pin), pin.now_us_spec(), 0) == Some(
            (Seq::<u8>::empty(), pin.now_us_spec()),
        ));
        assert(measures@.subrange(0, 40) + Seq::<u8>::empty() =~= measures@);
    }
    Ok(measures)
}

} // verus!
