use vstd::prelude::*;
use vstd::arithmetic::div_mod::{lemma_fundamental_div_mod, lemma_fundamental_div_mod_converse};

verus! {

/// The fixed pulse: a quarter note.
pub const DIVISOR: u8 = 4;

/// The longest beat, in samples, that a tempo of at least one beat per
/// minute gives at a sample rate that fits in a `u32`.
pub const MAX_SAMPLES_PER_BEAT: u64 = 60 * 0xFFFF_FFFF;

/// The base subdivision length in samples. The scaling by 1000 and back
/// is kept as it is, integer steps included.
pub open spec fn base_position(samples_per_beat: nat, divisor: nat, division: nat) -> nat
    recommends
        division > 0,
{
    1000 * samples_per_beat * divisor / division / 1000
}

/// How far swing moves the subdivision clicks, as a signed percentage.
pub open spec fn swing_ratio(swing: int) -> int {
    swing * 2 - 100
}

/// The shift that swing applies to a base length (rounded down).
pub open spec fn swing_shift(base: nat, swing: int) -> int {
    base * swing_ratio(swing) / 100
}

/// The swung subdivision length, never below zero.
pub open spec fn swung_position(base: nat, swing: int) -> nat {
    let p = base + swing_shift(base, swing);
    if p < 0 { 0 } else { p as nat }
}

/// Subdivision clicks added after the downbeat: one for an even division,
/// one more for a multiple of three.
pub open spec fn extra_clicks(division: nat) -> nat {
    (if division % 2 == 0 { 1nat } else { 0nat }) + (if division % 3 == 0 { 1nat } else { 0nat })
}

/// The click offsets of one measure cycle, in increasing order, for a swung
/// step `step`: the downbeat, then each extra click one step after the
/// previous. A step of zero collapses them all onto the downbeat.
pub open spec fn click_schedule(step: nat, division: nat) -> Seq<int> {
    if step == 0 {
        seq![0int]
    } else {
        Seq::new(1 + extra_clicks(division), |k: int| k * step)
    }
}

/// The offsets held by a vector, as integers.
pub open spec fn as_ints(v: Seq<u64>) -> Seq<int> {
    v.map_values(|x: u64| x as int)
}

/// The base length is at most a beat times the divisor.
pub proof fn lemma_base_bound(samples_per_beat: nat, divisor: nat, division: nat)
    requires
        division > 0,
    ensures
        base_position(samples_per_beat, divisor, division) <= samples_per_beat * divisor,
{
    let scaled: nat = 1000 * samples_per_beat * divisor;
    let d: nat = scaled / division;
    assert(d <= scaled) by (nonlinear_arith)
        requires division >= 1, d == scaled / division;
    assert(d / 1000 <= samples_per_beat * divisor) by (nonlinear_arith)
        requires d <= scaled, scaled == 1000 * samples_per_beat * divisor;
}

/// The swung length is at most 656 base lengths for any `i16` swing.
pub proof fn lemma_swung_bound(base: nat, swing: int)
    requires
        -32768 <= swing <= 32767,
    ensures
        swing_shift(base, swing) <= base * 655,
        swung_position(base, swing) <= base * 656,
{
    let prod = base * swing_ratio(swing);
    assert(prod <= base * 65434) by (nonlinear_arith)
        requires prod == base * swing_ratio(swing), swing <= 32767, base >= 0;
    lemma_fundamental_div_mod(prod, 100);
}

/// The last click lies at most two swung lengths after the downbeat.
pub proof fn lemma_last_click_bound(step: nat, division: nat)
    ensures
        click_schedule(step, division).len() >= 1,
        click_schedule(step, division)[0] == 0,
        0 <= click_schedule(step, division).last() <= 2 * step,
{
    let sched = click_schedule(step, division);
    if step > 0 {
        let k = sched.len() - 1;
        assert(sched[0] == 0 * step);
        assert(sched.last() == k * step);
        assert(0 <= k * step <= 2 * step) by (nonlinear_arith)
            requires 0 <= k <= 2, step >= 0;
    }
}

/// Base subdivision length for a beat of `samples_per_beat` samples.
pub fn click_position(samples_per_beat: u64, divisor: u8, division: u8) -> (r: u64)
    requires
        samples_per_beat <= MAX_SAMPLES_PER_BEAT,
        division > 0,
    ensures
        r == base_position(samples_per_beat as nat, divisor as nat, division as nat),
        r <= samples_per_beat * divisor,
{
    assert(1000 * samples_per_beat * divisor <= 1000 * MAX_SAMPLES_PER_BEAT * 255) by (nonlinear_arith)
        requires samples_per_beat <= MAX_SAMPLES_PER_BEAT, divisor <= 255;
    let scaled: u64 = 1000 * samples_per_beat * divisor as u64;
    proof {
        lemma_base_bound(samples_per_beat as nat, divisor as nat, division as nat);
    }
    scaled / division as u64 / 1000
}

/// The swing shift for a base length: `base * (2 * swing - 100) / 100`,
/// rounded down.
pub fn swing_offset(base: u64, swing: i16) -> (r: i64)
    requires
        base <= MAX_SAMPLES_PER_BEAT * 255,
    ensures
        r == swing_shift(base as nat, swing as int),
        swing == 50 ==> r == 0,
{
    let ratio: i64 = swing as i64 * 2 - 100;
    assert(-65636 <= ratio <= 65434);
    if ratio >= 0 {
        assert(base * ratio <= MAX_SAMPLES_PER_BEAT * 255 * 65434) by (nonlinear_arith)
            requires base <= MAX_SAMPLES_PER_BEAT * 255, 0 <= ratio <= 65434;
        let scaled: u64 = base * ratio as u64;
        (scaled / 100) as i64
    } else {
        let mag: u64 = (-ratio) as u64;
        assert(base * mag <= MAX_SAMPLES_PER_BEAT * 255 * 65636) by (nonlinear_arith)
            requires base <= MAX_SAMPLES_PER_BEAT * 255, 0 < mag <= 65636;
        let scaled: u64 = base * mag;
        let q: u64 = (scaled + 99) / 100;
        proof {
            let rem = (scaled + 99) % 100;
            lemma_fundamental_div_mod_converse(scaled + 99, 100, q as int, rem);
            lemma_fundamental_div_mod_converse(-scaled, 100, -q, 99 - rem);
            assert(base * ratio == -(base * mag)) by (nonlinear_arith)
                requires mag == -ratio;
        }
        -(q as i64)
    }
}

/// The swung subdivision length for a base length, clamped at zero.
pub fn click_position_swing(base: u64, swing: i16) -> (r: u64)
    requires
        base <= MAX_SAMPLES_PER_BEAT * 255,
    ensures
        r == swung_position(base as nat, swing as int),
        r <= base * 656,
{
    let offset: i64 = swing_offset(base, swing);
    proof {
        lemma_swung_bound(base as nat, swing as int);
    }
    let position: i64 = base as i64 + offset;
    if position < 0 {
        0
    } else {
        position as u64
    }
}

/// Adds one click a step after the latest click, unless the step is zero and
/// the click is already there.
fn push_after_last(positions: &mut Vec<u64>, step: u64)
    requires
        old(positions)@.len() > 0,
        old(positions)@.last() + step <= u64::MAX,
    ensures
        step == 0 ==> final(positions)@ == old(positions)@,
        step > 0 ==> final(positions)@ == old(positions)@.push((old(positions)@.last() + step) as u64),
{
    let last: u64 = positions[positions.len() - 1];
    let next: u64 = last + step;
    if next != last {
        positions.push(next);
    }
}

/// The click offsets of one measure cycle, in increasing order, for a swung
/// subdivision length `step`.
pub fn click_locations(step: u64, division: u8) -> (r: Vec<u64>)
    requires
        step <= u64::MAX / 2,
    ensures
        as_ints(r@) == click_schedule(step as nat, division as nat),
        r@.contains(0u64),
        r@[0] == 0,
        step > 0 ==> r@.len() == 1 + extra_clicks(division as nat),
        step == 0 ==> r@.len() == 1,
        1 <= r@.len() <= 3,
        division % 2 != 0 && division % 3 != 0 ==> r@ == seq![0u64],
{
    let mut positions: Vec<u64> = Vec::new();
    positions.push(0);
    if division % 2 == 0 {
        push_after_last(&mut positions, step);
    }
    let ghost first = positions@;
    if division % 3 == 0 {
        push_after_last(&mut positions, step);
    }
    proof {
        let want = click_schedule(step as nat, division as nat);
        assert(positions@[0] == 0);
        assert(positions@.contains(0u64));
        if step > 0 {
            assert(first.len() == 1 + (if division % 2 == 0 { 1int } else { 0 }));
            assert(first[0] == 0);
            assert(first.len() == 2 ==> first[1] == step);
            assert(want.len() == positions@.len());
            assert(positions@.len() >= 2 ==> positions@[1] == step);
            assert(positions@.len() == 3 ==> positions@[2] == 2 * step);
            assert forall|k: int| 0 <= k < want.len() implies as_ints(positions@)[k] == want[k] by {
                assert(want[k] == k * step);
                if k == 1 {
                    assert(want[k] == step);
                } else if k == 2 {
                    assert(want[k] == 2 * step);
                }
            }
        }
        assert(as_ints(positions@) =~= want);
    }
    positions
}

} // verus!
