use vstd::prelude::*;
use vstd::arithmetic::div_mod::{
    lemma_add_mod_noop_right, lemma_basic_div, lemma_fundamental_div_mod,
    lemma_mod_add_multiples_vanish, lemma_mod_multiples_basic, lemma_mod_self_0, lemma_small_mod,
};
use crate::schedule::{
    as_ints, base_position, click_locations, click_position, click_position_swing,
    click_schedule, lemma_base_bound, lemma_last_click_bound, lemma_swung_bound, swung_position,
    DIVISOR, MAX_SAMPLES_PER_BEAT,
};
use crate::tempo::{samples_per_beat, tempo_to_samples, ConfigError};

verus! {

/// How loud a click sample is played.
#[derive(Debug, Clone, Copy, PartialEq, Eq, Structural)]
pub enum Level {
    /// Full volume: gain 1.0.
    Full,
    /// The quieter level of later subdivision clicks: gain 0.3.
    Soft,
}

/// One sample to play: a position in the click waveform and its level.
#[derive(Debug, Clone, Copy, PartialEq, Eq, Structural)]
pub struct Tick {
    pub index: usize,
    pub level: Level,
}

/// The latest offset of `sched` at or before `count`, or 0 if there is none.
pub open spec fn latest_onset(sched: Seq<int>, count: int) -> int
    decreases sched.len(),
{
    if sched.len() == 0 {
        0
    } else {
        let rest = latest_onset(sched.drop_last(), count);
        if sched.last() <= count && sched.last() > rest {
            sched.last()
        } else {
            rest
        }
    }
}

/// The level at `count`: full unless the schedule has a subdivision click,
/// `count` has reached it, and the division is five or more. The schedule
/// rises from 0, so its second entry is its smallest non-zero offset.
pub open spec fn level_at(sched: Seq<int>, count: int, division: nat) -> Level {
    if sched.len() < 2 {
        Level::Full
    } else if count < sched[1] || division < 5 {
        Level::Full
    } else {
        Level::Soft
    }
}

/// What is played at `count`: the waveform sample as far past the latest
/// onset as `count` is, or silence once that runs past the waveform's end.
pub open spec fn sample_at(sched: Seq<int>, count: int, division: nat, click_len: nat) -> Option<Tick> {
    let pos = count - latest_onset(sched, count);
    if pos < click_len {
        Some(Tick { index: pos as usize, level: level_at(sched, count, division) })
    } else {
        None
    }
}

/// The counter restarts at a multiple of the base length past the last click.
pub open spec fn is_reset_point(count: int, base: nat, last: int) -> bool {
    base > 0 && count % (base as int) == 0 && count > last
}

/// The counter after the reset rule is applied at `count`.
pub open spec fn after_reset(count: int, base: nat, last: int) -> int {
    if is_reset_point(count, base, last) { 0 } else { count }
}

/// The counter after one advance from `count`.
pub open spec fn advanced(count: int, base: nat, last: int) -> int {
    after_reset(count + 1, base, last)
}

/// The counter after `n` advances from `count`.
pub open spec fn count_after(count: int, base: nat, last: int, n: nat) -> int
    decreases n,
{
    if n == 0 {
        count
    } else {
        count_after(advanced(count, base, last), base, last, (n - 1) as nat)
    }
}

/// The length of a measure cycle: the first multiple of the base length
/// past the last click.
pub open spec fn cycle_len(base: nat, last: int) -> int {
    (last / (base as int) + 1) * base
}

/// The latest onset lies between 0 and `count`, and is at least every
/// offset at or before `count`.
pub proof fn lemma_latest_onset(sched: Seq<int>, count: int)
    requires
        count >= 0,
    ensures
        0 <= latest_onset(sched, count) <= count,
        forall|j: int| 0 <= j < sched.len() && sched[j] <= count ==> sched[j] <= latest_onset(sched, count),
    decreases sched.len(),
{
    if sched.len() > 0 {
        let init = sched.drop_last();
        lemma_latest_onset(init, count);
        assert forall|j: int| 0 <= j < sched.len() && sched[j] <= count implies sched[j] <= latest_onset(sched, count) by {
            if j < init.len() {
                assert(init[j] == sched[j]);
            }
        }
    }
}

/// The cycle length is the first multiple of the base length past `last`,
/// and no smaller positive multiple lies past `last`.
pub proof fn lemma_cycle(base: nat, last: int)
    requires
        base > 0,
        last >= 0,
    ensures
        cycle_len(base, last) > last,
        cycle_len(base, last) >= base,
        cycle_len(base, last) <= last + base,
        cycle_len(base, last) % (base as int) == 0,
        last < base ==> cycle_len(base, last) == base,
        forall|c: int| 0 < c < cycle_len(base, last) && #[trigger] (c % (base as int)) == 0 ==> c <= last,
{
    let b = base as int;
    let q = last / b;
    lemma_fundamental_div_mod(last, b);
    assert(0 <= last % b < b);
    assert(q >= 0) by (nonlinear_arith)
        requires last >= 0, b > 0, q == last / b;
    assert(cycle_len(base, last) == q * b + b) by (nonlinear_arith)
        requires cycle_len(base, last) == (q + 1) * b;
    lemma_mod_multiples_basic(q + 1, b);
    if last < base {
        lemma_basic_div(last, b);
        assert(q == 0);
        assert(cycle_len(base, last) == (0 + 1) * b);
    }
    assert forall|c: int| 0 < c < cycle_len(base, last) && #[trigger] (c % b) == 0 implies c <= last by {
        lemma_fundamental_div_mod(c, b);
        let j = c / b;
        assert(c == j * b);
        assert(j <= q) by (nonlinear_arith)
            requires c == j * b, c < q * b + b, b > 0;
        assert(j * b <= q * b) by (nonlinear_arith)
            requires j <= q, b > 0;
    }
}

/// One advance from inside a measure cycle moves the counter one step round
/// the cycle.
pub proof fn lemma_advanced_mod(count: int, base: nat, last: int)
    requires
        base > 0,
        last >= 0,
        0 <= count < cycle_len(base, last),
    ensures
        advanced(count, base, last) == (count + 1) % cycle_len(base, last),
{
    lemma_cycle(base, last);
    let k = cycle_len(base, last);
    if count + 1 < k {
        lemma_small_mod((count + 1) as nat, k as nat);
    } else {
        lemma_mod_self_0(k);
    }
}

/// From inside a measure cycle, the counter after `n` advances is the start
/// count plus `n`, taken round the cycle.
pub proof fn lemma_count_after_mod(count: int, base: nat, last: int, n: nat)
    requires
        base > 0,
        last >= 0,
        0 <= count < cycle_len(base, last),
    ensures
        count_after(count, base, last, n) == (count + n) % cycle_len(base, last),
    decreases n,
{
    let k = cycle_len(base, last);
    lemma_cycle(base, last);
    if n == 0 {
        lemma_small_mod(count as nat, k as nat);
    } else {
        lemma_advanced_mod(count, base, last);
        let next = advanced(count, base, last);
        lemma_fundamental_div_mod(count + 1, k);
        lemma_count_after_mod(next, base, last, (n - 1) as nat);
        lemma_add_mod_noop_right(n - 1, count + 1, k);
    }
}

/// The click generator: a sample counter that walks a fixed click schedule,
/// restarting at the end of each measure cycle. The click waveform itself
/// stays with the caller; the generator knows its length only.
pub struct Metronome {
    /// Click offsets in the measure cycle, increasing from 0.
    pub click_locations: Vec<u64>,
    pub samples_per_beat: u64,
    pub sample_count: u64,
    pub sample_rate: u32,
    /// Number of samples in the click waveform.
    pub click_len: usize,
    /// The pulse: a quarter note.
    pub divisor: u8,
    pub division: u8,
    pub swing: i16,
}

impl Metronome {
    /// The base subdivision length, which is also the reset step.
    pub open spec fn base(&self) -> nat {
        base_position(self.samples_per_beat as nat, self.divisor as nat, self.division as nat)
    }

    pub open spec fn schedule(&self) -> Seq<int> {
        as_ints(self.click_locations@)
    }

    pub open spec fn last_click(&self) -> int {
        self.schedule().last()
    }

    pub open spec fn cycle(&self) -> int {
        cycle_len(self.base(), self.last_click())
    }

    /// Everything but the counter is as construction left it.
    pub open spec fn wf_config(&self) -> bool {
        &&& self.divisor == DIVISOR
        &&& self.division > 0
        &&& self.samples_per_beat <= MAX_SAMPLES_PER_BEAT
        &&& self.schedule() == click_schedule(
            swung_position(self.base(), self.swing as int),
            self.division as nat,
        )
    }

    pub open spec fn wf(&self) -> bool {
        &&& self.wf_config()
        &&& self.base() > 0 ==> self.sample_count < self.cycle()
    }

    /// `self` is what construction gives for these arguments.
    pub open spec fn is_fresh(&self, click_len: nat, tempo: nat, sample_rate: nat, division: nat, swing: int) -> bool {
        &&& self.click_len == click_len
        &&& self.samples_per_beat == samples_per_beat(tempo, sample_rate)
        &&& self.sample_count == 0
        &&& self.sample_rate == sample_rate
        &&& self.divisor == DIVISOR
        &&& self.division == division
        &&& self.swing == swing
        &&& self.schedule() == click_schedule(swung_position(self.base(), swing), division)
    }

    /// `self` and `other` differ at most in their counters.
    pub open spec fn same_config(&self, other: &Metronome) -> bool {
        &&& self.click_locations@ == other.click_locations@
        &&& self.samples_per_beat == other.samples_per_beat
        &&& self.sample_rate == other.sample_rate
        &&& self.click_len == other.click_len
        &&& self.divisor == other.divisor
        &&& self.division == other.division
        &&& self.swing == other.swing
    }

    /// What is played when the counter reads `count`.
    pub open spec fn output(&self, count: int) -> Option<Tick> {
        sample_at(self.schedule(), count, self.division as nat, self.click_len as nat)
    }

    /// The counter after `n` advances.
    pub open spec fn count_after(&self, n: nat) -> int {
        count_after(self.sample_count as int, self.base(), self.last_click(), n)
    }

    /// Whether the advance that follows `n` advances lands on an onset.
    pub open spec fn onset_after(&self, n: nat) -> bool {
        self.schedule().contains(self.count_after(n) + 1)
    }

    /// Builds a generator for a click of `click_len` samples. A tempo of zero
    /// is rejected.
    pub fn new(click_len: usize, tempo: u64, sr: u32, division: u8, swing: i16) -> (r: Result<Metronome, ConfigError>)
        requires
            division > 0,
        ensures
            tempo == 0 <==> r is Err,
            r is Err ==> r == Err::<Metronome, ConfigError>(ConfigError::ZeroTempo),
            r is Ok ==> r->Ok_0.wf(),
            r is Ok ==> r->Ok_0.is_fresh(click_len as nat, tempo as nat, sr as nat, division as nat, swing as int),
    {
        let samples_per_beat = match tempo_to_samples(tempo, sr) {
            Ok(n) => n,
            Err(e) => return Err(e),
        };
        let base = click_position(samples_per_beat, DIVISOR, division);
        let step = click_position_swing(base, swing);
        let click_locations = click_locations(step, division);
        proof {
            if base > 0 {
                lemma_cycle(base as nat, click_locations@.last() as int);
            }
        }
        Ok(Metronome {
            click_locations,
            samples_per_beat,
            sample_count: 0,
            sample_rate: sr,
            click_len,
            divisor: DIVISOR,
            division,
            swing,
        })
    }

    /// The base subdivision length in samples.
    pub fn click_position(&self) -> (r: u64)
        requires
            self.wf_config(),
        ensures
            r == self.base(),
    {
        click_position(self.samples_per_beat, self.divisor, self.division)
    }

    /// The base length and the last click stay far below the counter's limit.
    pub proof fn lemma_bounds(&self)
        requires
            self.wf_config(),
        ensures
            self.schedule().len() == self.click_locations@.len(),
            self.schedule().len() >= 1,
            self.schedule()[0] == 0,
            self.base() <= 4 * MAX_SAMPLES_PER_BEAT,
            0 <= self.last_click() <= 1312 * self.base(),
            self.base() > 0 ==> self.base() <= self.cycle() <= self.last_click() + self.base(),
            self.base() > 0 ==> self.cycle() > self.last_click(),
    {
        let step = swung_position(self.base(), self.swing as int);
        lemma_base_bound(self.samples_per_beat as nat, self.divisor as nat, self.division as nat);
        assert(self.samples_per_beat * 4 <= 4 * MAX_SAMPLES_PER_BEAT);
        lemma_swung_bound(self.base(), self.swing as int);
        lemma_last_click_bound(step, self.division as nat);
        if self.base() > 0 {
            lemma_cycle(self.base(), self.last_click());
        }
    }

    /// Whether a click starts at the current count.
    fn should_click(&self) -> (r: bool)
        requires
            self.wf_config(),
        ensures
            r == self.schedule().contains(self.sample_count as int),
    {
        proof {
            assert(self.schedule()[0] == 0);
        }
        if self.sample_count == 0 {
            return true;
        }
        let mut i: usize = 0;
        while i < self.click_locations.len()
            invariant
                0 <= i <= self.click_locations@.len(),
                self.schedule().len() == self.click_locations@.len(),
                forall|j: int| 0 <= j < i ==> self.schedule()[j] != self.sample_count as int,
            decreases self.click_locations@.len() - i,
        {
            if self.click_locations[i] == self.sample_count {
                assert(self.schedule()[i as int] == self.sample_count as int);
                return true;
            }
            i += 1;
        }
        false
    }

    /// The level of the sample at the current count.
    pub fn amplitude(&self) -> (r: Level)
        requires
            self.wf_config(),
        ensures
            r == level_at(self.schedule(), self.sample_count as int, self.division as nat),
            self.schedule().len() < 2 || self.division < 5 ==> r == Level::Full,
    {
        if self.click_locations.len() < 2 {
            return Level::Full;
        }
        let second_click: u64 = self.click_locations[1];
        if self.sample_count < second_click || self.division < 5 {
            return Level::Full;
        }
        Level::Soft
    }

    /// The latest click offset at or before the current count.
    fn latest_click(&self) -> (r: u64)
        requires
            self.wf_config(),
        ensures
            r == latest_onset(self.schedule(), self.sample_count as int),
            r <= self.sample_count,
    {
        let mut best: u64 = 0;
        let mut i: usize = 0;
        while i < self.click_locations.len()
            invariant
                0 <= i <= self.click_locations@.len(),
                self.schedule().len() == self.click_locations@.len(),
                best == latest_onset(self.schedule().subrange(0, i as int), self.sample_count as int),
                best <= self.sample_count,
            decreases self.click_locations@.len() - i,
        {
            let v: u64 = self.click_locations[i];
            proof {
                assert(self.schedule().subrange(0, i + 1).drop_last() =~= self.schedule().subrange(0, i as int));
            }
            if v <= self.sample_count && v > best {
                best = v;
            }
            i += 1;
        }
        assert(self.schedule().subrange(0, i as int) =~= self.schedule());
        best
    }

    /// Whether the counter restarts at the current count.
    fn should_reset(&self) -> (r: bool)
        requires
            self.wf_config(),
            self.base() > 0,
        ensures
            r == is_reset_point(self.sample_count as int, self.base(), self.last_click()),
    {
        proof {
            lemma_last_click_bound(swung_position(self.base(), self.swing as int), self.division as nat);
        }
        let last_click: u64 = self.click_locations[self.click_locations.len() - 1];
        self.sample_count % self.click_position() == 0 && self.sample_count > last_click
    }

    /// Plays the sample at the current count, then applies the reset rule.
    fn emit(&mut self) -> (r: Option<Tick>)
        requires
            old(self).wf_config(),
            old(self).base() > 0,
            old(self).sample_count <= old(self).cycle(),
        ensures
            final(self).wf(),
            final(self).same_config(old(self)),
            r == old(self).output(old(self).sample_count as int),
            final(self).sample_count == after_reset(old(self).sample_count as int, old(self).base(), old(self).last_click()),
    {
        let ghost count = self.sample_count as int;
        proof {
            lemma_latest_onset(self.schedule(), count);
            lemma_cycle(self.base(), self.last_click());
        }
        let level = self.amplitude();
        let out = if self.should_click() {
            proof {
                let j = choose|j: int| 0 <= j < self.schedule().len() && self.schedule()[j] == count;
                assert(self.schedule()[j] <= count);
            }
            if self.click_len > 0 {
                Some(Tick { index: 0, level })
            } else {
                None
            }
        } else {
            let position: u64 = self.sample_count - self.latest_click();
            if position < self.click_len as u64 {
                Some(Tick { index: position as usize, level })
            } else {
                None
            }
        };
        if self.should_reset() {
            self.sample_count = 0;
        }
        out
    }

    /// Plays the sample at the current count without advancing, then
    /// restarts the counter if the count ends a measure cycle.
    pub fn next_sample(&mut self) -> (r: Option<Tick>)
        requires
            old(self).wf(),
            old(self).base() > 0,
        ensures
            final(self).wf(),
            final(self).same_config(old(self)),
            r == old(self).output(old(self).sample_count as int),
            final(self).sample_count == after_reset(old(self).sample_count as int, old(self).base(), old(self).last_click()),
            old(self).sample_count - latest_onset(old(self).schedule(), old(self).sample_count as int) >= old(self).click_len ==> r is None,
    {
        self.emit()
    }

    /// Advances the counter by one sample and plays the sample there.
    pub fn advance(&mut self) -> (r: Option<Tick>)
        requires
            old(self).wf(),
            old(self).base() > 0,
        ensures
            final(self).wf(),
            final(self).same_config(old(self)),
            r == old(self).output(old(self).sample_count + 1),
            final(self).sample_count == advanced(old(self).sample_count as int, old(self).base(), old(self).last_click()),
            old(self).sample_count + 1 - latest_onset(old(self).schedule(), old(self).sample_count + 1) >= old(self).click_len ==> r is None,
    {
        proof {
            self.lemma_bounds();
        }
        self.sample_count = self.sample_count + 1;
        self.emit()
    }
}

/// The stream repeats with the measure cycle: the counter, whether an advance
/// lands on an onset, and what it plays are the same `cycle()` advances later.
/// The cycle is a whole number of base lengths, and exactly one when every
/// click lies within the first base length.
pub proof fn lemma_onsets_periodic(m: Metronome, n: nat)
    requires
        m.wf(),
        m.base() > 0,
    ensures
        m.cycle() > 0,
        m.cycle() % (m.base() as int) == 0,
        m.last_click() < m.base() ==> m.cycle() == m.base(),
        m.count_after(n + m.cycle() as nat) == m.count_after(n),
        m.onset_after(n + m.cycle() as nat) == m.onset_after(n),
        m.output(m.count_after(n + m.cycle() as nat) + 1) == m.output(m.count_after(n) + 1),
{
    m.lemma_bounds();
    let k = m.cycle();
    lemma_cycle(m.base(), m.last_click());
    lemma_count_after_mod(m.sample_count as int, m.base(), m.last_click(), n);
    lemma_count_after_mod(m.sample_count as int, m.base(), m.last_click(), n + k as nat);
    lemma_mod_add_multiples_vanish(m.sample_count + n, k);
}

/// Two generators built from the same arguments play the same stream: after
/// any number of advances their counters agree, and so does what the next
/// advance plays.
pub proof fn lemma_fresh_generators_agree(
    a: Metronome,
    b: Metronome,
    click_len: usize,
    tempo: u64,
    sr: u32,
    division: u8,
    swing: i16,
    n: nat,
)
    requires
        a.is_fresh(click_len as nat, tempo as nat, sr as nat, division as nat, swing as int),
        b.is_fresh(click_len as nat, tempo as nat, sr as nat, division as nat, swing as int),
    ensures
        a.count_after(n) == b.count_after(n),
        a.onset_after(n) == b.onset_after(n),
        a.output(a.count_after(n) + 1) == b.output(b.count_after(n) + 1),
{
}

} // verus!
