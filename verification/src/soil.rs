use vstd::prelude::*;
use vstd::relations::*;

verus! {

/// Whether the soil is dry or wet.
#[derive(Clone, Copy, PartialEq, Eq, Debug, Structural)]
pub enum State {
    Dry,
    Wet,
}

/// The soil sensor's calibration and debouncing state. The ADC itself stays
/// with the caller, which hands the readings in.
pub struct SoilSensor {
    dry_value: u16,
    wet_value: u16,
    state: State,
    consecutive_reads: u8,
}

/// What a `SoilSensor` holds.
pub struct SensorView {
    pub dry_value: u16,
    pub wet_value: u16,
    pub state: State,
    pub consecutive_reads: nat,
}

impl View for SoilSensor {
    type V = SensorView;

    closed spec fn view(&self) -> SensorView {
        SensorView {
            dry_value: self.dry_value,
            wet_value: self.wet_value,
            state: self.state,
            consecutive_reads: self.consecutive_reads as nat,
        }
    }
}

/// Moisture in percent for a raw reading: 0 at or above the dry reading, 100
/// at or below the wet one, linear in between (rounded down).
pub open spec fn moisture_percent(dry: u16, wet: u16, raw: u16) -> u8 {
    if raw >= dry {
        0
    } else if raw <= wet {
        100
    } else {
        (((dry - raw) as nat * 100) / ((dry - wet) as nat)) as u8
    }
}

/// The state a humidity reading points to: dry at 30 % or less.
pub open spec fn target_state(humidity: u8) -> State {
    if humidity <= 30 {
        State::Dry
    } else {
        State::Wet
    }
}

/// The debounced state machine: the state follows the readings only after
/// three consecutive readings that point the other way; a reading that agrees
/// with the state clears the count.
pub open spec fn sensor_step(s: SensorView, humidity: u8) -> SensorView {
    let target = target_state(humidity);
    if target != s.state {
        if s.consecutive_reads + 1 >= 3 {
            SensorView { state: target, consecutive_reads: 0, ..s }
        } else {
            SensorView { consecutive_reads: s.consecutive_reads + 1, ..s }
        }
    } else {
        SensorView { consecutive_reads: 0, ..s }
    }
}

/// The order the samples are sorted by.
pub open spec fn u16_le(a: u16, b: u16) -> bool {
    a <= b
}

/// The samples in increasing order.
pub open spec fn sorted_samples(samples: Seq<u16>) -> Seq<u16> {
    samples.sort_by(|a: u16, b: u16| u16_le(a, b))
}

/// Increasing order.
pub open spec fn is_sorted(s: Seq<u16>) -> bool {
    forall|i: int, j: int| 0 <= i <= j < s.len() ==> s[i] <= s[j]
}

/// The mean (rounded down) of the six middle values of ten sorted samples.
pub open spec fn middle_mean(sorted: Seq<u16>) -> u16 {
    ((sorted[2] + sorted[3] + sorted[4] + sorted[5] + sorted[6] + sorted[7]) / 6) as u16
}

/// `slice::sort_unstable`: sorts in increasing order, keeping every element
/// (as its documentation says); that is all this contract claims.
#[verifier::external_body]
fn sort_samples(samples: &mut [u16; 10])
    ensures
        is_sorted(final(samples)@),
        final(samples)@.to_multiset() == old(samples)@.to_multiset(),
{
    samples.sort_unstable();
}

/// Two sorted sequences with the same elements are equal.
pub proof fn lemma_sorted_unique(a: Seq<u16>, b: Seq<u16>)
    requires
        is_sorted(a),
        is_sorted(b),
        a.to_multiset() == b.to_multiset(),
    ensures
        a == b,
    decreases a.len(),
{
    vstd::seq_lib::to_multiset_len(a);
    vstd::seq_lib::to_multiset_len(b);
    if a.len() == 0 {
        assert(a =~= b);
    } else {
        assert(a.contains(a[0]));
        vstd::seq_lib::to_multiset_contains(a, a[0]);
        vstd::seq_lib::to_multiset_contains(b, a[0]);
        vstd::seq_lib::to_multiset_contains(a, b[0]);
        vstd::seq_lib::to_multiset_contains(b, b[0]);
        vstd::seq_lib::to_multiset_remove(a, 0);
        vstd::seq_lib::to_multiset_remove(b, 0);
        assert(a.to_multiset().count(a[0]) > 0);
        assert(b.contains(a[0]));
        let j = choose|j: int| 0 <= j < b.len() && b[j] == a[0];
        assert(b[0] <= b[j]);
        assert(b.contains(b[0]));
        assert(b.to_multiset().count(b[0]) > 0);
        assert(a.contains(b[0]));
        let k = choose|k: int| 0 <= k < a.len() && a[k] == b[0];
        assert(a[0] <= a[k]);
        assert(a[0] == b[0]);
        assert(a.remove(0) =~= a.drop_first());
        assert(b.remove(0) =~= b.drop_first());
        assert(a.remove(0).to_multiset() == a.to_multiset().remove(a[0]));
        assert(b.remove(0).to_multiset() == b.to_multiset().remove(b[0]));
        lemma_sorted_unique(a.drop_first(), b.drop_first());
        assert forall|i: int| 0 <= i < a.len() implies a[i] == b[i] by {
            if i > 0 {
                assert(a[i] == a.drop_first()[i - 1]);
                assert(b[i] == b.drop_first()[i - 1]);
            }
        }
        assert(a =~= b);
    }
}

/// The sorted order of the samples is the one `sort_by` describes.
pub proof fn lemma_sorted_samples(samples: Seq<u16>, sorted: Seq<u16>)
    requires
        is_sorted(sorted),
        sorted.to_multiset() == samples.to_multiset(),
    ensures
        sorted == sorted_samples(samples),
{
    let leq = |a: u16, b: u16| u16_le(a, b);
    assert(total_ordering(leq)) by {
        reveal(reflexive);
        reveal(antisymmetric);
        reveal(transitive);
        reveal(strongly_connected);
    }
    samples.lemma_sort_by_ensures(leq);
    let t = samples.sort_by(leq);
    assert(is_sorted(t)) by {
        assert forall|i: int, j: int| 0 <= i <= j < t.len() implies t[i] <= t[j] by {
            if i < j {
                assert(leq(t[i], t[j]));
            }
        }
    }
    lemma_sorted_unique(sorted, t);
}

impl SoilSensor {
    #[verifier::type_invariant]
    spec fn inv(self) -> bool {
        self.consecutive_reads < 3
    }

    /// A sensor with the default calibration (dry 3000, wet 2000) that starts
    /// out wet.
    pub fn new() -> (r: Self)
        ensures
            r@ == (SensorView { dry_value: 3000, wet_value: 2000, state: State::Wet, consecutive_reads: 0 }),
    {
        SoilSensor { dry_value: 3000, wet_value: 2000, state: State::Wet, consecutive_reads: 0 }
    }

    /// The filtered value of ten raw samples: the mean of the six middle ones
    /// once sorted, which drops the two lowest and the two highest.
    pub fn read_raw_filtered(samples: [u16; 10]) -> (r: u16)
        ensures
            r == middle_mean(sorted_samples(samples@)),
    {
        let mut sorted = samples;
        sort_samples(&mut sorted);
        proof {
            lemma_sorted_samples(samples@, sorted@);
        }
        let mut sum: u32 = 0;
        let mut i: usize = 2;
        while i < 8
            invariant
                2 <= i <= 8,
                sorted@.len() == 10,
                sum == (if i > 2 { sorted@[2] as int } else { 0 }) + (if i > 3 { sorted@[3] as int } else { 0 })
                    + (if i > 4 { sorted@[4] as int } else { 0 }) + (if i > 5 { sorted@[5] as int } else { 0 })
                    + (if i > 6 { sorted@[6] as int } else { 0 }) + (if i > 7 { sorted@[7] as int } else { 0 }),
            decreases 8 - i,
        {
            sum = sum + sorted[i] as u32;
            i = i + 1;
        }
        (sum / 6) as u16
    }

    /// Moisture in percent for a (filtered) raw reading.
    pub fn read_percentage(&self, raw: u16) -> (r: u8)
        ensures
            r == moisture_percent(self@.dry_value, self@.wet_value, raw),
            r <= 100,
    {
        if raw >= self.dry_value {
            return 0;
        }
        if raw <= self.wet_value {
            return 100;
        }
        let range = (self.dry_value - self.wet_value) as u32;
        let value = (self.dry_value - raw) as u32;
        assert((value * 100) as int / (range as int) <= 100) by (nonlinear_arith)
            requires
                value < range,
                range > 0,
        ;
        ((value * 100) / range) as u8
    }

    /// Sets the raw readings of fully dry and fully wet soil.
    pub fn calibrate(&mut self, dry: u16, wet: u16)
        ensures
            final(self)@ == (SensorView { dry_value: dry, wet_value: wet, ..old(self)@ }),
    {
        proof {
            use_type_invariant(&*self);
        }
        self.dry_value = dry;
        self.wet_value = wet;
    }

    /// Takes a humidity reading into account and returns the (debounced)
    /// state.
    pub fn check_state(&mut self, humidity: u8) -> (r: State)
        ensures
            final(self)@ == sensor_step(old(self)@, humidity),
            r == final(self)@.state,
    {
        proof {
            use_type_invariant(&*self);
        }
        let target_state = if humidity <= 30 {
            State::Dry
        } else {
            State::Wet
        };
        if target_state != self.state {
            if self.consecutive_reads + 1 >= 3 {
                self.state = target_state;
                self.consecutive_reads = 0;
            } else {
                self.consecutive_reads = self.consecutive_reads + 1;
            }
        } else {
            self.consecutive_reads = 0;
        }
        self.state
    }

    /// The state as debounced so far.
    pub fn state(&self) -> (r: State)
        ensures
            r == self@.state,
    {
        self.state
    }
}


/// From a settled sensor, the state flips on the third consecutive reading
/// that points the other way, and not before.
pub proof fn law_state_flips_on_third_reading(s: SensorView, h1: u8, h2: u8, h3: u8)
    requires
        s.consecutive_reads == 0,
        target_state(h1) != s.state,
        target_state(h2) != s.state,
        target_state(h3) != s.state,
    ensures
        sensor_step(s, h1).state == s.state,
        sensor_step(sensor_step(s, h1), h2).state == s.state,
        sensor_step(sensor_step(sensor_step(s, h1), h2), h3).state == target_state(h3),
        sensor_step(sensor_step(sensor_step(s, h1), h2), h3).consecutive_reads == 0,
{
}

/// The state only ever changes on a reading that points the other way and
/// follows two such readings.
pub proof fn law_state_changes_only_after_three(s: SensorView, h: u8)
    requires
        s.consecutive_reads < 3,
    ensures
        sensor_step(s, h).state != s.state ==> target_state(h) != s.state && s.consecutive_reads == 2,
        sensor_step(s, h).consecutive_reads < 3,
{
}

/// A reading that agrees with the state keeps it and clears the count.
pub proof fn law_agreeing_reading_resets(s: SensorView, h: u8)
    requires
        target_state(h) == s.state,
    ensures
        sensor_step(s, h) == (SensorView { consecutive_reads: 0, ..s }),
{
}

/// A reading points to dry soil exactly when the humidity is 30 % or less:
/// above 30 % a wet sensor stays wet and a dry one counts toward wet (turning
/// wet on the third such reading); at 30 % or less a dry sensor stays dry and
/// a wet one counts toward dry.
pub proof fn law_dry_at_thirty_or_less(s: SensorView, h: u8)
    requires
        s.consecutive_reads < 3,
    ensures
        h > 30 && s.state == State::Wet ==> sensor_step(s, h) == (SensorView { consecutive_reads: 0, ..s }),
        h <= 30 && s.state == State::Dry ==> sensor_step(s, h) == (SensorView { consecutive_reads: 0, ..s }),
        h > 30 && s.state == State::Dry ==> sensor_step(s, h) == (if s.consecutive_reads == 2 {
            SensorView { state: State::Wet, consecutive_reads: 0, ..s }
        } else {
            SensorView { consecutive_reads: s.consecutive_reads + 1, ..s }
        }),
        h <= 30 && s.state == State::Wet ==> sensor_step(s, h) == (if s.consecutive_reads == 2 {
            SensorView { state: State::Dry, consecutive_reads: 0, ..s }
        } else {
            SensorView { consecutive_reads: s.consecutive_reads + 1, ..s }
        }),
{
}

/// Moisture is at most 100 % and never rises as the raw reading rises
/// (drier soil reads higher).
pub proof fn law_moisture_monotonic(dry: u16, wet: u16, raw1: u16, raw2: u16)
    requires
        raw1 <= raw2,
    ensures
        moisture_percent(dry, wet, raw1) >= moisture_percent(dry, wet, raw2),
        moisture_percent(dry, wet, raw1) <= 100,
{
    if wet < raw1 && raw2 < dry {
        let range = (dry - wet) as nat;
        let x = (dry - raw2) as nat * 100;
        let y = (dry - raw1) as nat * 100;
        assert(x <= y) by (nonlinear_arith)
            requires
                x == (dry - raw2) as nat * 100,
                y == (dry - raw1) as nat * 100,
                raw1 <= raw2 < dry,
        ;
        vstd::arithmetic::div_mod::lemma_div_is_ordered(x as int, y as int, range as int);
    }
    if wet < raw1 < dry {
        assert(((dry - raw1) as nat * 100) / ((dry - wet) as nat) <= 100) by (nonlinear_arith)
            requires
                wet < raw1 < dry,
        ;
    }
    if wet < raw2 < dry {
        assert(((dry - raw2) as nat * 100) / ((dry - wet) as nat) <= 100) by (nonlinear_arith)
            requires
                wet < raw2 < dry,
        ;
    }
}

} // verus!
