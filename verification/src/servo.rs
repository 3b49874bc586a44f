use vstd::prelude::*;

verus! {

/// Whether the valve is open or closed.
#[derive(Clone, Copy, PartialEq, Eq, Debug, Structural)]
pub enum ServoState {
    Open,
    Close,
}

/// One step of driving a servo: set the PWM duty cycle (in percent), or wait
/// the given number of milliseconds.
#[derive(Clone, Copy, PartialEq, Eq, Debug, Structural)]
pub enum ServoStep {
    SetDuty(u8),
    WaitMs(u32),
}

/// Duty cycle (percent) that turns a continuous-rotation servo clockwise.
pub const PCT_CW: u8 = 5;

/// Duty cycle (percent) that turns a continuous-rotation servo counter-clockwise.
pub const PCT_CCW: u8 = 10;

/// A continuous-rotation servo that opens or closes the valve by turning for
/// a fixed time. The PWM channel stays with the caller, which performs the
/// steps.
pub struct Servo360 {
    puls_ms: u32,
}

impl Servo360 {
    /// A servo that turns for `rotation_time_ms` to open or close; the caller
    /// stops it (duty `stop()`) when setting it up.
    pub fn new(rotation_time_ms: u32) -> (r: Self)
        ensures
            r.pulse_ms() == rotation_time_ms,
    {
        Servo360 { puls_ms: rotation_time_ms }
    }

    pub closed spec fn pulse_ms(&self) -> u32 {
        self.puls_ms
    }

    /// The duty that stops the servo.
    pub fn stop(&self) -> (d: u8)
        ensures
            d == 0,
    {
        0
    }

    /// The duty that turns the servo clockwise.
    pub fn spin_cw(&self) -> (d: u8)
        ensures
            d == PCT_CW,
    {
        PCT_CW
    }

    /// The duty that turns the servo counter-clockwise.
    pub fn spin_ccw(&self) -> (d: u8)
        ensures
            d == PCT_CCW,
    {
        PCT_CCW
    }

    /// Opening: turn counter-clockwise for the rotation time, then stop.
    pub fn open(&self) -> (steps: Vec<ServoStep>)
        ensures
            steps@ == seq![ServoStep::SetDuty(PCT_CCW), ServoStep::WaitMs(self.pulse_ms()), ServoStep::SetDuty(0)],
    {
        let steps = vec![ServoStep::SetDuty(self.spin_ccw()), ServoStep::WaitMs(self.puls_ms), ServoStep::SetDuty(self.stop())];
        proof {
            assert(steps@ =~= seq![ServoStep::SetDuty(PCT_CCW), ServoStep::WaitMs(self.pulse_ms()), ServoStep::SetDuty(0)]);
        }
        steps
    }

    /// Closing: turn clockwise for the rotation time, then stop.
    pub fn close(&self) -> (steps: Vec<ServoStep>)
        ensures
            steps@ == seq![ServoStep::SetDuty(PCT_CW), ServoStep::WaitMs(self.pulse_ms()), ServoStep::SetDuty(0)],
    {
        let steps = vec![ServoStep::SetDuty(self.spin_cw()), ServoStep::WaitMs(self.puls_ms), ServoStep::SetDuty(self.stop())];
        proof {
            assert(steps@ =~= seq![ServoStep::SetDuty(PCT_CW), ServoStep::WaitMs(self.pulse_ms()), ServoStep::SetDuty(0)]);
        }
        steps
    }
}

/// A positional (180 degree) servo that opens the valve at 180 degrees and
/// closes it at 0. The PWM channel stays with the caller.
pub struct Servo180 {
    travel_time_ms: u32,
    duty_0_deg: u8,
    duty_180_deg: u8,
}

/// The duty for an angle: the angle is capped at 180 degrees and mapped
/// linearly (rounded down) from the 0-degree duty to the 180-degree one; when
/// the latter is the smaller, every angle gets the 0-degree duty.
pub open spec fn duty_for_angle(duty_0: u8, duty_180: u8, angle_deg: u8) -> u8 {
    let angle: nat = if angle_deg <= 180 {
        angle_deg as nat
    } else {
        180
    };
    let range: nat = if duty_180 >= duty_0 {
        (duty_180 - duty_0) as nat
    } else {
        0
    };
    (duty_0 + range * angle / 180) as u8
}

impl Servo180 {
    /// A servo with 5 % duty at 0 degrees and 10 % at 180 degrees, taking
    /// `travel_time_ms` to travel; the caller sets it to 0 degrees (duty
    /// `set_angle(0)`) when setting it up.
    pub fn new(travel_time_ms: u32) -> (r: Self)
        ensures
            r.travel_ms() == travel_time_ms,
            r.duty_0() == 5,
            r.duty_180() == 10,
    {
        Servo180 { travel_time_ms, duty_0_deg: 5, duty_180_deg: 10 }
    }

    pub closed spec fn travel_ms(&self) -> u32 {
        self.travel_time_ms
    }

    pub closed spec fn duty_0(&self) -> u8 {
        self.duty_0_deg
    }

    pub closed spec fn duty_180(&self) -> u8 {
        self.duty_180_deg
    }

    /// The duty that moves the servo to `angle_deg` (capped at 180).
    pub fn set_angle(&self, angle_deg: u8) -> (d: u8)
        ensures
            d == duty_for_angle(self.duty_0(), self.duty_180(), angle_deg),
    {
        let angle: u8 = if angle_deg < 180 {
            angle_deg
        } else {
            180
        };
        let range: u32 = if self.duty_180_deg >= self.duty_0_deg {
            (self.duty_180_deg - self.duty_0_deg) as u32
        } else {
            0
        };
        assert(range * angle as u32 / 180 <= range) by (nonlinear_arith)
            requires
                angle <= 180,
        ;
        assert(range * angle as u32 <= 255 * 180) by (nonlinear_arith)
            requires
                angle <= 180,
                range <= 255,
        ;
        let duty = self.duty_0_deg as u32 + (range * angle as u32) / 180;
        duty as u8
    }

    /// The angle to start at, given the valve state kept in flash: 180
    /// degrees (open) for an open valve, 0 (closed) otherwise.
    pub fn start_angle(state: ServoState) -> (angle: u8)
        ensures
            angle == (match state {
                ServoState::Open => 180u8,
                ServoState::Close => 0u8,
            }),
    {
        match state {
            ServoState::Open => 180,
            ServoState::Close => 0,
        }
    }

    /// The duty that switches the PWM output off.
    pub fn disable(&self) -> (d: u8)
        ensures
            d == 0,
    {
        0
    }

    /// Opening: go to 180 degrees and wait for the travel time.
    pub fn open(&self) -> (steps: Vec<ServoStep>)
        ensures
            steps@ == seq![
                ServoStep::SetDuty(duty_for_angle(self.duty_0(), self.duty_180(), 180)),
                ServoStep::WaitMs(self.travel_ms()),
            ],
    {
        let steps = vec![ServoStep::SetDuty(self.set_angle(180)), ServoStep::WaitMs(self.travel_time_ms)];
        proof {
            assert(steps@ =~= seq![
                ServoStep::SetDuty(duty_for_angle(self.duty_0(), self.duty_180(), 180)),
                ServoStep::WaitMs(self.travel_ms()),
            ]);
        }
        steps
    }

    /// Closing: go to 0 degrees and wait for the travel time.
    pub fn close(&self) -> (steps: Vec<ServoStep>)
        ensures
            steps@ == seq![
                ServoStep::SetDuty(duty_for_angle(self.duty_0(), self.duty_180(), 0)),
                ServoStep::WaitMs(self.travel_ms()),
            ],
    {
        let steps = vec![ServoStep::SetDuty(self.set_angle(0)), ServoStep::WaitMs(self.travel_time_ms)];
        proof {
            assert(steps@ =~= seq![
                ServoStep::SetDuty(duty_for_angle(self.duty_0(), self.duty_180(), 0)),
                ServoStep::WaitMs(self.travel_ms()),
            ]);
        }
        steps
    }
}

/// With the default calibration, 0 degrees gives 5 %, 180 degrees (and any
/// larger angle) 10 %, and larger angles never give a smaller duty.
pub proof fn law_servo180_duty_range(a: u8, b: u8)
    requires
        a <= b,
    ensures
        duty_for_angle(5, 10, 0) == 5,
        duty_for_angle(5, 10, 180) == 10,
        b >= 180 ==> duty_for_angle(5, 10, b) == 10,
        duty_for_angle(5, 10, a) <= duty_for_angle(5, 10, b),
        5 <= duty_for_angle(5, 10, a) <= 10,
{
    let aa: nat = if a <= 180 { a as nat } else { 180 };
    let bb: nat = if b <= 180 { b as nat } else { 180 };
    assert(5 * aa / 180 <= 5 * bb / 180) by (nonlinear_arith)
        requires
            aa <= bb,
    {
        vstd::arithmetic::div_mod::lemma_div_is_ordered((5 * aa) as int, (5 * bb) as int, 180);
    }
    assert(5 * aa / 180 <= 5) by (nonlinear_arith)
        requires
            aa <= 180,
    ;
}

} // verus!
