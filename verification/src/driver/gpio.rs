//! Driver logic for a GPIO pin timed by TIMER0: the sequence of timer and
//! pin operations that sends a frame.
//!
//! The timer runs at 16 MHz, so one compare tick is 62.5 ns. Compare
//! register 0 ends the high part of a pulse, compare register 1 the whole
//! pulse.
use vstd::prelude::*;

use crate::device::GpioPort;
use crate::gpio::{drive_pin, lemma_out_last_write_wins, out_with};
use crate::{frame_bit_seq, frame_bits, Bit, Rgb};

verus! {

/// MODE register value: timer mode.
pub const TIMER_MODE_TIMER: u32 = 0;

/// BITMODE register value: 16-bit timer.
pub const TIMER_BITMODE_16: u32 = 0;

/// PRESCALER register value: 16 MHz.
pub const TIMER_PRESCALER_16MHZ: u32 = 0;

/// Compare value of the reset pause after a frame: 800 ticks, 50 us.
pub const RESET_COMPARE: u32 = 800;

/// One operation on the timer or the pin.
#[derive(Debug, Clone, Copy, PartialEq, Eq, Structural)]
pub enum TimerStep {
    /// Write `value` to compare register `channel`.
    SetCompare { channel: usize, value: u32 },
    /// Restart the timer from 0.
    Clear,
    /// Wait for compare event `channel`, then reset the event.
    Wait { channel: usize },
    /// Write `bit` to the pin through the OUT register.
    WriteGpio { bit: Bit },
}

/// The compare values for sending `bit`: the ticks the line stays high and
/// the ticks of the whole pulse. A 0 is high for 6 ticks (T0H, 375 ns) and
/// low for 11 (T0L, 687.5 ns); a 1 is high for 11 ticks (T1H, 687.5 ns) and
/// low for 10 (T1L, 625 ns).
pub open spec fn bit_compare_spec(bit: Bit) -> (u32, u32) {
    match bit {
        Bit::Low => (6, 17),
        Bit::High => (11, 21),
    }
}

/// The steps that load the compare registers for `bit`.
pub open spec fn set_bit_ccr_steps(bit: Bit) -> Seq<TimerStep> {
    seq![
        TimerStep::SetCompare { channel: 0, value: bit_compare_spec(bit).0 },
        TimerStep::SetCompare { channel: 1, value: bit_compare_spec(bit).1 },
    ]
}

/// The steps that send one bit: load the compare registers, restart the
/// timer, write High, wait for compare 0, write Low, wait for compare 1.
pub open spec fn bit_steps(bit: Bit) -> Seq<TimerStep> {
    set_bit_ccr_steps(bit) + seq![
        TimerStep::Clear,
        TimerStep::WriteGpio { bit: Bit::High },
        TimerStep::Wait { channel: 0 },
        TimerStep::WriteGpio { bit: Bit::Low },
        TimerStep::Wait { channel: 1 },
    ]
}

/// The steps of the reset pause that ends a frame: compare 0 at 800 ticks,
/// restart the timer, wait for compare 0. Compare 1 keeps the value of the
/// frame's last bit (17 or 21 ticks), and with the COMPARE1 to CLEAR
/// shortcut that `configure_timer` sets, the timer restarts before it ever
/// reaches 800: on the hardware this wait does not end.
pub open spec fn reset_steps() -> Seq<TimerStep> {
    seq![
        TimerStep::SetCompare { channel: 0, value: RESET_COMPARE },
        TimerStep::Clear,
        TimerStep::Wait { channel: 0 },
    ]
}

/// The steps that send `bits`, one bit after the other.
pub open spec fn bits_steps(bits: Seq<Bit>) -> Seq<TimerStep>
    decreases bits.len(),
{
    if bits.len() == 0 {
        Seq::empty()
    } else {
        bits_steps(bits.drop_last()) + bit_steps(bits.last())
    }
}

/// The compare values for sending `bit`: high time, then whole pulse, in
/// timer ticks.
pub fn bit_compare_values(bit: Bit) -> (values: (u32, u32))
    ensures
        values == bit_compare_spec(bit),
        values.0 < values.1,
        bit == Bit::Low ==> values == (6u32, 17u32),
        bit == Bit::High ==> values == (11u32, 21u32),
{
    match bit {
        Bit::High => (11, 21),
        Bit::Low => (6, 17),
    }
}

/// The steps that load the compare registers for `bit`.
pub fn set_bit_ccr(bit: Bit) -> (steps: Vec<TimerStep>)
    ensures
        steps@ == set_bit_ccr_steps(bit),
{
    let (high, period) = bit_compare_values(bit);
    let steps = vec![
        TimerStep::SetCompare { channel: 0, value: high },
        TimerStep::SetCompare { channel: 1, value: period },
    ];
    assert(steps@ =~= set_bit_ccr_steps(bit));
    steps
}

/// The steps of the reset pause (see `reset_steps`): compare 0 at 800
/// ticks, restart the timer, wait for compare 0.
pub fn reset_sequence() -> (steps: Vec<TimerStep>)
    ensures
        steps@ == reset_steps(),
{
    let steps = vec![
        TimerStep::SetCompare { channel: 0, value: RESET_COMPARE },
        TimerStep::Clear,
        TimerStep::Wait { channel: 0 },
    ];
    assert(steps@ =~= reset_steps());
    steps
}

/// A driver for pin `gpio_pin` of port number `gpio_port`.
pub struct Driver {
    gpio_port: u8,
    gpio_pin: u8,
}

impl Driver {
    /// The port number the driver was made with.
    pub closed spec fn port_number(self) -> u8 {
        self.gpio_port
    }

    /// The pin number the driver was made with.
    pub closed spec fn pin(self) -> u8 {
        self.gpio_pin
    }

    /// A driver for pin `gpio_pin` of port `gpio_port`; neither is checked
    /// here.
    pub fn new(gpio_port: u8, gpio_pin: u8) -> (driver: Self)
        ensures
            driver.port_number() == gpio_port,
            driver.pin() == gpio_pin,
    {
        Self { gpio_port, gpio_pin }
    }

    /// The port number the driver was made with.
    pub fn gpio_port(&self) -> (port: u8)
        ensures
            port == self.port_number(),
    {
        self.gpio_port
    }

    /// The pin number the driver was made with.
    pub fn gpio_pin(&self) -> (pin: u8)
        ensures
            pin == self.pin(),
    {
        self.gpio_pin
    }

    /// The driver's port: P0 for number 0, P1 for number 1, none for any
    /// other number, which the driver does not support.
    pub fn out_port(&self) -> (port: Option<GpioPort>)
        ensures
            port == (if self.port_number() == 0 {
                Some(GpioPort::P0)
            } else if self.port_number() == 1 {
                Some(GpioPort::P1)
            } else {
                None
            }),
    {
        match self.gpio_port {
            0 => Some(GpioPort::P0),
            1 => Some(GpioPort::P1),
            _ => None,
        }
    }

    /// The OUT register value after writing `bit` to the pin: the pin's bit
    /// becomes the level, every other bit stays.
    pub fn write_gpio(&self, current: u32, bit: Bit) -> (value: u32)
        requires
            self.pin() < 32,
        ensures
            value == out_with(current, self.pin(), bit),
            (value >> self.pin()) & 1 == bit.value(),
            forall|k: u32| k < 32 && k != self.pin() ==> #[trigger] ((value >> k) & 1) == (current >> k) & 1,
    {
        drive_pin(current, self.gpio_pin, bit)
    }

    /// The steps that send one bit.
    pub fn write_bit(&self, bit: Bit) -> (steps: Vec<TimerStep>)
        ensures
            steps@ == bit_steps(bit),
            steps@.take(2) == seq![
                TimerStep::SetCompare {
                    channel: 0,
                    value: if bit == Bit::Low { 6u32 } else { 11u32 },
                },
                TimerStep::SetCompare {
                    channel: 1,
                    value: if bit == Bit::Low { 17u32 } else { 21u32 },
                },
            ],
    {
        let mut steps = set_bit_ccr(bit);
        steps.push(TimerStep::Clear);
        steps.push(TimerStep::WriteGpio { bit: Bit::High });
        steps.push(TimerStep::Wait { channel: 0 });
        steps.push(TimerStep::WriteGpio { bit: Bit::Low });
        steps.push(TimerStep::Wait { channel: 1 });
        assert(steps@ =~= bit_steps(bit));
        steps
    }

    /// The steps that send `pixels`: every bit of the frame, then the reset
    /// pause.
    pub fn write(&self, pixels: &[Rgb]) -> (steps: Vec<TimerStep>)
        ensures
            steps@ == bits_steps(frame_bit_seq(pixels@)) + reset_steps(),
    {
        let bits = frame_bits(pixels);
        let mut steps: Vec<TimerStep> = Vec::new();
        let mut k: usize = 0;
        while k < bits.len()
            invariant
                k <= bits@.len(),
                steps@ == bits_steps(bits@.subrange(0, k as int)),
            decreases bits@.len() - k,
        {
            let mut more = self.write_bit(bits[k]);
            steps.append(&mut more);
            proof {
                let next = bits@.subrange(0, k + 1);
                assert(next.drop_last() =~= bits@.subrange(0, k as int));
            }
            k = k + 1;
        }
        assert(bits@.subrange(0, bits@.len() as int) =~= bits@);
        let mut tail = reset_sequence();
        steps.append(&mut tail);
        steps
    }
}

/// The OUT register value after the pin writes of `steps`, from `current`.
pub open spec fn out_after(current: u32, pin: u8, steps: Seq<TimerStep>) -> u32
    decreases steps.len(),
{
    if steps.len() == 0 {
        current
    } else {
        let before = out_after(current, pin, steps.drop_last());
        match steps.last() {
            TimerStep::WriteGpio { bit } => out_with(before, pin, bit),
            _ => before,
        }
    }
}

/// Sending a bit is seven steps: compare 0 gets the high time and compare 1
/// the whole pulse, a smaller value first (6 then 17 ticks for a 0, 11 then
/// 21 for a 1, at 62.5 ns per tick), then restart the timer, drive the pin
/// high, wait for compare 0, drive it low, wait for compare 1.
pub proof fn lemma_bit_steps_shape(bit: Bit)
    ensures
        bit_steps(bit).len() == 7,
        bit_steps(bit)[0] == (TimerStep::SetCompare {
            channel: 0,
            value: if bit == Bit::Low { 6u32 } else { 11u32 },
        }),
        bit_steps(bit)[1] == (TimerStep::SetCompare {
            channel: 1,
            value: if bit == Bit::Low { 17u32 } else { 21u32 },
        }),
        bit_steps(bit)[2] == TimerStep::Clear,
        bit_steps(bit)[3] == (TimerStep::WriteGpio { bit: Bit::High }),
        bit_steps(bit)[4] == (TimerStep::Wait { channel: 0 }),
        bit_steps(bit)[5] == (TimerStep::WriteGpio { bit: Bit::Low }),
        bit_steps(bit)[6] == (TimerStep::Wait { channel: 1 }),
        forall|h: u32, p: u32|
            bit_steps(bit)[0] == (TimerStep::SetCompare { channel: 0, value: h }) && bit_steps(
                bit,
            )[1] == (TimerStep::SetCompare { channel: 1, value: p }) ==> h < p,
{
}

/// The reset pause is three steps: compare 0 at 800 ticks (50 us), restart
/// the timer, wait for compare 0.
pub proof fn lemma_reset_steps_shape()
    ensures
        reset_steps() == seq![
            TimerStep::SetCompare { channel: 0, value: 800u32 },
            TimerStep::Clear,
            TimerStep::Wait { channel: 0 },
        ],
{
}

/// While a bit waits for compare 0 the line is high, and from compare 0 on,
/// through the wait for compare 1 and after it, the line is low; the other
/// pins keep their levels.
pub proof fn lemma_bit_steps_pulse(current: u32, pin: u8, bit: Bit)
    requires
        pin < 32,
    ensures
        bit_steps(bit)[4] == (TimerStep::Wait { channel: 0 }),
        bit_steps(bit)[6] == (TimerStep::Wait { channel: 1 }),
        out_after(current, pin, bit_steps(bit).take(4)) == out_with(current, pin, Bit::High),
        out_after(current, pin, bit_steps(bit).take(6)) == out_with(current, pin, Bit::Low),
        out_after(current, pin, bit_steps(bit)) == out_with(current, pin, Bit::Low),
{
    let st = bit_steps(bit);
    reveal_with_fuel(out_after, 8);
    assert(st.take(4).drop_last() =~= st.take(3));
    assert(st.take(3).drop_last() =~= st.take(2));
    assert(st.take(2).drop_last() =~= st.take(1));
    assert(st.take(1).drop_last() =~= st.take(0));
    assert(st.take(6).drop_last() =~= st.take(5));
    assert(st.take(5).drop_last() =~= st.take(4));
    assert(st.drop_last() =~= st.take(6));
    lemma_out_last_write_wins(current, pin, Bit::High, Bit::Low);
}

/// Sending `n` bits takes `7 n` steps, and steps `7 k` to `7 k + 6` send
/// bit `k`.
pub proof fn lemma_bits_steps_layout(bits: Seq<Bit>)
    ensures
        bits_steps(bits).len() == 7 * bits.len(),
        forall|k: int, s: int|
            0 <= k < bits.len() && 0 <= s < 7 ==> #[trigger] bits_steps(bits)[7 * k + s] == bit_steps(
                #[trigger] bits[k],
            )[s],
    decreases bits.len(),
{
    if bits.len() > 0 {
        let init = bits.drop_last();
        lemma_bits_steps_layout(init);
        assert forall|k: int, s: int| 0 <= k < bits.len() && 0 <= s < 7 implies #[trigger] bits_steps(
            bits,
        )[7 * k + s] == bit_steps(#[trigger] bits[k])[s] by {
            if k < init.len() {
                assert(init[k] == bits[k]);
            }
        }
    }
}

} // verus!
