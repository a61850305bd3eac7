//! Driver logic for bit-banging a GPIO pin: which level each pulse sets on
//! the pin, how long each pulse lasts, and in which order the bits go out.
use vstd::prelude::*;

use crate::device::{gpio_out_address, out_register_address, valid_gpio, GpioPort};
use crate::{frame_bit_seq, frame_bits, Bit, Configuration, Rgb};

verus! {

/// How long, in microseconds, the line stays low after a frame so that the
/// LEDs latch it.
pub const RESET_DELAY_US: u32 = 50;

/// The OUT register value after driving pin `pin` to `bit`: that pin's bit
/// becomes the level, every other bit stays.
pub open spec fn out_with(current: u32, pin: u8, bit: Bit) -> u32 {
    (current & !(1u32 << pin)) | ((bit.value() as u32) << pin)
}

/// Busy-wait lengths, in `nop` instructions, of the high and the low part of
/// the pulse that sends `bit`: a 0 is a short high pulse (T0H, 375 ns) and a
/// long low one (T0L, 687.5 ns), a 1 a long high pulse (T1H, 687.5 ns) and a
/// shorter low one (T1L, 625 ns).
pub open spec fn pulse_nops_spec(bit: Bit) -> (u32, u32) {
    match bit {
        Bit::Low => (24, 44),
        Bit::High => (44, 40),
    }
}

/// The OUT register value after driving pin `pin` to `bit`, from `current`:
/// the pin's bit becomes the level, every other bit stays.
pub fn drive_pin(current: u32, pin: u8, bit: Bit) -> (value: u32)
    requires
        pin < 32,
    ensures
        value == out_with(current, pin, bit),
        (value >> pin) & 1 == bit.value(),
        forall|k: u32| k < 32 && k != pin ==> #[trigger] ((value >> k) & 1) == (current >> k) & 1,
{
    let level: u32 = bit.level() as u32;
    let value = current & !(1u32 << pin) | (level << pin);
    assert((value >> pin) & 1 == level) by (bit_vector)
        requires
            value == current & !(1u32 << pin) | (level << pin),
            pin < 32,
            level <= 1,
    ;
    assert forall|k: u32| k < 32 && k != pin implies #[trigger] ((value >> k) & 1) == (current >> k)
        & 1 by {
        assert((value >> k) & 1 == (current >> k) & 1) by (bit_vector)
            requires
                value == current & !(1u32 << pin) | (level << pin),
                pin < 32,
                level <= 1,
                k < 32,
                k != pin,
        ;
    }
    value
}

/// One operation of a bit-banging pulse.
#[derive(Debug, Clone, Copy, PartialEq, Eq, Structural)]
pub enum PulseStep {
    /// Drive the pin to `bit` through the OUT register.
    Drive { bit: Bit },
    /// Busy-wait for `nops` `nop` instructions.
    Spin { nops: u32 },
}

/// The pulse that sends `bit`: drive the pin high, wait the high time, drive
/// it low, wait the low time.
pub open spec fn pulse_steps(bit: Bit) -> Seq<PulseStep> {
    seq![
        PulseStep::Drive { bit: Bit::High },
        PulseStep::Spin { nops: pulse_nops_spec(bit).0 },
        PulseStep::Drive { bit: Bit::Low },
        PulseStep::Spin { nops: pulse_nops_spec(bit).1 },
    ]
}

/// The OUT register value after the pin writes of `steps`, from `current`.
pub open spec fn out_after_pulse(current: u32, pin: u8, steps: Seq<PulseStep>) -> u32
    decreases steps.len(),
{
    if steps.len() == 0 {
        current
    } else {
        let before = out_after_pulse(current, pin, steps.drop_last());
        match steps.last() {
            PulseStep::Drive { bit } => out_with(before, pin, bit),
            PulseStep::Spin { .. } => before,
        }
    }
}

/// A bit-banging driver: the pin it drives.
pub struct Driver {
    gpio_pin: u8,
    gpio_port: GpioPort,
}

impl Driver {
    #[verifier::type_invariant]
    spec fn pin_exists(self) -> bool {
        valid_gpio(self.gpio_port, self.gpio_pin)
    }

    /// The pin the driver drives.
    pub closed spec fn pin(self) -> u8 {
        self.gpio_pin
    }

    /// The port of the pin the driver drives.
    pub closed spec fn port(self) -> GpioPort {
        self.gpio_port
    }

    /// A driver for the pin of `cfg`, which must exist.
    pub fn new(cfg: Configuration) -> (driver: Self)
        requires
            valid_gpio(cfg.gpio_port, cfg.gpio_pin),
        ensures
            driver.pin() == cfg.gpio_pin,
            driver.port() == cfg.gpio_port,
    {
        Self { gpio_pin: cfg.gpio_pin, gpio_port: cfg.gpio_port }
    }

    /// The address of the OUT register that the driver writes.
    pub fn out_address(&self) -> (addr: u32)
        ensures
            addr == out_register_address(self.port()),
    {
        gpio_out_address(self.gpio_port)
    }

    /// The OUT register value after driving the driver's pin to `bit`, from
    /// the current value `current`.
    pub fn write_gpio(&self, current: u32, bit: Bit) -> (value: u32)
        ensures
            value == out_with(current, self.pin(), bit),
            self.pin() < 32,
            (value >> self.pin()) & 1 == bit.value(),
            forall|k: u32| k < 32 && k != self.pin() ==> #[trigger] ((value >> k) & 1) == (current >> k) & 1,
    {
        proof {
            use_type_invariant(self);
        }
        drive_pin(current, self.gpio_pin, bit)
    }

    /// How long the pulse that sends `bit` stays high and then low, in `nop`
    /// instructions.
    pub fn pulse_nops(bit: Bit) -> (nops: (u32, u32))
        ensures
            nops == pulse_nops_spec(bit),
            bit == Bit::Low ==> nops == (24u32, 44u32),
            bit == Bit::High ==> nops == (44u32, 40u32),
    {
        match bit {
            Bit::Low => (24, 44),
            Bit::High => (44, 40),
        }
    }

    /// The pulse that sends `bit`.
    pub fn write_bit(&self, bit: Bit) -> (steps: Vec<PulseStep>)
        ensures
            steps@ == pulse_steps(bit),
            steps@ == seq![
                PulseStep::Drive { bit: Bit::High },
                PulseStep::Spin { nops: if bit == Bit::Low { 24u32 } else { 44u32 } },
                PulseStep::Drive { bit: Bit::Low },
                PulseStep::Spin { nops: if bit == Bit::Low { 44u32 } else { 40u32 } },
            ],
    {
        let (high, low) = Self::pulse_nops(bit);
        let steps = vec![
            PulseStep::Drive { bit: Bit::High },
            PulseStep::Spin { nops: high },
            PulseStep::Drive { bit: Bit::Low },
            PulseStep::Spin { nops: low },
        ];
        assert(steps@ =~= pulse_steps(bit));
        steps
    }

    /// The bits that `write` sends for `pixels`, in order: each pixel's
    /// green, red and blue byte, most significant bit first.
    pub fn write(&self, pixels: &[Rgb]) -> (bits: Vec<Bit>)
        ensures
            bits@ == frame_bit_seq(pixels@),
    {
        frame_bits(pixels)
    }
}

/// Driving the pin twice to the same level gives what driving it once gives,
/// and of two writes the last decides the pin.
pub proof fn lemma_out_last_write_wins(current: u32, pin: u8, first: Bit, second: Bit)
    requires
        pin < 32,
    ensures
        out_with(out_with(current, pin, first), pin, second) == out_with(current, pin, second),
{
    let a = first.value() as u32;
    let b = second.value() as u32;
    assert(((current & !(1u32 << pin)) | (a << pin)) & !(1u32 << pin) | (b << pin) == (current
        & !(1u32 << pin)) | (b << pin)) by (bit_vector)
        requires
            pin < 32,
            a <= 1,
            b <= 1,
    ;
}

/// During the high wait of a pulse the line is high; after the pulse it is
/// low; the other pins keep their levels.
pub proof fn lemma_pulse_ends_low(current: u32, pin: u8, bit: Bit)
    requires
        pin < 32,
    ensures
        pulse_steps(bit)[1] == (PulseStep::Spin { nops: pulse_nops_spec(bit).0 }),
        out_after_pulse(current, pin, pulse_steps(bit).take(2)) == out_with(current, pin, Bit::High),
        out_after_pulse(current, pin, pulse_steps(bit)) == out_with(current, pin, Bit::Low),
{
    let st = pulse_steps(bit);
    reveal_with_fuel(out_after_pulse, 5);
    assert(st.take(2).drop_last() =~= st.take(1));
    assert(st.take(1).drop_last() =~= st.take(0));
    assert(st.drop_last() =~= st.take(3));
    assert(st.take(3).drop_last() =~= st.take(2));
    lemma_out_last_write_wins(current, pin, Bit::High, Bit::Low);
}

/// Every pulse is four steps: drive the pin high, wait the high time (24
/// `nop`s for a 0, T0H 375 ns; 44 for a 1, T1H 687.5 ns), drive it low, wait
/// the low time (44 for a 0, T0L 687.5 ns; 40 for a 1, T1L 625 ns). The pin
/// is high during the first wait and low during the second, and ends low;
/// no other pin changes.
pub proof fn lemma_pulse_timing(current: u32, pin: u8, bit: Bit)
    requires
        pin < 32,
    ensures
        pulse_steps(bit).len() == 4,
        pulse_steps(bit)[0] == (PulseStep::Drive { bit: Bit::High }),
        pulse_steps(bit)[1] == (PulseStep::Spin { nops: if bit == Bit::Low { 24u32 } else { 44u32 } }),
        pulse_steps(bit)[2] == (PulseStep::Drive { bit: Bit::Low }),
        pulse_steps(bit)[3] == (PulseStep::Spin { nops: if bit == Bit::Low { 44u32 } else { 40u32 } }),
        (out_after_pulse(current, pin, pulse_steps(bit).take(2)) >> pin) & 1 == 1,
        (out_after_pulse(current, pin, pulse_steps(bit).take(3)) >> pin) & 1 == 0,
        (out_after_pulse(current, pin, pulse_steps(bit)) >> pin) & 1 == 0,
        forall|k: u32|
            k < 32 && k != pin ==> #[trigger] ((out_after_pulse(current, pin, pulse_steps(bit)) >> k)
                & 1) == (current >> k) & 1,
{
    let st = pulse_steps(bit);
    reveal_with_fuel(out_after_pulse, 5);
    assert(st.take(2).drop_last() =~= st.take(1));
    assert(st.take(1).drop_last() =~= st.take(0));
    assert(st.drop_last() =~= st.take(3));
    assert(st.take(3).drop_last() =~= st.take(2));
    lemma_out_last_write_wins(current, pin, Bit::High, Bit::Low);
    let hi = out_with(current, pin, Bit::High);
    let lo = out_with(current, pin, Bit::Low);
    assert((hi >> pin) & 1 == 1) by (bit_vector)
        requires
            hi == (current & !(1u32 << pin)) | (1u32 << pin),
            pin < 32,
    ;
    assert((lo >> pin) & 1 == 0) by (bit_vector)
        requires
            lo == (current & !(1u32 << pin)) | (0u32 << pin),
            pin < 32,
    ;
    assert forall|k: u32| k < 32 && k != pin implies #[trigger] ((lo >> k) & 1) == (current >> k)
        & 1 by {
        assert((lo >> k) & 1 == (current >> k) & 1) by (bit_vector)
            requires
                lo == (current & !(1u32 << pin)) | (0u32 << pin),
                pin < 32,
                k < 32,
                k != pin,
        ;
    }
}

/// A 1 holds the line high longer than a 0 does, and a 0 holds it low longer
/// than it holds it high.
pub proof fn lemma_pulse_shapes()
    ensures
        pulse_nops_spec(Bit::High).0 > pulse_nops_spec(Bit::Low).0,
        pulse_nops_spec(Bit::Low).1 > pulse_nops_spec(Bit::Low).0,
{
}

} // verus!
