use nrf5x_ws2812b::device::GpioPort;
use nrf5x_ws2812b::driver::gpio::{
    bit_compare_values, reset_sequence, set_bit_ccr, Driver, TimerStep, RESET_COMPARE,
};
use nrf5x_ws2812b::{frame_bits, Bit, Rgb};

#[test]
fn timer_driver_ports() {
    assert_eq!(Driver::new(0, 13).out_port(), Some(GpioPort::P0));
    assert_eq!(Driver::new(1, 13).out_port(), Some(GpioPort::P1));
    assert_eq!(Driver::new(2, 13).out_port(), None);
    let d = Driver::new(1, 7);
    assert_eq!(d.gpio_port(), 1);
    assert_eq!(d.gpio_pin(), 7);
}

#[test]
fn timer_write_gpio_drives_the_pin() {
    let d = Driver::new(0, 4);
    assert_eq!(d.write_gpio(0, Bit::High), 0b1_0000);
    assert_eq!(d.write_gpio(0b1_0001, Bit::High), 0b1_0001);
    assert_eq!(d.write_gpio(0x10, Bit::Low), 0);
    assert_eq!(d.write_gpio(0xABCD, Bit::Low), 0xABCD);
    let v = 0xDEAD_BEEF;
    assert_eq!(d.write_gpio(d.write_gpio(v, Bit::High), Bit::Low), d.write_gpio(v, Bit::Low));
}

#[test]
fn timer_bit_pulse_ends_low() {
    let d = Driver::new(0, 4);
    for bit in [Bit::Low, Bit::High] {
        let mut out = 0x10u32;
        let mut high_at_wait0 = false;
        for step in d.write_bit(bit) {
            match step {
                TimerStep::WriteGpio { bit } => out = d.write_gpio(out, bit),
                TimerStep::Wait { channel: 0 } => high_at_wait0 = out & 0x10 != 0,
                _ => {}
            }
        }
        assert!(high_at_wait0);
        assert_eq!(out, 0);
    }
}

#[test]
fn timer_compare_values() {
    assert_eq!(bit_compare_values(Bit::Low), (6, 17));
    assert_eq!(bit_compare_values(Bit::High), (11, 21));
    assert_eq!(
        set_bit_ccr(Bit::High),
        vec![
            TimerStep::SetCompare { channel: 0, value: 11 },
            TimerStep::SetCompare { channel: 1, value: 21 },
        ]
    );
}

#[test]
fn timer_reset_sequence() {
    assert_eq!(RESET_COMPARE, 800);
    assert_eq!(
        reset_sequence(),
        vec![
            TimerStep::SetCompare { channel: 0, value: 800 },
            TimerStep::Clear,
            TimerStep::Wait { channel: 0 },
        ]
    );
}

#[test]
fn timer_write_bit_steps() {
    let d = Driver::new(0, 4);
    assert_eq!(
        d.write_bit(Bit::Low),
        vec![
            TimerStep::SetCompare { channel: 0, value: 6 },
            TimerStep::SetCompare { channel: 1, value: 17 },
            TimerStep::Clear,
            TimerStep::WriteGpio { bit: Bit::High },
            TimerStep::Wait { channel: 0 },
            TimerStep::WriteGpio { bit: Bit::Low },
            TimerStep::Wait { channel: 1 },
        ]
    );
}

#[test]
fn timer_write_plan_layout() {
    let d = Driver::new(0, 4);
    let pixels = [Rgb::h_blue(), Rgb::new(1, 2, 3)];
    let steps = d.write(&pixels);
    let bits = frame_bits(&pixels);
    assert_eq!(steps.len(), 7 * 48 + 3);
    for (k, bit) in bits.iter().enumerate() {
        assert_eq!(&steps[7 * k..7 * k + 7], d.write_bit(*bit).as_slice());
    }
    assert_eq!(&steps[7 * 48..], reset_sequence().as_slice());
    assert_eq!(d.write(&[]), reset_sequence());
}
