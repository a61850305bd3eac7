use nrf5x_ws2812b::device::GpioPort;
use nrf5x_ws2812b::gpio::{Driver, PulseStep, RESET_DELAY_US};
use nrf5x_ws2812b::{frame_bits, Bit, Configuration, Rgb};

fn driver(port: GpioPort, pin: u8) -> Driver {
    Driver::new(Configuration { gpio_port: port, gpio_pin: pin, max_stack: 0 })
}

#[test]
fn bitbang_out_address_follows_port() {
    assert_eq!(driver(GpioPort::P0, 23).out_address(), 0x5000_0504);
    assert_eq!(driver(GpioPort::P1, 3).out_address(), 0x5000_0804);
}

#[test]
fn bitbang_write_gpio_sets_and_clears_only_its_pin() {
    let d = driver(GpioPort::P0, 5);
    assert_eq!(d.write_gpio(0, Bit::High), 0b10_0000);
    assert_eq!(d.write_gpio(0xFFFF_FFFF, Bit::Low), 0xFFFF_FFDF);
    assert_eq!(d.write_gpio(0b10_0001, Bit::High), 0b10_0001);
    assert_eq!(d.write_gpio(0b10_0001, Bit::Low), 0b00_0001);
    let top = driver(GpioPort::P0, 31);
    assert_eq!(top.write_gpio(0, Bit::High), 0x8000_0000);
}

#[test]
fn bitbang_last_write_wins() {
    let d = driver(GpioPort::P1, 9);
    let v = 0x1234_5678;
    assert_eq!(d.write_gpio(d.write_gpio(v, Bit::High), Bit::Low), d.write_gpio(v, Bit::Low));
    assert_eq!(d.write_gpio(d.write_gpio(v, Bit::Low), Bit::High), d.write_gpio(v, Bit::High));
}

#[test]
fn bitbang_pulse_lengths() {
    assert_eq!(Driver::pulse_nops(Bit::Low), (24, 44));
    assert_eq!(Driver::pulse_nops(Bit::High), (44, 40));
    assert_eq!(RESET_DELAY_US, 50);
}

#[test]
fn bitbang_write_sends_frame_bits() {
    let d = driver(GpioPort::P0, 23);
    let pixels = [Rgb::h_red(), Rgb::zero(), Rgb::h_green()];
    assert_eq!(d.write(&pixels), frame_bits(&pixels));
    assert_eq!(d.write(&pixels).len(), 72);
}

#[test]
fn bitbang_write_bit_pulse() {
    let d = driver(GpioPort::P0, 2);
    assert_eq!(
        d.write_bit(Bit::High),
        vec![
            PulseStep::Drive { bit: Bit::High },
            PulseStep::Spin { nops: 44 },
            PulseStep::Drive { bit: Bit::Low },
            PulseStep::Spin { nops: 40 },
        ]
    );
    let mut out = 0b100u32;
    for step in d.write_bit(Bit::Low) {
        if let PulseStep::Drive { bit } = step {
            out = d.write_gpio(out, bit);
        }
    }
    assert_eq!(out, 0);
}
