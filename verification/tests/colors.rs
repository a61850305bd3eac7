use nrf5x_ws2812b::device::GpioPort;
use nrf5x_ws2812b::{byte_bits, frame_bits, rgb_bits, Bit, Configuration, Rgb};

fn pack(bits: &[Bit]) -> u8 {
    let mut v: u8 = 0;
    for b in bits {
        v = (v << 1) | b.level();
    }
    v
}

#[test]
fn rgb_new_sets_channels() {
    let c = Rgb::new(1, 2, 3);
    assert_eq!(c, Rgb { r: 1, g: 2, b: 3 });
}

#[test]
fn grb_channel_order_is_green_red_blue() {
    let c = Rgb::new(10, 20, 30);
    assert_eq!(c.grb_channel(0), 20);
    assert_eq!(c.grb_channel(1), 10);
    assert_eq!(c.grb_channel(2), 30);
}

#[test]
fn from_array_is_red_green_blue() {
    let c = Rgb::from([7, 8, 9]);
    assert_eq!(c, Rgb::new(7, 8, 9));
    let d: Rgb = [0, 255, 1].into();
    assert_eq!(d, Rgb { r: 0, g: 255, b: 1 });
}

#[test]
fn named_colors() {
    assert_eq!(Rgb::zero(), Rgb::new(0, 0, 0));
    assert_eq!(Rgb::h_red(), Rgb::new(127, 0, 0));
    assert_eq!(Rgb::h_green(), Rgb::new(0, 127, 0));
    assert_eq!(Rgb::h_blue(), Rgb::new(0, 0, 127));
}

#[test]
fn configuration_default_values() {
    let cfg = Configuration::default();
    assert_eq!(cfg.gpio_port, GpioPort::P0);
    assert_eq!(cfg.gpio_pin, 0);
    assert_eq!(cfg.max_stack, 4096);
}

#[test]
fn bit_levels() {
    assert_eq!(Bit::from_level(0), Bit::Low);
    assert_eq!(Bit::from_level(1), Bit::High);
    assert_eq!(Bit::High.level(), 1);
    assert_eq!(Bit::Low.level(), 0);
}

#[test]
fn byte_bits_most_significant_first() {
    let (h, l) = (Bit::High, Bit::Low);
    assert_eq!(byte_bits(0b1010_0001), vec![h, l, h, l, l, l, l, h]);
    assert_eq!(byte_bits(0), vec![l; 8]);
    assert_eq!(byte_bits(0xFF), vec![h; 8]);
}

#[test]
fn byte_bits_roundtrip_all_bytes() {
    for b in 0..=255u8 {
        let bits = byte_bits(b);
        assert_eq!(bits.len(), 8);
        assert_eq!(pack(&bits), b);
    }
}

#[test]
fn rgb_bits_green_then_red_then_blue() {
    let c = Rgb::new(0x01, 0x80, 0xF0);
    let bits = rgb_bits(c);
    assert_eq!(bits.len(), 24);
    assert_eq!(pack(&bits[0..8]), 0x80);
    assert_eq!(pack(&bits[8..16]), 0x01);
    assert_eq!(pack(&bits[16..24]), 0xF0);
}

#[test]
fn frame_bits_layout() {
    let pixels = [Rgb::h_red(), Rgb::zero(), Rgb::new(1, 2, 3)];
    let bits = frame_bits(&pixels);
    assert_eq!(bits.len(), 72);
    for (k, p) in pixels.iter().enumerate() {
        for c in 0..3 {
            let start = 24 * k + 8 * c;
            assert_eq!(pack(&bits[start..start + 8]), p.grb_channel(c));
        }
    }
    assert!(frame_bits(&[]).is_empty());
}
