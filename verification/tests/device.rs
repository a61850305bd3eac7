use nrf5x_ws2812b::device::{check_gpio_config, gpio_out_address, GpioPort};

#[test]
fn port_p0_has_32_pins() {
    assert!(check_gpio_config(GpioPort::P0, 0));
    assert!(check_gpio_config(GpioPort::P0, 31));
    assert!(!check_gpio_config(GpioPort::P0, 32));
    assert!(!check_gpio_config(GpioPort::P0, 255));
}

#[test]
fn port_p1_has_16_pins() {
    assert!(check_gpio_config(GpioPort::P1, 15));
    assert!(!check_gpio_config(GpioPort::P1, 16));
}

#[test]
fn out_register_addresses() {
    assert_eq!(gpio_out_address(GpioPort::P0), 0x5000_0504);
    assert_eq!(gpio_out_address(GpioPort::P1), 0x5000_0804);
    assert_eq!(GpioPort::P0.number(), 0);
    assert_eq!(GpioPort::P1.number(), 1);
}
