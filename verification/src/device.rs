//! GPIO ports of the nRF52840 and the checks and addresses that go with them.
use vstd::prelude::*;

verus! {

/// A GPIO port of the chip.
#[derive(Debug, Clone, Copy, PartialEq, Eq, Structural)]
pub enum GpioPort {
    P0,
    P1,
}

/// Base address of the GPIO peripheral block of port P0.
pub const GPIO_BASE: u32 = 0x5000_0000;

/// Distance between the register blocks of two consecutive ports.
pub const GPIO_PORT_STRIDE: u32 = 0x300;

/// Offset of the OUT register inside a port's register block.
pub const GPIO_OUT_OFFSET: u32 = 0x504;

impl GpioPort {
    /// The port's number: 0 for P0, 1 for P1.
    pub open spec fn spec_number(self) -> u8 {
        match self {
            GpioPort::P0 => 0,
            GpioPort::P1 => 1,
        }
    }

    /// How many pins the port has: 32 on P0, 16 on P1.
    pub open spec fn pin_count(self) -> u8 {
        match self {
            GpioPort::P0 => 32,
            GpioPort::P1 => 16,
        }
    }

    /// The port's number: 0 for P0, 1 for P1.
    pub fn number(self) -> (n: u8)
        ensures
            n == self.spec_number(),
    {
        match self {
            GpioPort::P0 => 0,
            GpioPort::P1 => 1,
        }
    }
}

/// Whether `pin` exists on `port`.
pub open spec fn valid_gpio(port: GpioPort, pin: u8) -> bool {
    pin < port.pin_count()
}

/// The address of the OUT register of `port`.
pub open spec fn out_register_address(port: GpioPort) -> u32 {
    (GPIO_BASE + GPIO_PORT_STRIDE * port.spec_number() + GPIO_OUT_OFFSET) as u32
}

/// Whether `pin` is a pin of `port`: P0 has pins 0 to 31, P1 pins 0 to 15.
pub fn check_gpio_config(port: GpioPort, pin: u8) -> (ok: bool)
    ensures
        ok == valid_gpio(port, pin),
        port == GpioPort::P0 ==> ok == (pin < 32),
        port == GpioPort::P1 ==> ok == (pin < 16),
{
    match port {
        GpioPort::P0 => pin < 32,
        GpioPort::P1 => pin < 16,
    }
}

/// The address of the OUT register of `port` (0x5000_0504 for P0,
/// 0x5000_0804 for P1).
pub fn gpio_out_address(port: GpioPort) -> (addr: u32)
    ensures
        addr == out_register_address(port),
        addr == GPIO_BASE + GPIO_PORT_STRIDE * port.spec_number() + GPIO_OUT_OFFSET,
        port == GpioPort::P0 ==> addr == 0x5000_0504,
        port == GpioPort::P1 ==> addr == 0x5000_0804,
{
    GPIO_BASE + GPIO_PORT_STRIDE * (port.number() as u32) + GPIO_OUT_OFFSET
}

/// Port P0 has exactly the pins 0 to 31 and port P1 exactly the pins 0 to
/// 15; their OUT registers are at 0x5000_0504 and 0x5000_0804.
pub proof fn lemma_port_pins(pin: u8)
    ensures
        valid_gpio(GpioPort::P0, pin) <==> pin < 32,
        valid_gpio(GpioPort::P1, pin) <==> pin < 16,
        out_register_address(GpioPort::P0) == 0x5000_0504,
        out_register_address(GpioPort::P1) == 0x5000_0804,
{
}

/// Two different ports have their OUT registers at different addresses, and
/// each lies inside the GPIO peripheral's address block.
pub proof fn lemma_out_registers_distinct(a: GpioPort, b: GpioPort)
    ensures
        a != b ==> out_register_address(a) != out_register_address(b),
        GPIO_BASE <= out_register_address(a) < GPIO_BASE + 0x1000,
        out_register_address(a) % 4 == 0,
{
}

} // verus!
