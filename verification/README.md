# nrf5x_ws2812b

Driver logic for WS2812B LED strips on Nordic nRF5x chips, written in Verus.

- `src/` is the verified library: pixel colours and the order in which their
  bits go out (`lib.rs`), GPIO ports, pin checks and OUT register addresses
  (`device.rs`), the bit-banging driver's register values and pulse lengths
  (`gpio.rs`), the SPI pool allocator, the SPI symbol encoder and the
  transaction loop (`spi.rs`), and the step plan of the timer-driven driver
  (`driver/gpio.rs`).
- `app/` is the hardware side for the nRF52840: register writes through
  `nrf52840-pac`, the volatile OUT pointer, busy waits with `cortex-m`, and
  the static SPI pool.
- `tests/` runs the library on concrete values.
