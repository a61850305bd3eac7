use nrf5x_ws2812b::device::GpioPort;
use nrf5x_ws2812b::spi::{
    mosi_pin_select, spi_config_value, Driver, SpiPool, SPI_FREQUENCY_4M, SPI_POOL_SIZE,
};
use nrf5x_ws2812b::{Configuration, Rgb};

fn cfg(max_stack: usize) -> Configuration {
    Configuration { gpio_port: GpioPort::P0, gpio_pin: 23, max_stack }
}

/// Reads the symbols of one fully encoded byte back into the byte.
fn decode(code: &[u8]) -> Option<u8> {
    let mut pairs: Vec<(u8, u8)> = Vec::new();
    let mut i = 0;
    while i < code.len() {
        match code[i] {
            0x88 => pairs.push((0, 0)),
            0x9C => pairs.push((0, 1)),
            0xE4 => pairs.push((1, 0)),
            0xE7 if i + 1 < code.len() && code[i + 1] == 0xE7 => {
                pairs.push((1, 1));
                i += 1;
            }
            _ => return None,
        }
        i += 1;
    }
    if pairs.len() != 4 {
        return None;
    }
    let bits = [
        (pairs[0].0, 7),
        (pairs[0].1, 6),
        (pairs[1].0, 5),
        (pairs[1].1, 4),
        (pairs[2].0, 3),
        (pairs[2].1, 2),
        (pairs[3].0, 1),
        (pairs[3].1, 0),
    ];
    Some(bits.iter().fold(0u8, |acc, &(b, k)| acc | (b << k)))
}

#[test]
fn pool_reserves_consecutive_regions() {
    let mut pool = SpiPool::new();
    assert_eq!(pool.next(), 0);
    assert_eq!(pool.reserve(100), 0);
    assert_eq!(pool.reserve(50), 100);
    assert_eq!(pool.next(), 150);
}

#[test]
fn drivers_get_disjoint_regions() {
    let mut pool = SpiPool::new();
    let a = Driver::new(cfg(4096), &mut pool);
    let b = Driver::new(cfg(4000), &mut pool);
    assert_eq!(a.pool_offset(), 0);
    assert_eq!(b.pool_offset(), 4096);
    assert_eq!(pool.next(), 8096);
    assert!(pool.next() < SPI_POOL_SIZE);
}

#[test]
fn register_values() {
    assert_eq!(spi_config_value(0xFFFF_FFFF), 0x110);
    assert_eq!(spi_config_value(0x0000_0007), 0);
    assert_eq!(mosi_pin_select(GpioPort::P0, 23), 23);
    assert_eq!(mosi_pin_select(GpioPort::P1, 5), 37);
    assert_eq!(SPI_FREQUENCY_4M, 0x4000_0000);
}

#[test]
fn encode_byte_symbols() {
    let mut pool = SpiPool::new();
    let drv = Driver::new(cfg(64), &mut pool);
    let tx = drv.begin_transaction(&[]);

    let mut buf = [0u8; 8];
    assert_eq!(tx.encode_byte(0x00, &mut buf, 0, 6), (4, 8));
    assert_eq!(buf, [0x88, 0x88, 0x88, 0x88, 0, 0, 0, 0]);

    let mut buf = [0u8; 8];
    assert_eq!(tx.encode_byte(0xFF, &mut buf, 0, 8), (8, 8));
    assert_eq!(buf, [0xE7; 8]);

    let mut buf = [0u8; 8];
    assert_eq!(tx.encode_byte(0x40, &mut buf, 0, 8), (4, 8));
    assert_eq!(&buf[..4], &[0x9C, 0x88, 0x88, 0x88]);

    let mut buf = [0u8; 4];
    assert_eq!(tx.encode_byte(0x80, &mut buf, 0, 4), (4, 8));
    assert_eq!(buf, [0xE4, 0x88, 0x88, 0x88]);

    let mut buf = [0u8; 8];
    assert_eq!(tx.encode_byte(0x01, &mut buf, 0, 8), (4, 8));
    assert_eq!(&buf[..4], &[0x88, 0x88, 0x88, 0x9C]);

    let mut buf = [0u8; 8];
    assert_eq!(tx.encode_byte(0x20, &mut buf, 0, 8), (4, 8));
    assert_eq!(&buf[..4], &[0x88, 0xE4, 0x88, 0x88]);

    let mut buf = [0u8; 4];
    assert_eq!(tx.encode_byte(0x60, &mut buf, 0, 4), (4, 8));
    assert_eq!(buf, [0x9C, 0xE4, 0x88, 0x88]);
}

#[test]
fn encode_byte_stops_at_first_symbol_that_does_not_fit() {
    let mut pool = SpiPool::new();
    let drv = Driver::new(cfg(64), &mut pool);
    let tx = drv.begin_transaction(&[]);

    let mut buf = [0u8; 8];
    assert_eq!(tx.encode_byte(0xFF, &mut buf, 0, 7), (6, 6));
    assert_eq!(buf, [0xE7, 0xE7, 0xE7, 0xE7, 0xE7, 0xE7, 0, 0]);

    let mut buf = [0u8; 1];
    assert_eq!(tx.encode_byte(0x60, &mut buf, 0, 1), (1, 2));
    assert_eq!(buf, [0x9C]);

    let mut buf = [0u8; 3];
    assert_eq!(tx.encode_byte(0x0F, &mut buf, 0, 3), (2, 4));
    assert_eq!(buf, [0x88, 0x88, 0x00]);

    let mut buf = [0u8; 8];
    assert_eq!(tx.encode_byte(0x00, &mut buf, 3, 3), (0, 0));
    assert_eq!(buf, [0; 8]);

    let mut buf = [1u8; 8];
    assert_eq!(tx.encode_byte(0x00, &mut buf, 2, 6), (4, 8));
    assert_eq!(buf, [1, 1, 0x88, 0x88, 0x88, 0x88, 1, 1]);
}

#[test]
fn encoding_is_lossless() {
    let mut pool = SpiPool::new();
    let drv = Driver::new(cfg(64), &mut pool);
    let tx = drv.begin_transaction(&[]);
    for b in 0..=255u8 {
        let mut buf = [0u8; 8];
        let (n, bits) = tx.encode_byte(b, &mut buf, 0, 8);
        assert_eq!(bits, 8);
        assert_eq!(decode(&buf[..n]), Some(b));
    }
}

#[test]
fn drive_writes_whole_pixel() {
    let mut pool = SpiPool::new();
    let drv = Driver::new(cfg(16), &mut pool);
    let data = [Rgb::zero()];
    let mut tx = drv.begin_transaction(&data);
    let mut mem = [0u8; SPI_POOL_SIZE];
    assert_eq!(tx.drive(&mut mem), 12);
    assert_eq!(&mem[..12], &[0x88; 12]);
    assert_eq!(mem[12], 0);
    assert!(!tx.completed());
    assert_eq!(tx.drive(&mut mem), 0);
}

#[test]
fn drive_leaves_partial_symbols_uncounted() {
    let mut pool = SpiPool::new();
    let drv = Driver::new(cfg(10), &mut pool);
    let data = [Rgb::zero()];
    let mut tx = drv.begin_transaction(&data);
    let mut mem = [0u8; SPI_POOL_SIZE];
    assert_eq!(tx.drive(&mut mem), 8);
    assert_eq!(&mem[..10], &[0x88; 10]);
    assert_eq!(mem[10], 0);
}

#[test]
fn drive_counter_reaches_completion() {
    let mut pool = SpiPool::new();
    let drv = Driver::new(cfg(5), &mut pool);
    let data = [Rgb::zero(); 12];
    let mut tx = drv.begin_transaction(&data);
    assert!(!tx.completed());
    let mut mem = [0u8; SPI_POOL_SIZE];
    assert_eq!(tx.drive(&mut mem), 4);
    assert!(tx.completed());
    // The counter also picks the next pixel (counter / 3), so a transaction
    // that reports completion still has bytes to send.
    assert_eq!(tx.drive(&mut mem), 4);
}

#[test]
fn empty_transaction_is_complete() {
    let mut pool = SpiPool::new();
    let drv = Driver::new(cfg(16), &mut pool);
    let mut tx = drv.begin_transaction(&[]);
    assert!(tx.completed());
    let mut mem = [7u8; SPI_POOL_SIZE];
    assert_eq!(tx.drive(&mut mem), 0);
    assert_eq!(mem, [7u8; SPI_POOL_SIZE]);
}

#[test]
fn drive_stays_in_its_region() {
    let mut pool = SpiPool::new();
    let first = Driver::new(cfg(16), &mut pool);
    let second = Driver::new(cfg(16), &mut pool);
    assert_eq!(second.pool_offset(), 16);
    let data = [Rgb::h_red()];
    let mut tx = first.begin_transaction(&data);
    let mut mem = [0x55u8; SPI_POOL_SIZE];
    assert_eq!(tx.drive(&mut mem), 15);
    assert_eq!(
        &mem[..15],
        &[0x88, 0x88, 0x88, 0x88, 0x9C, 0xE7, 0xE7, 0xE7, 0xE7, 0xE7, 0xE7, 0x88, 0x88, 0x88, 0x88]
    );
    assert!(mem[15..].iter().all(|&b| b == 0x55));
}

#[test]
fn drive_writes_whole_frame_in_grb_order() {
    let mut pool = SpiPool::new();
    let drv = Driver::new(cfg(128), &mut pool);
    let data = [Rgb::new(0x80, 0x01, 0xFF), Rgb::new(0x0F, 0x60, 0x00)];
    let mut expected: Vec<u8> = Vec::new();
    let scratch = drv.begin_transaction(&[]);
    for p in data.iter() {
        for c in 0..3 {
            let mut buf = [0u8; 8];
            let (n, bits) = scratch.encode_byte(p.grb_channel(c), &mut buf, 0, 8);
            assert_eq!(bits, 8);
            expected.extend_from_slice(&buf[..n]);
        }
    }
    let mut tx = drv.begin_transaction(&data);
    assert_eq!(tx.data(), &data[..]);
    let mut mem = [0u8; SPI_POOL_SIZE];
    let count = tx.drive(&mut mem);
    assert_eq!(count, expected.len());
    assert_eq!(&mem[..count], expected.as_slice());
    assert!(mem[count..].iter().all(|&b| b == 0));
}
