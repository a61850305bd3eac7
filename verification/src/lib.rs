//! WS2812B LED strip driver logic for Nordic nRF5x chips.
//!
//! The verified part: pixel colours, the order in which their bits go out on
//! the wire, the GPIO configuration checks and register values, the SPI pool
//! allocator and the SPI symbol encoder.
use vstd::prelude::*;

pub mod device;
pub mod driver;
pub mod gpio;
pub mod spi;

use crate::device::GpioPort;

verus! {

/// Logic state.
#[derive(Debug, Clone, Copy, PartialEq, Eq, Structural)]
pub enum Bit {
    Low,
    High,
}

impl Bit {
    /// The numeric level of the state: 0 for `Low`, 1 for `High`.
    pub open spec fn value(self) -> u8 {
        match self {
            Bit::Low => 0,
            Bit::High => 1,
        }
    }

    /// The state whose level is `level` (0 or 1).
    pub fn from_level(level: u8) -> (bit: Bit)
        requires
            level <= 1,
        ensures
            bit.value() == level,
    {
        if level == 0 {
            Bit::Low
        } else {
            Bit::High
        }
    }

    /// The numeric level of the state.
    pub fn level(self) -> (level: u8)
        ensures
            level == self.value(),
    {
        match self {
            Bit::Low => 0,
            Bit::High => 1,
        }
    }
}

/// Three-channel pixel color.
#[derive(Debug, Clone, Copy, PartialEq, Eq, Structural)]
pub struct Rgb {
    pub r: u8,
    pub g: u8,
    pub b: u8,
}

impl Rgb {
    /// Black: every channel off.
    pub fn zero() -> (c: Rgb)
        ensures
            c == (Rgb { r: 0, g: 0, b: 0 }),
    {
        Rgb { r: 0, g: 0, b: 0 }
    }

    /// Red at half brightness.
    pub fn h_red() -> (c: Rgb)
        ensures
            c == (Rgb { r: 127, g: 0, b: 0 }),
    {
        Rgb { r: 127, g: 0, b: 0 }
    }

    /// Green at half brightness.
    pub fn h_green() -> (c: Rgb)
        ensures
            c == (Rgb { r: 0, g: 127, b: 0 }),
    {
        Rgb { r: 0, g: 127, b: 0 }
    }

    /// Blue at half brightness.
    pub fn h_blue() -> (c: Rgb)
        ensures
            c == (Rgb { r: 0, g: 0, b: 127 }),
    {
        Rgb { r: 0, g: 0, b: 127 }
    }

    /// The colour with red `r`, green `g` and blue `b`.
    pub fn new(r: u8, g: u8, b: u8) -> (c: Self)
        ensures
            c == (Rgb { r, g, b }),
    {
        Self { r, g, b }
    }

    /// The colour's channels in the order the LEDs take them: green, red, blue.
    pub open spec fn grb(self) -> Seq<u8> {
        seq![self.g, self.r, self.b]
    }

    /// Channel `idx` in green-red-blue order: 0 is green, 1 red, 2 blue.
    pub fn grb_channel(self, idx: usize) -> (v: u8)
        requires
            idx < 3,
        ensures
            v == self.grb()[idx as int],
            idx == 0 ==> v == self.g,
            idx == 1 ==> v == self.r,
            idx == 2 ==> v == self.b,
    {
        match idx {
            0 => self.g,
            1 => self.r,
            _ => self.b,
        }
    }
}

impl From<[u8; 3]> for Rgb {
    fn from(rgb: [u8; 3]) -> (c: Self) {
        Self { r: rgb[0], g: rgb[1], b: rgb[2] }
    }
}

impl vstd::std_specs::convert::FromSpecImpl<[u8; 3]> for Rgb {
    open spec fn obeys_from_spec() -> bool {
        true
    }

    open spec fn from_spec(rgb: [u8; 3]) -> Self {
        Rgb { r: rgb@[0], g: rgb@[1], b: rgb@[2] }
    }
}

/// Converting `[r, g, b]` gives the same colour as `Rgb::new(r, g, b)`.
pub proof fn lemma_from_array_is_new(r: u8, g: u8, b: u8)
    ensures
        <Rgb as vstd::std_specs::convert::FromSpec<[u8; 3]>>::from_spec([r, g, b]) == (Rgb { r, g, b }),
{
}

/// Generic driver configuration options.
pub struct Configuration {
    pub gpio_port: GpioPort,
    pub gpio_pin: u8,
    pub max_stack: usize,
}

impl Default for Configuration {
    fn default() -> (cfg: Self)
        ensures
            cfg.gpio_port == GpioPort::P0,
            cfg.gpio_pin == 0,
            cfg.max_stack == 4096,
    {
        Self { gpio_port: GpioPort::P0, gpio_pin: 0, max_stack: 4096 }
    }
}

/// The state of bit `k` (0 is the least significant) of `byte`.
pub open spec fn bit_at(byte: u8, k: u32) -> Bit {
    if (byte >> k) & 1 == 1 {
        Bit::High
    } else {
        Bit::Low
    }
}

/// The eight bits of `byte`, most significant first: the order in which the
/// drivers send a byte.
pub open spec fn byte_bit_seq(byte: u8) -> Seq<Bit> {
    Seq::new(8, |i: int| bit_at(byte, (7 - i) as u32))
}

/// The byte whose bits, most significant first, are `bits[0..8]`.
pub open spec fn pack_bits(bits: Seq<Bit>) -> int {
    128 * bits[0].value() + 64 * bits[1].value() + 32 * bits[2].value() + 16 * bits[3].value()
        + 8 * bits[4].value() + 4 * bits[5].value() + 2 * bits[6].value() + bits[7].value()
}

/// The bits of `byte`, most significant first.
pub fn byte_bits(byte: u8) -> (bits: Vec<Bit>)
    ensures
        bits@ == byte_bit_seq(byte),
{
    let mut bits: Vec<Bit> = Vec::new();
    let mut i: u32 = 0;
    while i < 8
        invariant
            i <= 8,
            bits@.len() == i,
            forall|j: int| 0 <= j < i ==> bits@[j] == bit_at(byte, (7 - j) as u32),
        decreases 8 - i,
    {
        let shift: u32 = 7 - i;
        let level: u8 = (byte >> shift) & 1;
        assert(level <= 1) by (bit_vector)
            requires
                level == (byte >> shift) & 1,
        ;
        bits.push(Bit::from_level(level));
        i = i + 1;
    }
    assert(bits@ =~= byte_bit_seq(byte));
    bits
}

/// Packing the bits that `byte_bits` gives back yields the byte: no bit is
/// lost or reordered.
pub proof fn lemma_byte_bits_roundtrip(byte: u8)
    ensures
        pack_bits(byte_bit_seq(byte)) == byte,
{
    let s = byte_bit_seq(byte);
    assert forall|k: u32| k < 8 implies (#[trigger] bit_at(byte, k)).value() == (byte >> k) & 1 by {
        assert((byte >> k) & 1 == 1 || (byte >> k) & 1 == 0) by (bit_vector);
    }
    assert(s[0] == bit_at(byte, 7));
    assert(s[1] == bit_at(byte, 6));
    assert(s[2] == bit_at(byte, 5));
    assert(s[3] == bit_at(byte, 4));
    assert(s[4] == bit_at(byte, 3));
    assert(s[5] == bit_at(byte, 2));
    assert(s[6] == bit_at(byte, 1));
    assert(s[7] == bit_at(byte, 0));
    assert(byte == 128 * ((byte >> 7) & 1) + 64 * ((byte >> 6) & 1) + 32 * ((byte >> 5) & 1) + 16
        * ((byte >> 4) & 1) + 8 * ((byte >> 3) & 1) + 4 * ((byte >> 2) & 1) + 2 * ((byte >> 1) & 1)
        + ((byte >> 0) & 1)) by (bit_vector);
}

/// The 24 bits of a pixel as they go out on the wire: green, red, blue, each
/// most significant bit first.
pub open spec fn rgb_bit_seq(c: Rgb) -> Seq<Bit> {
    byte_bit_seq(c.g) + byte_bit_seq(c.r) + byte_bit_seq(c.b)
}

/// The bits of a whole frame: the pixels in order, each as `rgb_bit_seq`.
pub open spec fn frame_bit_seq(pixels: Seq<Rgb>) -> Seq<Bit>
    decreases pixels.len(),
{
    if pixels.len() == 0 {
        Seq::empty()
    } else {
        frame_bit_seq(pixels.drop_last()) + rgb_bit_seq(pixels.last())
    }
}

/// The bits of one pixel in wire order: green, red, blue, each most
/// significant bit first.
pub fn rgb_bits(c: Rgb) -> (bits: Vec<Bit>)
    ensures
        bits@ == rgb_bit_seq(c),
        bits@.len() == 24,
        bits@.subrange(0, 8) == byte_bit_seq(c.g),
        bits@.subrange(8, 16) == byte_bit_seq(c.r),
        bits@.subrange(16, 24) == byte_bit_seq(c.b),
{
    let mut bits: Vec<Bit> = Vec::new();
    let mut channel: usize = 0;
    let ghost whole = rgb_bit_seq(c);
    assert(whole.subrange(0, 8) =~= byte_bit_seq(c.g));
    assert(whole.subrange(8, 16) =~= byte_bit_seq(c.r));
    assert(whole.subrange(16, 24) =~= byte_bit_seq(c.b));
    while channel < 3
        invariant
            channel <= 3,
            bits@ == (if channel == 0 {
                Seq::empty()
            } else if channel == 1 {
                byte_bit_seq(c.g)
            } else if channel == 2 {
                byte_bit_seq(c.g) + byte_bit_seq(c.r)
            } else {
                rgb_bit_seq(c)
            }),
        decreases 3 - channel,
    {
        let mut more = byte_bits(c.grb_channel(channel));
        bits.append(&mut more);
        channel = channel + 1;
    }
    bits
}

/// The bits of a whole frame in wire order.
pub fn frame_bits(pixels: &[Rgb]) -> (bits: Vec<Bit>)
    ensures
        bits@ == frame_bit_seq(pixels@),
{
    let mut bits: Vec<Bit> = Vec::new();
    let mut i: usize = 0;
    while i < pixels.len()
        invariant
            i <= pixels@.len(),
            bits@ == frame_bit_seq(pixels@.subrange(0, i as int)),
        decreases pixels@.len() - i,
    {
        let mut more = rgb_bits(pixels[i]);
        bits.append(&mut more);
        proof {
            let next = pixels@.subrange(0, i + 1);
            assert(next.drop_last() =~= pixels@.subrange(0, i as int));
            assert(next.last() == pixels@[i as int]);
        }
        i = i + 1;
    }
    assert(pixels@.subrange(0, pixels@.len() as int) =~= pixels@);
    bits
}

/// Bit `i` of `byte_bit_seq(byte)` is the bit of weight `2^(7 - i)`: the
/// first is the most significant, the last the least.
pub proof fn lemma_msb_first(byte: u8)
    ensures
        byte_bit_seq(byte).len() == 8,
        byte_bit_seq(byte)[0] == Bit::High <==> (byte / 128) % 2 == 1,
        byte_bit_seq(byte)[1] == Bit::High <==> (byte / 64) % 2 == 1,
        byte_bit_seq(byte)[2] == Bit::High <==> (byte / 32) % 2 == 1,
        byte_bit_seq(byte)[3] == Bit::High <==> (byte / 16) % 2 == 1,
        byte_bit_seq(byte)[4] == Bit::High <==> (byte / 8) % 2 == 1,
        byte_bit_seq(byte)[5] == Bit::High <==> (byte / 4) % 2 == 1,
        byte_bit_seq(byte)[6] == Bit::High <==> (byte / 2) % 2 == 1,
        byte_bit_seq(byte)[7] == Bit::High <==> byte % 2 == 1,
{
    assert(((byte >> 7u32) & 1 == 1) == ((byte / 128) % 2 == 1)) by (bit_vector);
    assert(((byte >> 6u32) & 1 == 1) == ((byte / 64) % 2 == 1)) by (bit_vector);
    assert(((byte >> 5u32) & 1 == 1) == ((byte / 32) % 2 == 1)) by (bit_vector);
    assert(((byte >> 4u32) & 1 == 1) == ((byte / 16) % 2 == 1)) by (bit_vector);
    assert(((byte >> 3u32) & 1 == 1) == ((byte / 8) % 2 == 1)) by (bit_vector);
    assert(((byte >> 2u32) & 1 == 1) == ((byte / 4) % 2 == 1)) by (bit_vector);
    assert(((byte >> 1u32) & 1 == 1) == ((byte / 2) % 2 == 1)) by (bit_vector);
    assert(((byte >> 0u32) & 1 == 1) == (byte % 2 == 1)) by (bit_vector);
}

/// In a frame, pixel `k` takes bits `24 k` to `24 k + 23`: its green byte,
/// then its red byte, then its blue byte, each most significant bit first.
pub proof fn lemma_frame_channels(pixels: Seq<Rgb>)
    ensures
        frame_bit_seq(pixels).len() == 24 * pixels.len(),
        forall|k: int, j: int|
            0 <= k < pixels.len() && 0 <= j < 8 ==> {
                &&& #[trigger] frame_bit_seq(pixels)[24 * k + j] == byte_bit_seq(pixels[k].g)[j]
                &&& frame_bit_seq(pixels)[24 * k + 8 + j] == byte_bit_seq(pixels[k].r)[j]
                &&& frame_bit_seq(pixels)[24 * k + 16 + j] == byte_bit_seq(pixels[k].b)[j]
            },
{
    lemma_frame_bit_layout(pixels);
    assert forall|k: int, j: int| 0 <= k < pixels.len() && 0 <= j < 8 implies {
        &&& #[trigger] frame_bit_seq(pixels)[24 * k + j] == byte_bit_seq(pixels[k].g)[j]
        &&& frame_bit_seq(pixels)[24 * k + 8 + j] == byte_bit_seq(pixels[k].r)[j]
        &&& frame_bit_seq(pixels)[24 * k + 16 + j] == byte_bit_seq(pixels[k].b)[j]
    } by {
        let p = pixels[k];
        assert(p.grb()[0] == p.g && p.grb()[1] == p.r && p.grb()[2] == p.b);
        assert(frame_bit_seq(pixels)[24 * k + 8 * 0 + j] == bit_at(p.grb()[0], (7 - j) as u32));
        assert(frame_bit_seq(pixels)[24 * k + 8 * 1 + j] == bit_at(p.grb()[1], (7 - j) as u32));
        assert(frame_bit_seq(pixels)[24 * k + 8 * 2 + j] == bit_at(p.grb()[2], (7 - j) as u32));
    }
}

/// A frame of `n` pixels is `24 n` bits long, and bit `8 c + j` of pixel `k`
/// is bit `7 - j` of channel `c` (green, red, blue) of that pixel.
pub proof fn lemma_frame_bit_layout(pixels: Seq<Rgb>)
    ensures
        frame_bit_seq(pixels).len() == 24 * pixels.len(),
        forall|k: int, c: int, j: int|
            0 <= k < pixels.len() && 0 <= c < 3 && 0 <= j < 8 ==> #[trigger] frame_bit_seq(
                pixels,
            )[24 * k + 8 * c + j] == bit_at(#[trigger] pixels[k].grb()[c], (7 - j) as u32),
    decreases pixels.len(),
{
    if pixels.len() > 0 {
        let init = pixels.drop_last();
        lemma_frame_bit_layout(init);
        let n = init.len();
        assert forall|k: int, c: int, j: int|
            0 <= k < pixels.len() && 0 <= c < 3 && 0 <= j < 8 implies #[trigger] frame_bit_seq(
                pixels,
            )[24 * k + 8 * c + j] == bit_at(#[trigger] pixels[k].grb()[c], (7 - j) as u32) by {
            if k < n {
                assert(init[k] == pixels[k]);
                assert(frame_bit_seq(init)[24 * k + 8 * c + j] == bit_at(
                    init[k].grb()[c],
                    (7 - j) as u32,
                ));
            } else {
                let p = pixels.last();
                assert(k == n);
                if c == 0 {
                    assert(rgb_bit_seq(p)[8 * c + j] == byte_bit_seq(p.g)[j]);
                } else if c == 1 {
                    assert(rgb_bit_seq(p)[8 * c + j] == byte_bit_seq(p.r)[j]);
                } else {
                    assert(rgb_bit_seq(p)[8 * c + j] == byte_bit_seq(p.b)[j]);
                }
            }
        }
    }
}

} // verus!
