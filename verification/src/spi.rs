//! Driver logic for the SPI peripheral: each WS2812B bit pair becomes one or
//! two SPI bytes, which the SPIM peripheral shifts out from a region of a
//! shared byte pool.
use vstd::prelude::*;

use crate::device::{valid_gpio, GpioPort};
use crate::{bit_at, Bit, Configuration, Rgb};

verus! {

/// Size in bytes of the pool that all SPI drivers share for their TXD buffers.
pub const SPI_POOL_SIZE: usize = 8192;

/// FREQUENCY register value for 4 Mbps: a 250 ns SPI bit time.
pub const SPI_FREQUENCY_4M: u32 = 0x4000_0000;

/// Bits of the CONFIG register that are kept when the driver sets it up.
pub const SPI_CONFIG_KEEP: u32 = 0x110;

/// The allocator of the shared SPI pool: it hands out consecutive regions,
/// starting at offset 0, and never takes one back.
pub struct SpiPool {
    next: usize,
}

/// The region `[offset, offset + size)` of the pool.
pub open spec fn region_in_pool(offset: int, size: int) -> bool {
    0 <= offset && 0 <= size && offset + size <= SPI_POOL_SIZE
}

/// Whether the regions `[a, a + sa)` and `[b, b + sb)` share no byte.
pub open spec fn regions_disjoint(a: int, sa: int, b: int, sb: int) -> bool {
    a + sa <= b || b + sb <= a
}

impl SpiPool {
    #[verifier::type_invariant]
    spec fn inside_pool(self) -> bool {
        self.next < SPI_POOL_SIZE
    }

    /// Offset where the next region starts.
    pub closed spec fn spec_next(self) -> usize {
        self.next
    }

    /// An empty pool: the first region starts at offset 0.
    pub fn new() -> (pool: SpiPool)
        ensures
            pool.spec_next() == 0,
    {
        SpiPool { next: 0 }
    }

    /// Offset where the next region starts; always inside the pool.
    pub fn next(&self) -> (next: usize)
        ensures
            next == self.spec_next(),
            next < SPI_POOL_SIZE,
    {
        proof {
            use_type_invariant(self);
        }
        self.next
    }

    /// Reserves `size` bytes and returns the offset of the region. The pool
    /// must keep at least one byte free after the region.
    pub fn reserve(&mut self, size: usize) -> (offset: usize)
        requires
            old(self).spec_next() + size < SPI_POOL_SIZE,
        ensures
            offset == old(self).spec_next(),
            final(self).spec_next() == old(self).spec_next() + size,
            region_in_pool(offset as int, size as int),
    {
        let current = self.next;
        self.next = self.next + size;
        current
    }
}

/// Two regions reserved one after the other from the same pool lie inside the
/// pool and do not overlap.
pub proof fn lemma_reservations_disjoint(next: usize, size1: usize, size2: usize)
    requires
        next + size1 < SPI_POOL_SIZE,
        next + size1 + size2 < SPI_POOL_SIZE,
    ensures
        region_in_pool(next as int, size1 as int),
        region_in_pool(next + size1, size2 as int),
        regions_disjoint(next as int, size1 as int, next + size1, size2 as int),
{
}

/// The CONFIG register value the driver writes, given the current one: the
/// kept bits stay, ORDER (bit 0) becomes 0, which is most significant bit
/// first, and CPHA and CPOL (bits 1 and 2) become 0.
pub fn spi_config_value(current: u32) -> (value: u32)
    ensures
        value == current & SPI_CONFIG_KEEP,
        value & 7 == 0,
{
    let value = current & 0x110;
    assert(value & 7 == 0) by (bit_vector)
        requires
            value == current & 0x110,
    ;
    value
}

/// The PSEL.MOSI register value that selects `pin` of `port`: the pin number
/// in bits 0 to 4 and the port number in bit 5.
pub fn mosi_pin_select(port: GpioPort, pin: u8) -> (value: u32)
    ensures
        value == (pin as u32) | ((port.spec_number() as u32) << 5u32),
        valid_gpio(port, pin) ==> value == pin + 32 * port.spec_number(),
        valid_gpio(port, pin) ==> value & 31 == pin && value >> 5u32 == port.spec_number(),
{
    let p: u32 = pin as u32;
    let n: u32 = port.number() as u32;
    let value = p | (n << 5u32);
    if pin < 32 {
        assert(value == p + 32 * n && value & 31 == p && value >> 5u32 == n) by (bit_vector)
            requires
                value == p | (n << 5u32),
                p < 32,
                n <= 1,
        ;
    }
    value
}

/// The SPI bytes that stand for the bit pair `(first, second)`: one byte
/// for 00, 01 and 10, two bytes for 11.
pub open spec fn pair_code(first: Bit, second: Bit) -> Seq<u8> {
    match (first, second) {
        (Bit::Low, Bit::Low) => seq![0b1000_1000u8],
        (Bit::Low, Bit::High) => seq![0b1001_1100u8],
        (Bit::High, Bit::Low) => seq![0b1110_0100u8],
        (Bit::High, Bit::High) => seq![0b1110_0111u8, 0b1110_0111u8],
    }
}

/// The bit pairs of `byte` in the order the encoder takes them, most
/// significant first as the LEDs expect: bits (7, 6), (5, 4), (3, 2), (1, 0).
pub open spec fn byte_pairs(byte: u8) -> Seq<(Bit, Bit)> {
    seq![
        (bit_at(byte, 7), bit_at(byte, 6)),
        (bit_at(byte, 5), bit_at(byte, 4)),
        (bit_at(byte, 3), bit_at(byte, 2)),
        (bit_at(byte, 1), bit_at(byte, 0)),
    ]
}

/// The four SPI symbols of `byte`, one per bit pair.
pub open spec fn byte_symbols(byte: u8) -> Seq<Seq<u8>> {
    byte_pairs(byte).map_values(|p: (Bit, Bit)| pair_code(p.0, p.1))
}

/// The bytes of the first `k` symbols of `syms`, one after the other.
pub open spec fn emitted(syms: Seq<Seq<u8>>, k: nat) -> Seq<u8>
    decreases k,
{
    if k == 0 {
        Seq::empty()
    } else {
        emitted(syms, (k - 1) as nat) + syms[k - 1]
    }
}

/// How many leading symbols of `syms`, from symbol `p` on, fit together into
/// `space` bytes: the encoder stops at the first that does not fit.
pub open spec fn fit_count(syms: Seq<Seq<u8>>, space: int, p: nat) -> nat
    decreases syms.len() - p,
{
    if p >= syms.len() {
        p
    } else if emitted(syms, p + 1).len() > space {
        p
    } else {
        fit_count(syms, space, p + 1)
    }
}

/// `buf` with the bytes from `at` on replaced by `data`.
pub open spec fn splice(buf: Seq<u8>, at: int, data: Seq<u8>) -> Seq<u8> {
    buf.subrange(0, at) + data + buf.subrange(at + data.len(), buf.len() as int)
}

/// What encoding `byte` into the `space` bytes at `at` of `buf` gives: the
/// new buffer, the number of bytes written and the number of bits encoded.
pub open spec fn encode_spec(byte: u8, buf: Seq<u8>, at: int, space: int) -> (Seq<u8>, nat, nat) {
    let syms = byte_symbols(byte);
    let k = fit_count(syms, space, 0);
    let out = emitted(syms, k);
    (splice(buf, at, out), out.len(), 2 * k)
}

/// Symbol `k` of a byte codes its bits `7 - 2k` and `6 - 2k`, most
/// significant pair first: bits 00 give 0x88, 01 give 0x9C, 10 give 0xE4,
/// and 11 give 0xE7 twice.
pub proof fn lemma_symbol_table(byte: u8)
    ensures
        byte_symbols(byte).len() == 4,
        forall|k: u32|
            k < 4 ==> #[trigger] byte_symbols(byte)[k as int] == if (byte >> ((7 - 2 * k) as u32)) & 1
                == 0 {
                if (byte >> ((6 - 2 * k) as u32)) & 1 == 0 {
                    seq![0x88u8]
                } else {
                    seq![0x9Cu8]
                }
            } else {
                if (byte >> ((6 - 2 * k) as u32)) & 1 == 0 {
                    seq![0xE4u8]
                } else {
                    seq![0xE7u8, 0xE7u8]
                }
            },
{
    assert forall|k: u32| k < 4 implies #[trigger] byte_symbols(byte)[k as int] == if (byte >> ((7
        - 2 * k) as u32)) & 1 == 0 {
        if (byte >> ((6 - 2 * k) as u32)) & 1 == 0 {
            seq![0x88u8]
        } else {
            seq![0x9Cu8]
        }
    } else {
        if (byte >> ((6 - 2 * k) as u32)) & 1 == 0 {
            seq![0xE4u8]
        } else {
            seq![0xE7u8, 0xE7u8]
        }
    } by {
        let hi = ((7 - 2 * k) as u32);
        let lo = ((6 - 2 * k) as u32);
        assert((byte >> hi) & 1 == 0 || (byte >> hi) & 1 == 1) by (bit_vector);
        assert((byte >> lo) & 1 == 0 || (byte >> lo) & 1 == 1) by (bit_vector);
        assert(byte_pairs(byte)[k as int] == (bit_at(byte, hi), bit_at(byte, lo)));
    }
}

/// Reads SPI symbols back into bit pairs: none where `bytes` is not a
/// sequence of whole symbols.
pub open spec fn decode_symbols(bytes: Seq<u8>) -> Option<Seq<(Bit, Bit)>>
    decreases bytes.len(),
{
    if bytes.len() == 0 {
        Some(Seq::empty())
    } else {
        let (pair, used): ((Bit, Bit), int) = if bytes[0] == 0x88 {
            ((Bit::Low, Bit::Low), 1)
        } else if bytes[0] == 0x9C {
            ((Bit::Low, Bit::High), 1)
        } else if bytes[0] == 0xE4 {
            ((Bit::High, Bit::Low), 1)
        } else if bytes[0] == 0xE7 && bytes.len() >= 2 && bytes[1] == 0xE7 {
            ((Bit::High, Bit::High), 2)
        } else {
            ((Bit::Low, Bit::Low), 0)
        };
        if used == 0 {
            None
        } else {
            match decode_symbols(bytes.subrange(used, bytes.len() as int)) {
                Some(rest) => Some(seq![pair] + rest),
                None => None,
            }
        }
    }
}

/// The bits of `pairs`, pair after pair.
pub open spec fn pair_bits(pairs: Seq<(Bit, Bit)>) -> Seq<Bit>
    decreases pairs.len(),
{
    if pairs.len() == 0 {
        Seq::empty()
    } else {
        pair_bits(pairs.drop_last()) + seq![pairs.last().0, pairs.last().1]
    }
}

/// Reading a symbol in front of other bytes gives its pair in front of what
/// those bytes read as.
proof fn lemma_decode_symbol(first: Bit, second: Bit, rest: Seq<u8>)
    ensures
        decode_symbols(pair_code(first, second) + rest) == match decode_symbols(rest) {
            Some(r) => Some(seq![(first, second)] + r),
            None => None,
        },
{
    let bytes = pair_code(first, second) + rest;
    let used = pair_code(first, second).len() as int;
    assert(bytes.subrange(used, bytes.len() as int) =~= rest);
}

/// The bytes of four symbols are the symbols one after the other.
proof fn lemma_emitted_four(syms: Seq<Seq<u8>>)
    ensures
        emitted(syms, 4) =~= syms[0] + (syms[1] + (syms[2] + (syms[3] + Seq::<u8>::empty()))),
{
    reveal_with_fuel(emitted, 5);
    assert(emitted(syms, 0) =~= Seq::<u8>::empty());
}

/// The pairs of a byte, read pair after pair, are its bits most significant
/// first: the order in which the GPIO drivers send it.
proof fn lemma_pairs_are_msb_first(byte: u8)
    ensures
        pair_bits(byte_pairs(byte)) == crate::byte_bit_seq(byte),
{
    let pairs = byte_pairs(byte);
    reveal_with_fuel(pair_bits, 5);
    assert(pairs.drop_last().drop_last().drop_last().drop_last() =~= Seq::<(Bit, Bit)>::empty());
    assert(pair_bits(pairs) =~= crate::byte_bit_seq(byte));
}

/// A byte whose four symbols were all written can be read back from them:
/// the symbols decode to the byte's pairs, the pairs read one after the other
/// are the byte's bits most significant first, and those bits give the byte.
pub proof fn lemma_encoding_lossless(byte: u8)
    ensures
        decode_symbols(emitted(byte_symbols(byte), 4)) == Some(byte_pairs(byte)),
        pair_bits(byte_pairs(byte)) == crate::byte_bit_seq(byte),
        crate::pack_bits(pair_bits(byte_pairs(byte))) == byte,
{
    let syms = byte_symbols(byte);
    let pairs = byte_pairs(byte);
    let s0 = pair_code(pairs[0].0, pairs[0].1);
    let s1 = pair_code(pairs[1].0, pairs[1].1);
    let s2 = pair_code(pairs[2].0, pairs[2].1);
    let s3 = pair_code(pairs[3].0, pairs[3].1);
    let e = Seq::<u8>::empty();
    assert(syms[0] == s0 && syms[1] == s1 && syms[2] == s2 && syms[3] == s3);
    lemma_emitted_four(syms);
    assert(decode_symbols(e) == Some(Seq::<(Bit, Bit)>::empty()));
    lemma_decode_symbol(pairs[3].0, pairs[3].1, e);
    lemma_decode_symbol(pairs[2].0, pairs[2].1, s3 + e);
    lemma_decode_symbol(pairs[1].0, pairs[1].1, s2 + (s3 + e));
    lemma_decode_symbol(pairs[0].0, pairs[0].1, s1 + (s2 + (s3 + e)));
    assert(seq![pairs[0]] + (seq![pairs[1]] + (seq![pairs[2]] + (seq![pairs[3]] + Seq::<
        (Bit, Bit),
    >::empty()))) =~= pairs);
    lemma_pairs_are_msb_first(byte);
    crate::lemma_byte_bits_roundtrip(byte);
}

/// Writing `data + [x]` at `at` is writing `data` there and then `x` right
/// after it.
proof fn lemma_splice_push(buf: Seq<u8>, at: int, data: Seq<u8>, x: u8)
    requires
        0 <= at,
        at + data.len() + 1 <= buf.len(),
    ensures
        splice(buf, at, data.push(x)) == splice(buf, at, data).update(at + data.len(), x),
        splice(buf, at, data).len() == buf.len(),
{
    assert(splice(buf, at, data.push(x)) =~= splice(buf, at, data).update(at + data.len(), x));
}

/// Symbol `p` of a byte is the code of its pair `p`, and each symbol is one
/// or two bytes long.
proof fn lemma_symbol(byte: u8, p: int)
    requires
        0 <= p < 4,
    ensures
        byte_symbols(byte).len() == 4,
        byte_symbols(byte)[p] == pair_code(byte_pairs(byte)[p].0, byte_pairs(byte)[p].1),
        1 <= byte_symbols(byte)[p].len() <= 2,
{
}

/// Counting the symbols that fit, from a prefix that fits, ends at a count
/// no smaller, no larger than the number of symbols, whose bytes fit.
proof fn lemma_fit_count(syms: Seq<Seq<u8>>, space: int, p: nat)
    requires
        p <= syms.len(),
        emitted(syms, p).len() <= space,
    ensures
        p <= fit_count(syms, space, p) <= syms.len(),
        emitted(syms, fit_count(syms, space, p)).len() <= space,
    decreases syms.len() - p,
{
    if p < syms.len() && emitted(syms, p + 1).len() <= space {
        lemma_fit_count(syms, space, p + 1);
    }
}

/// Writing `data` at `at` keeps the buffer's length and every byte outside
/// `[at, at + data.len())`.
proof fn lemma_splice_frame(buf: Seq<u8>, at: int, data: Seq<u8>)
    requires
        0 <= at,
        at + data.len() <= buf.len(),
    ensures
        splice(buf, at, data).len() == buf.len(),
        forall|j: int|
            0 <= j < buf.len() && !(at <= j < at + data.len()) ==> #[trigger] splice(
                buf,
                at,
                data,
            )[j] == buf[j],
{
}

/// Encoding a byte into `space` bytes at `at` writes at most `space` bytes,
/// encodes at most 8 bits, and leaves every byte outside `[at, at + space)`
/// as it was.
pub proof fn lemma_encode_frame(byte: u8, buf: Seq<u8>, at: int, space: int)
    requires
        0 <= at,
        0 <= space,
        at + space <= buf.len(),
    ensures
        ({
            let (buf2, n, bits) = encode_spec(byte, buf, at, space);
            &&& n <= space
            &&& bits <= 8
            &&& buf2.len() == buf.len()
            &&& forall|j: int|
                0 <= j < buf.len() && !(at <= j < at + space) ==> #[trigger] buf2[j] == buf[j]
        }),
{
    let syms = byte_symbols(byte);
    assert(emitted(syms, 0) =~= Seq::<u8>::empty());
    lemma_fit_count(syms, space, 0);
    let k = fit_count(syms, space, 0);
    lemma_splice_frame(buf, at, emitted(syms, k));
}

/// A SPI driver: the region of the shared pool that holds its TXD buffer.
pub struct Driver {
    pool_ptr: usize,
    stack: usize,
}

impl Driver {
    #[verifier::type_invariant]
    spec fn region_fits(self) -> bool {
        self.pool_ptr + self.stack < SPI_POOL_SIZE
    }

    /// Offset of the driver's region in the pool.
    pub closed spec fn spec_pool_offset(self) -> usize {
        self.pool_ptr
    }

    /// Size of the driver's region in the pool.
    pub closed spec fn spec_stack(self) -> usize {
        self.stack
    }

    /// A driver for the pin of `cfg`, with a region of `cfg.max_stack` bytes
    /// reserved from `pool`. The pin must exist and the pool must keep at
    /// least one byte free after the region.
    pub fn new(cfg: Configuration, pool: &mut SpiPool) -> (driver: Self)
        requires
            valid_gpio(cfg.gpio_port, cfg.gpio_pin),
            old(pool).spec_next() + cfg.max_stack < SPI_POOL_SIZE,
        ensures
            driver.spec_pool_offset() == old(pool).spec_next(),
            driver.spec_stack() == cfg.max_stack,
            final(pool).spec_next() == old(pool).spec_next() + cfg.max_stack,
            driver.spec_pool_offset() + driver.spec_stack() < SPI_POOL_SIZE,
    {
        let pool_ptr = pool.reserve(cfg.max_stack);
        Self { pool_ptr, stack: cfg.max_stack }
    }

    /// Offset of the driver's region in the pool.
    pub fn pool_offset(&self) -> (offset: usize)
        ensures
            offset == self.spec_pool_offset(),
            offset + self.spec_stack() < SPI_POOL_SIZE,
    {
        proof {
            use_type_invariant(self);
        }
        self.pool_ptr
    }

    /// Starts sending `data`: nothing of it is written yet.
    pub fn begin_transaction<'a>(&self, data: &'a [Rgb]) -> (tx: Transaction<'a>)
        requires
            data@.len() * 3 <= isize::MAX,
        ensures
            tx.pixels() == data@,
            tx.spec_written() == 0,
            (tx.pixels().len() == tx.spec_written() * 3) <==> data@.len() == 0,
            tx.spec_pool_offset() == self.spec_pool_offset(),
            tx.spec_stack() == self.spec_stack(),
            tx.wf(),
    {
        proof {
            use_type_invariant(self);
        }
        Transaction { data, written: 0, pool_ptr: self.pool_ptr as u32, stack: self.stack }
    }
}

/// The sending of a sequence of pixels through a SPI driver's region.
pub struct Transaction<'a> {
    data: &'a [Rgb],
    written: usize,
    pool_ptr: u32,
    stack: usize,
}

impl<'a> Transaction<'a> {
    /// The pixels to send.
    pub closed spec fn pixels(self) -> Seq<Rgb> {
        self.data@
    }

    /// The pixels to send.
    pub fn data(&self) -> (data: &'a [Rgb])
        ensures
            data@ == self.pixels(),
    {
        self.data
    }

    /// The progress counter: bytes written to the SPI buffer so far.
    pub closed spec fn spec_written(self) -> usize {
        self.written
    }

    /// Offset of the transaction's region in the pool.
    pub closed spec fn spec_pool_offset(self) -> usize {
        self.pool_ptr as usize
    }

    /// Size of the transaction's region in the pool.
    pub closed spec fn spec_stack(self) -> usize {
        self.stack
    }

    /// The transaction's region lies inside the pool and its counter stays
    /// below three bytes per pixel plus one region.
    pub closed spec fn wf(self) -> bool {
        &&& self.pool_ptr + self.stack < SPI_POOL_SIZE
        &&& self.data@.len() * 3 <= isize::MAX
        &&& self.written <= 3 * self.data@.len() + self.stack
    }

    /// Whether the transaction is done: there are three times as many
    /// pixels as the counter says.
    pub fn completed(&self) -> (done: bool)
        ensures
            done == (self.pixels().len() == self.spec_written() * 3),
    {
        if self.written > self.data.len() / 3 {
            false
        } else {
            self.data.len() == self.written * 3
        }
    }

    /// Encodes `byte` into `buffer[start..end]`, symbol by symbol, and stops
    /// at the first symbol that does not fit. Returns the number of bytes
    /// written and the number of bits encoded.
    pub fn encode_byte(&self, byte: u8, buffer: &mut [u8], start: usize, end: usize) -> (res: (
        usize,
        usize,
    ))
        requires
            start <= end <= old(buffer)@.len(),
        ensures
            ({
                let (buf, n, bits) = encode_spec(byte, old(buffer)@, start as int, end - start);
                &&& final(buffer)@ == buf
                &&& res.0 == n
                &&& res.1 == bits
            }),
            res.0 <= end - start,
            res.1 <= 8,
            final(buffer)@.len() == old(buffer)@.len(),
    {
        let ghost syms = byte_symbols(byte);
        let ghost buf0 = buffer@;
        let space = end - start;
        let mut written: usize = 0;
        let mut encoded: usize = 0;
        let mut p: usize = 0;
        let mut stop = false;
        proof {
            assert(splice(buf0, start as int, emitted(syms, 0)) =~= buf0);
        }
        while p < 4 && !stop
            invariant
                p <= 4,
                start <= end <= buf0.len(),
                space == end - start,
                syms == byte_symbols(byte),
                buffer@.len() == buf0.len(),
                written == emitted(syms, p as nat).len(),
                written <= space,
                encoded == 2 * p,
                fit_count(syms, space as int, 0) == if stop {
                    p as nat
                } else {
                    fit_count(syms, space as int, p as nat)
                },
                buffer@ == splice(buf0, start as int, emitted(syms, p as nat)),
            decreases 4 - p + if stop { 0int } else { 1int },
        {
            proof {
                lemma_symbol(byte, p as int);
            }
            let ghost e = emitted(syms, p as nat);
            assert(emitted(syms, (p + 1) as nat) == e + syms[p as int]);
            if written >= space {
                stop = true;
            } else {
                let i: u32 = 7 - 2 * (p as u32);
                let lo: u32 = i - 1;
                let bit0: u8 = (byte >> i) & 1;
                let bit1: u8 = (byte >> lo) & 1;
                assert(bit0 <= 1 && bit1 <= 1) by (bit_vector)
                    requires
                        bit0 == (byte >> i) & 1,
                        bit1 == (byte >> lo) & 1,
                ;
                assert(byte_pairs(byte)[p as int] == (bit_at(byte, i), bit_at(byte, lo)));
                let at = start + written;
                if bit0 == 0 && bit1 == 0 {
                    proof {
                        lemma_splice_push(buf0, start as int, e, 0x88);
                        assert(syms[p as int] =~= seq![0x88u8]);
                    }
                    buffer[at] = 0x88;
                    written = written + 1;
                    encoded = encoded + 2;
                    p = p + 1;
                } else if bit0 == 1 && bit1 == 1 {
                    if space - written >= 2 {
                        proof {
                            lemma_splice_push(buf0, start as int, e, 0xE7);
                            lemma_splice_push(buf0, start as int, e.push(0xE7), 0xE7);
                            assert(syms[p as int] =~= seq![0xE7u8, 0xE7u8]);
                            assert(e.push(0xE7).push(0xE7) =~= e + syms[p as int]);
                        }
                        buffer[at] = 0xE7;
                        buffer[at + 1] = 0xE7;
                        written = written + 2;
                        encoded = encoded + 2;
                        p = p + 1;
                    } else {
                        stop = true;
                    }
                } else if bit0 == 0 && bit1 == 1 {
                    proof {
                        lemma_splice_push(buf0, start as int, e, 0x9C);
                        assert(syms[p as int] =~= seq![0x9Cu8]);
                    }
                    buffer[at] = 0x9C;
                    written = written + 1;
                    encoded = encoded + 2;
                    p = p + 1;
                } else {
                    proof {
                        lemma_splice_push(buf0, start as int, e, 0xE4);
                        assert(syms[p as int] =~= seq![0xE4u8]);
                    }
                    buffer[at] = 0xE4;
                    written = written + 1;
                    encoded = encoded + 2;
                    p = p + 1;
                }
            }
        }
        proof {
            if !stop {
                assert(p == 4);
                assert(fit_count(syms, space as int, 4) == 4);
            }
        }
        (written, encoded)
    }
}

/// What driving a transaction does from pixel `i`, channel `ch` on, with
/// the pool `buf` and `w` bytes already written to the region of `stack`
/// bytes at `base`: the final pool and the number of bytes written.
///
/// Each channel byte is encoded at the current end of what was written. A
/// byte that does not fit whole leaves its partial symbols in the pool
/// uncounted and ends the pixel; so does filling the region. Every pixel
/// starts at channel `first_channel`.
pub open spec fn drive_run(
    data: Seq<Rgb>,
    first_channel: int,
    base: int,
    stack: int,
    i: int,
    ch: int,
    buf: Seq<u8>,
    w: int,
) -> (Seq<u8>, int)
    decreases data.len() - i, 3 - ch,
{
    if i >= data.len() {
        (buf, w)
    } else if ch >= 3 || ch < 0 {
        drive_run(data, first_channel, base, stack, i + 1, first_channel, buf, w)
    } else {
        let (buf2, n, bits) = encode_spec(data[i].grb()[ch], buf, base + w, stack - w);
        if bits != 8 {
            drive_run(data, first_channel, base, stack, i + 1, first_channel, buf2, w)
        } else if w + n >= stack {
            drive_run(data, first_channel, base, stack, i + 1, first_channel, buf2, w + n)
        } else {
            drive_run(data, first_channel, base, stack, i, ch + 1, buf2, w + n)
        }
    }
}

/// Driving writes no more than its region holds, and nothing outside it.
pub proof fn lemma_drive_run_frame(
    data: Seq<Rgb>,
    first_channel: int,
    base: int,
    stack: int,
    i: int,
    ch: int,
    buf: Seq<u8>,
    w: int,
)
    requires
        0 <= base,
        0 <= w <= stack,
        base + stack <= buf.len(),
    ensures
        ({
            let (buf2, w2) = drive_run(data, first_channel, base, stack, i, ch, buf, w);
            &&& w <= w2 <= stack
            &&& buf2.len() == buf.len()
            &&& forall|j: int|
                0 <= j < buf.len() && !(base <= j < base + stack) ==> #[trigger] buf2[j] == buf[j]
        }),
    decreases data.len() - i, 3 - ch,
{
    if i >= data.len() {
    } else if ch >= 3 || ch < 0 {
        lemma_drive_run_frame(data, first_channel, base, stack, i + 1, first_channel, buf, w);
    } else {
        lemma_encode_frame(data[i].grb()[ch], buf, base + w, stack - w);
        let (buf2, n, bits) = encode_spec(data[i].grb()[ch], buf, base + w, stack - w);
        if bits != 8 {
            lemma_drive_run_frame(data, first_channel, base, stack, i + 1, first_channel, buf2, w);
        } else if w + n >= stack {
            lemma_drive_run_frame(
                data,
                first_channel,
                base,
                stack,
                i + 1,
                first_channel,
                buf2,
                w + n,
            );
        } else {
            lemma_drive_run_frame(data, first_channel, base, stack, i, ch + 1, buf2, w + n);
        }
        let (buf3, w3) = drive_run(data, first_channel, base, stack, i, ch, buf, w);
        assert forall|j: int| 0 <= j < buf.len() && !(base <= j < base + stack) implies #[trigger] buf3[j]
            == buf[j] by {
            assert(buf2[j] == buf[j]);
        }
    }
}

/// Driving a transaction leaves every byte of a region that does not overlap
/// its own, such as the region of another driver from the same pool, as it
/// was.
pub proof fn lemma_drive_isolated(
    data: Seq<Rgb>,
    first_channel: int,
    base: int,
    stack: int,
    i: int,
    ch: int,
    buf: Seq<u8>,
    w: int,
    other: int,
    other_size: int,
)
    requires
        0 <= base,
        0 <= w <= stack,
        base + stack <= buf.len(),
        0 <= other,
        0 <= other_size,
        other + other_size <= buf.len(),
        regions_disjoint(base, stack, other, other_size),
    ensures
        forall|j: int|
            other <= j < other + other_size ==> #[trigger] drive_run(
                data,
                first_channel,
                base,
                stack,
                i,
                ch,
                buf,
                w,
            ).0[j] == buf[j],
{
    lemma_drive_run_frame(data, first_channel, base, stack, i, ch, buf, w);
}

/// All four symbols of `byte`: its whole encoding.
pub open spec fn byte_code(byte: u8) -> Seq<u8> {
    emitted(byte_symbols(byte), 4)
}

/// The whole encodings of the channels from pixel `i`, channel `ch` on, one
/// after the other: each pixel's green, red and blue byte, pixels in order.
pub open spec fn channels_code(data: Seq<Rgb>, i: int, ch: int) -> Seq<u8>
    decreases data.len() - i, 3 - ch,
{
    if i >= data.len() {
        Seq::empty()
    } else if ch >= 3 || ch < 0 {
        channels_code(data, i + 1, 0)
    } else {
        byte_code(data[i].grb()[ch]) + channels_code(data, i, ch + 1)
    }
}

/// The bytes of fewer symbols are no longer than those of more.
proof fn lemma_emitted_grows(syms: Seq<Seq<u8>>, a: nat, b: nat)
    requires
        a <= b,
    ensures
        emitted(syms, a).len() <= emitted(syms, b).len(),
    decreases b,
{
    if a < b {
        lemma_emitted_grows(syms, a, (b - 1) as nat);
    }
}

/// When all symbols of a byte fit, all four are counted.
proof fn lemma_fit_all(syms: Seq<Seq<u8>>, space: int, p: nat)
    requires
        syms.len() == 4,
        p <= 4,
        emitted(syms, 4).len() <= space,
    ensures
        fit_count(syms, space, p) == 4,
    decreases 4 - p,
{
    if p < 4 {
        lemma_emitted_grows(syms, p + 1, 4);
        lemma_fit_all(syms, space, p + 1);
    }
}

/// The channels from the next pixel on are a suffix of those from any
/// channel of this pixel on.
proof fn lemma_channels_suffix(data: Seq<Rgb>, i: int, ch: int)
    requires
        0 <= i < data.len(),
        0 <= ch <= 3,
    ensures
        channels_code(data, i + 1, 0).len() <= channels_code(data, i, ch).len(),
    decreases 3 - ch,
{
    if ch < 3 {
        lemma_channels_suffix(data, i, ch + 1);
    }
}

/// The bytes of the first `a` symbols are the start of those of the first
/// `b`, for `a <= b`.
proof fn lemma_emitted_prefix(syms: Seq<Seq<u8>>, a: nat, b: nat)
    requires
        a <= b,
    ensures
        emitted(syms, a).len() <= emitted(syms, b).len(),
        emitted(syms, a) == emitted(syms, b).subrange(0, emitted(syms, a).len() as int),
    decreases b,
{
    if a < b {
        lemma_emitted_prefix(syms, a, (b - 1) as nat);
        let e = emitted(syms, (b - 1) as nat);
        assert(emitted(syms, b) == e + syms[b - 1]);
        assert(emitted(syms, a) =~= emitted(syms, b).subrange(0, emitted(syms, a).len() as int));
    } else {
        assert(emitted(syms, a) =~= emitted(syms, b).subrange(0, emitted(syms, a).len() as int));
    }
}

/// The count of fitting symbols stops only at the end or before a symbol
/// that does not fit.
proof fn lemma_fit_count_stops(syms: Seq<Seq<u8>>, space: int, p: nat)
    requires
        p <= syms.len(),
    ensures
        fit_count(syms, space, p) < syms.len() ==> emitted(syms, fit_count(syms, space, p) + 1).len()
            > space,
    decreases syms.len() - p,
{
    if p < syms.len() && emitted(syms, p + 1).len() <= space {
        lemma_fit_count_stops(syms, space, p + 1);
    }
}

/// Encoding a byte into `space` bytes writes the longest run of its whole
/// symbols, from the first, that fits: a prefix of its full encoding, of at
/// most `space` bytes, with two bits per symbol written; all eight bits are
/// encoded exactly when the full encoding fits, and otherwise the next
/// symbol would not have fitted.
pub proof fn lemma_encode_prefix(byte: u8, buf: Seq<u8>, at: int, space: int)
    requires
        0 <= at,
        0 <= space,
        at + space <= buf.len(),
    ensures
        ({
            let (buf2, n, bits) = encode_spec(byte, buf, at, space);
            &&& n <= space
            &&& n <= byte_code(byte).len()
            &&& buf2 == splice(buf, at, byte_code(byte).subrange(0, n as int))
            &&& bits % 2 == 0
            &&& bits <= 8
            &&& (bits == 8 <==> byte_code(byte).len() <= space)
            &&& bits < 8 ==> n + byte_symbols(byte)[(bits / 2) as int].len() > space
        }),
{
    let syms = byte_symbols(byte);
    assert(emitted(syms, 0) =~= Seq::<u8>::empty());
    lemma_fit_count(syms, space, 0);
    lemma_fit_count_stops(syms, space, 0);
    let k = fit_count(syms, space, 0);
    lemma_emitted_prefix(syms, k, 4);
    if k < 4 {
        assert(emitted(syms, k + 1) == emitted(syms, k) + syms[k as int]);
        lemma_emitted_prefix(syms, k + 1, 4);
    } else {
        assert(k == 4);
    }
    if byte_code(byte).len() <= space {
        lemma_fit_all(syms, space, 0);
    }
}

/// Writing `a` and then `b` right after it is writing `a + b`; writing
/// nothing changes nothing.
proof fn lemma_splice_concat(buf: Seq<u8>, at: int, a: Seq<u8>, b: Seq<u8>)
    requires
        0 <= at,
        at + a.len() + b.len() <= buf.len(),
    ensures
        splice(splice(buf, at, a), at + a.len(), b) == splice(buf, at, a + b),
        splice(buf, at, Seq::empty()) == buf,
{
    assert(splice(splice(buf, at, a), at + a.len(), b) =~= splice(buf, at, a + b));
    assert(splice(buf, at, Seq::empty()) =~= buf);
}

/// From pixel `i`, channel `ch` on, when the remaining channels' whole
/// encodings fit, driving writes them one after the other and counts them.
proof fn lemma_drive_fits(
    data: Seq<Rgb>,
    base: int,
    stack: int,
    i: int,
    ch: int,
    buf: Seq<u8>,
    w: int,
)
    requires
        0 <= base,
        0 <= i,
        0 <= w,
        base + stack <= buf.len(),
        w + channels_code(data, i, ch).len() <= stack,
    ensures
        drive_run(data, 0, base, stack, i, ch, buf, w) == (
            splice(buf, base + w, channels_code(data, i, ch)),
            w + channels_code(data, i, ch).len(),
        ),
    decreases data.len() - i, 3 - ch,
{
    let rest = channels_code(data, i, ch);
    if i >= data.len() {
        lemma_splice_concat(buf, base + w, Seq::empty(), Seq::empty());
    } else if ch >= 3 || ch < 0 {
        lemma_drive_fits(data, base, stack, i + 1, 0, buf, w);
    } else {
        let byte = data[i].grb()[ch];
        let syms = byte_symbols(byte);
        let code = byte_code(byte);
        let after = channels_code(data, i, ch + 1);
        assert(rest == code + after);
        lemma_fit_all(syms, stack - w, 0);
        let buf2 = splice(buf, base + w, code);
        assert(encode_spec(byte, buf, base + w, stack - w) == (buf2, code.len(), 8nat));
        lemma_splice_concat(buf, base + w, code, after);
        if w + code.len() >= stack {
            assert(after.len() == 0);
            assert(after =~= Seq::<u8>::empty());
            lemma_channels_suffix(data, i, ch + 1);
            lemma_drive_fits(data, base, stack, i + 1, 0, buf2, w + code.len());
            lemma_splice_concat(buf2, base + w + code.len(), Seq::empty(), Seq::empty());
            assert(channels_code(data, i + 1, 0) =~= Seq::<u8>::empty());
            assert(code + after =~= code);
        } else {
            lemma_drive_fits(data, base, stack, i, ch + 1, buf2, w + code.len());
        }
    }
}

/// Driving a new transaction whose whole frame fits into its region writes
/// every channel's whole encoding, in order (each pixel's green, red, blue,
/// pixels in order), at the start of the region, and returns their length.
pub proof fn lemma_drive_whole_frame(data: Seq<Rgb>, base: int, stack: int, buf: Seq<u8>)
    requires
        0 <= base,
        base + stack <= buf.len(),
        channels_code(data, 0, 0).len() <= stack,
    ensures
        drive_run(data, 0, base, stack, 0, 0, buf, 0) == (
            splice(buf, base, channels_code(data, 0, 0)),
            channels_code(data, 0, 0).len() as int,
        ),
{
    lemma_drive_fits(data, base, stack, 0, 0, buf, 0);
}

impl<'a> Transaction<'a> {
    /// Encodes as much of the pixels as fits into the transaction's region of
    /// `pool` and advances the progress counter. Returns the number of bytes
    /// to send (the SPI MAXCNT value).
    pub fn drive(&mut self, pool: &mut [u8]) -> (count: usize)
        requires
            old(self).wf(),
            old(pool)@.len() == SPI_POOL_SIZE,
        ensures
            ({
                let (buf, w) = drive_run(
                    old(self).pixels(),
                    (old(self).spec_written() % 3) as int,
                    old(self).spec_pool_offset() as int,
                    old(self).spec_stack() as int,
                    (old(self).spec_written() / 3) as int,
                    (old(self).spec_written() % 3) as int,
                    old(pool)@,
                    0,
                );
                &&& final(pool)@ == buf
                &&& count == w
            }),
            count <= old(self).spec_stack(),
            final(self).spec_written() == old(self).spec_written() + count,
            final(self).pixels() == old(self).pixels(),
            final(self).spec_pool_offset() == old(self).spec_pool_offset(),
            final(self).spec_stack() == old(self).spec_stack(),
            final(self).wf(),
            final(pool)@.len() == old(pool)@.len(),
            forall|j: int|
                0 <= j < old(pool)@.len() && !(old(self).spec_pool_offset() <= j
                    < old(self).spec_pool_offset() + old(self).spec_stack())
                    ==> #[trigger] final(pool)@[j] == old(pool)@[j],
            old(self).spec_written() / 3 >= old(self).pixels().len() ==> count == 0 && final(pool)@
                == old(pool)@,
    {
        let data = self.data;
        let stack = self.stack;
        let base: usize = self.pool_ptr as usize;
        let first_channel = self.written % 3;
        let ghost d = data@;
        let ghost pool0 = pool@;
        let ghost target = drive_run(
            d,
            first_channel as int,
            base as int,
            stack as int,
            (self.written / 3) as int,
            first_channel as int,
            pool0,
            0,
        );
        proof {
            lemma_drive_run_frame(
                d,
                first_channel as int,
                base as int,
                stack as int,
                (self.written / 3) as int,
                first_channel as int,
                pool0,
                0,
            );
        }
        let mut written: usize = 0;
        let mut i: usize = self.written / 3;
        while i < data.len()
            invariant
                data@ == d,
                first_channel < 3,
                written <= stack,
                base + stack < SPI_POOL_SIZE,
                pool@.len() == SPI_POOL_SIZE,
                target == drive_run(
                    d,
                    first_channel as int,
                    base as int,
                    stack as int,
                    i as int,
                    first_channel as int,
                    pool@,
                    written as int,
                ),
            decreases d.len() - i,
        {
            let mut channel: usize = first_channel;
            let mut stop = false;
            while channel < 3 && !stop
                invariant
                    data@ == d,
                    i < d.len(),
                    first_channel < 3,
                    channel <= 3,
                    written <= stack,
                    base + stack < SPI_POOL_SIZE,
                    pool@.len() == SPI_POOL_SIZE,
                    target == if stop {
                        drive_run(
                            d,
                            first_channel as int,
                            base as int,
                            stack as int,
                            i + 1,
                            first_channel as int,
                            pool@,
                            written as int,
                        )
                    } else {
                        drive_run(
                            d,
                            first_channel as int,
                            base as int,
                            stack as int,
                            i as int,
                            channel as int,
                            pool@,
                            written as int,
                        )
                    },
                decreases 3 - channel + if stop {
                    0int
                } else {
                    1int
                },
            {
                let (wc, bits) = self.encode_byte(
                    data[i].grb_channel(channel),
                    pool,
                    base + written,
                    base + stack,
                );
                if bits != 8 {
                    stop = true;
                } else {
                    written = written + wc;
                    if written >= stack {
                        stop = true;
                    } else {
                        channel = channel + 1;
                    }
                }
            }
            i = i + 1;
        }
        self.written = self.written + written;
        written
    }
}

} // verus!
