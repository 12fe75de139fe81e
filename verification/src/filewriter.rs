//! DSD container output: header layout and MSB-first bit packing.

use vstd::prelude::*;

verus! {

/// Little-endian byte `i` of the integer `x`: the value of the byte that a
/// little-endian encoding of `x` places at offset `i`.
pub open spec fn le_byte(x: int, i: nat) -> u8
    decreases i,
{
    if i == 0 {
        (x % 256) as u8
    } else {
        le_byte(x / 256, (i - 1) as nat)
    }
}

/// Number of data bytes collected before a block is handed out to be
/// written to storage.
pub const BLOCK_SIZE: usize = 4096;

/// 2 to the power `n`.
pub open spec fn exp2(n: nat) -> nat
    decreases n,
{
    if n == 0 {
        1
    } else {
        2 * exp2((n - 1) as nat)
    }
}

/// The integer value of a bit sequence read most-significant-bit first.
pub open spec fn pack_bits(bits: Seq<bool>) -> nat
    decreases bits.len(),
{
    if bits.len() == 0 {
        0
    } else {
        2 * pack_bits(bits.drop_last()) + (if bits.last() {
            1nat
        } else {
            0nat
        })
    }
}

/// The `n` low bits of `v`, most-significant first.
pub open spec fn unpack_bits(v: nat, n: nat) -> Seq<bool>
    decreases n,
{
    if n == 0 {
        Seq::empty()
    } else {
        unpack_bits(v / 2, (n - 1) as nat).push(v % 2 == 1)
    }
}

/// The eight bits of a byte, most-significant first.
pub open spec fn byte_bits(x: u8) -> Seq<bool> {
    unpack_bits(x as nat, 8)
}

/// Unpacking `n` bits yields `n` bits.
pub proof fn lemma_unpack_bits_len(v: nat, n: nat)
    ensures
        unpack_bits(v, n).len() == n,
    decreases n,
{
    if n > 0 {
        lemma_unpack_bits_len(v / 2, (n - 1) as nat);
    }
}

/// A byte always unpacks to eight bits.
pub broadcast proof fn lemma_byte_bits_len(x: u8)
    ensures
        (#[trigger] byte_bits(x)).len() == 8,
{
    lemma_unpack_bits_len(x as nat, 8);
}

/// The bit stream held by a byte stream, each byte read
/// most-significant-bit first.
pub open spec fn bytes_to_bits(bytes: Seq<u8>) -> Seq<bool>
    decreases bytes.len(),
{
    if bytes.len() == 0 {
        Seq::empty()
    } else {
        byte_bits(bytes.first()) + bytes_to_bits(bytes.drop_first())
    }
}

/// The byte stream that packs a bit stream, eight bits to a byte,
/// most-significant-bit first; a trailing group of fewer than eight bits is
/// not represented.
pub open spec fn bits_to_bytes(bits: Seq<bool>) -> Seq<u8>
    decreases bits.len(),
{
    if bits.len() < 8 {
        Seq::empty()
    } else {
        seq![pack_bits(bits.take(8)) as u8] + bits_to_bytes(bits.skip(8))
    }
}

/// `n` cleared bits.
pub open spec fn zero_bits(n: nat) -> Seq<bool> {
    Seq::new(n, |i: int| false)
}

/// `bits` extended with cleared bits up to the next byte boundary.
pub open spec fn pad_to_byte(bits: Seq<bool>) -> Seq<bool> {
    bits + zero_bits(((8 - bits.len() % 8) % 8) as nat)
}

/// A packed bit sequence is bounded by two to its length.
pub proof fn lemma_pack_bits_bound(bits: Seq<bool>)
    ensures
        pack_bits(bits) < exp2(bits.len()),
    decreases bits.len(),
{
    if bits.len() > 0 {
        lemma_pack_bits_bound(bits.drop_last());
    }
}

/// Packing one more bit doubles the packed value and adds the bit.
pub proof fn lemma_pack_bits_push(bits: Seq<bool>, b: bool)
    ensures
        pack_bits(bits.push(b)) == 2 * pack_bits(bits) + (if b {
            1nat
        } else {
            0nat
        }),
{
    assert(bits.push(b).drop_last() =~= bits);
    assert(bits.push(b).last() == b);
}

/// Unpacking a packed bit sequence returns it unchanged.
pub proof fn lemma_unpack_pack(bits: Seq<bool>)
    ensures
        unpack_bits(pack_bits(bits), bits.len()) == bits,
    decreases bits.len(),
{
    if bits.len() > 0 {
        let head = bits.drop_last();
        let b = bits.last();
        let p = pack_bits(head);
        lemma_unpack_pack(head);
        assert(pack_bits(bits) == 2 * p + (if b {
            1nat
        } else {
            0nat
        }));
        assert((2 * p + (if b {
            1nat
        } else {
            0nat
        })) / 2 == p);
        assert((2 * p + (if b {
            1nat
        } else {
            0nat
        })) % 2 == (if b {
            1nat
        } else {
            0nat
        }));
        assert(unpack_bits(pack_bits(bits), bits.len()) =~= bits);
    } else {
        assert(unpack_bits(pack_bits(bits), bits.len()) =~= bits);
    }
}

/// Packing distributes over concatenation at a byte boundary.
pub proof fn lemma_bits_to_bytes_concat(a: Seq<bool>, b: Seq<bool>)
    requires
        a.len() % 8 == 0,
    ensures
        bits_to_bytes(a + b) == bits_to_bytes(a) + bits_to_bytes(b),
    decreases a.len(),
{
    if a.len() == 0 {
        assert(a + b =~= b);
        assert(bits_to_bytes(a) =~= Seq::<u8>::empty());
        assert(bits_to_bytes(a + b) =~= bits_to_bytes(a) + bits_to_bytes(b));
    } else {
        assert((a + b).take(8) =~= a.take(8));
        assert((a + b).skip(8) =~= a.skip(8) + b);
        lemma_bits_to_bytes_concat(a.skip(8), b);
        assert(bits_to_bytes(a + b) =~= bits_to_bytes(a) + bits_to_bytes(b));
    }
}

/// A bit stream of whole bytes survives packing and unpacking unchanged:
/// reading the packed bytes most-significant-bit first returns exactly the
/// bits that were packed.
pub proof fn lemma_bit_pack_round_trip(bits: Seq<bool>)
    requires
        bits.len() % 8 == 0,
    ensures
        bytes_to_bits(bits_to_bytes(bits)) == bits,
    decreases bits.len(),
{
    if bits.len() == 0 {
        assert(bytes_to_bits(bits_to_bytes(bits)) =~= bits);
    } else {
        let head = bits.take(8);
        let tail = bits.skip(8);
        let packed = bits_to_bytes(bits);
        assert(head.len() == 8);
        lemma_pack_bits_bound(head);
        assert(exp2(8) == 256) by {
            reveal_with_fuel(exp2, 9);
        }
        assert(packed.first() == pack_bits(head) as u8);
        assert(packed.first() as nat == pack_bits(head));
        lemma_unpack_pack(head);
        assert(byte_bits(packed.first()) == head);
        assert(packed.drop_first() =~= bits_to_bytes(tail));
        lemma_bit_pack_round_trip(tail);
        assert(bytes_to_bits(packed) =~= bits);
    }
}

/// Any bit stream, zero-padded to a byte boundary, survives packing and
/// unpacking: the unpacked stream starts with the original bits and ends
/// with the cleared padding bits.
pub proof fn lemma_bit_pack_round_trip_padded(bits: Seq<bool>)
    ensures
        pad_to_byte(bits).len() % 8 == 0,
        bytes_to_bits(bits_to_bytes(pad_to_byte(bits))) == pad_to_byte(bits),
        pad_to_byte(bits).take(bits.len() as int) == bits,
        forall|i: int|
            bits.len() <= i < pad_to_byte(bits).len() ==> pad_to_byte(bits)[i] == false,
{
    lemma_bit_pack_round_trip(pad_to_byte(bits));
    assert(pad_to_byte(bits).take(bits.len() as int) =~= bits);
}

/// Writes the low four bytes of `input` into `buf` at offset `shift`,
/// least-significant byte first; the rest of `buf` is untouched.
pub fn convert_to_bytes(shift: usize, input: usize, buf: &mut Vec<u8>)
    requires
        shift + 4 <= old(buf).len(),
    ensures
        final(buf).len() == old(buf).len(),
        forall|j: int|
            0 <= j < old(buf).len() && !(shift <= j < shift + 4) ==> final(buf)[j] == old(
                buf,
            )[j],
        forall|i: int|
            0 <= i < 4 ==> final(buf)[shift + i] == #[trigger] le_byte(input as int, i as nat),
{
    let mut x = input;
    let mut i: usize = 0;
    while i < 4
        invariant
            i <= 4,
            shift + 4 <= buf.len(),
            buf.len() == old(buf).len(),
            forall|j: int|
                0 <= j < old(buf).len() && !(shift <= j < shift + 4) ==> buf[j] == old(buf)[j],
            forall|j: int|
                0 <= j < i ==> buf[shift + j] == #[trigger] le_byte(input as int, j as nat),
            forall|j: nat|
                i <= j ==> #[trigger] le_byte(input as int, j) == le_byte(x as int, (j - i) as nat),
        decreases 4 - i,
    {
        buf[shift + i] = (x % 256) as u8;
        assert(le_byte(input as int, i as nat) == le_byte(x as int, 0));
        let ghost old_x = x as int;
        x = x / 256;
        assert forall|j: nat| i + 1 <= j implies #[trigger] le_byte(input as int, j) == le_byte(
            x as int,
            (j - i - 1) as nat,
        ) by {
            assert(le_byte(input as int, j) == le_byte(old_x, (j - i) as nat));
            assert(le_byte(old_x, (j - i) as nat) == le_byte(old_x / 256, (j - i - 1) as nat));
        }
        i = i + 1;
    }
}

/// A whole byte of bits packs to exactly one byte.
pub proof fn lemma_bits_to_bytes_single(chunk: Seq<bool>)
    requires
        chunk.len() == 8,
    ensures
        bits_to_bytes(chunk) == seq![pack_bits(chunk) as u8],
{
    assert(chunk.take(8) =~= chunk);
    assert(chunk.skip(8) =~= Seq::<bool>::empty());
    assert(bits_to_bytes(chunk.skip(8)) =~= Seq::<u8>::empty());
    assert(bits_to_bytes(chunk) =~= seq![pack_bits(chunk) as u8]);
}

/// Doubling never shrinks a power of two.
pub proof fn lemma_exp2_monotone(a: nat, b: nat)
    requires
        a <= b,
    ensures
        exp2(a) <= exp2(b),
    decreases b,
{
    if a < b {
        lemma_exp2_monotone(a, (b - 1) as nat);
    }
}

/// The byte at offset `i` of the 92-byte container header: a 28-byte lead
/// chunk tagged `DSD `, a format chunk tagged `fmt ` of declared size 52
/// holding the format version, the channel count (twice) and the sample
/// rate code, the per-channel sample count and block size, and a `data`
/// tag with the sample count again. Bytes not named here are zero.
pub open spec fn header_byte(channels: int, samples: int, frame_sz: int, i: int) -> u8 {
    if i == 0 {
        0x44
    } else if i == 1 {
        0x53
    } else if i == 2 {
        0x44
    } else if i == 3 {
        0x20
    } else if i == 4 {
        0x1c
    } else if i == 28 {
        0x66
    } else if i == 29 {
        0x6d
    } else if i == 30 {
        0x74
    } else if i == 31 {
        0x20
    } else if i == 32 {
        0x34
    } else if i == 40 {
        0x01
    } else if i == 48 {
        (channels % 256) as u8
    } else if i == 52 {
        (channels % 256) as u8
    } else if i == 57 {
        0x11
    } else if i == 58 {
        0x2b
    } else if i == 60 {
        0x08
    } else if 64 <= i < 68 {
        le_byte(samples, (i - 64) as nat)
    } else if 72 <= i < 76 {
        le_byte(frame_sz, (i - 72) as nat)
    } else if i == 80 {
        0x64
    } else if i == 81 {
        0x61
    } else if i == 82 {
        0x74
    } else if i == 83 {
        0x61
    } else if 84 <= i < 88 {
        le_byte(samples, (i - 84) as nat)
    } else {
        0
    }
}

/// The whole 92-byte container header.
pub open spec fn header_bytes(channels: int, samples: int, frame_sz: int) -> Seq<u8> {
    Seq::new(92, |i: int| header_byte(channels, samples, frame_sz, i))
}

/// Accumulates 1-bit samples into bytes, most-significant-bit first, and
/// groups the completed bytes into blocks of `BLOCK_SIZE` for storage.
/// The file itself is owned by the surrounding program; the writer only
/// prepares the exact bytes that belong in it.
pub struct WriterCtx {
    file_name: String,
    channels: usize,
    samples: usize,
    frame_sz: usize,
    byte_buf: u8,
    pos: u8,
    write_buf: Vec<u8>,
    bits: Ghost<Seq<bool>>,
}

/// A sink for the 1-bit output stream. `new` records the destination and
/// the stream's shape, `write_header` renders the container header, and
/// `write_bit` queues one sample bit, handing back a full block of packed
/// bytes whenever one is ready to be written out.
pub trait Writer: Sized {
    /// The internal bit accounting is consistent.
    spec fn wf(&self) -> bool;

    /// Channel count given at construction.
    spec fn channels_spec(&self) -> int;

    /// Per-channel sample count given at construction.
    spec fn samples_spec(&self) -> int;

    /// Per-channel block size in bytes given at construction.
    spec fn frame_sz_spec(&self) -> int;

    /// The bits accepted since the last completed byte, oldest first.
    spec fn partial_bits(&self) -> Seq<bool>;

    /// The completed bytes not yet handed out as a block.
    spec fn pending(&self) -> Seq<u8>;

    fn new(file_name: String, channels: usize, samples: usize, frame_sz: usize) -> (w: Self)
        ensures
            w.wf(),
            w.channels_spec() == channels,
            w.samples_spec() == samples,
            w.frame_sz_spec() == frame_sz,
            w.partial_bits() == Seq::<bool>::empty(),
            w.pending() == Seq::<u8>::empty(),
    ;

    fn write_header(&self) -> (h: Vec<u8>)
        ensures
            h@ == header_bytes(self.channels_spec(), self.samples_spec(), self.frame_sz_spec()),
    ;

    fn write_bit(&mut self, bit: bool) -> (flush: Option<Vec<u8>>)
        requires
            old(self).wf(),
        ensures
            final(self).wf(),
            final(self).channels_spec() == old(self).channels_spec(),
            final(self).samples_spec() == old(self).samples_spec(),
            final(self).frame_sz_spec() == old(self).frame_sz_spec(),
            ({
                let bits = old(self).partial_bits().push(bit);
                if bits.len() < 8 {
                    &&& final(self).partial_bits() == bits
                    &&& final(self).pending() == old(self).pending()
                    &&& flush is None
                } else {
                    let b = pack_bits(bits) as u8;
                    &&& final(self).partial_bits() == Seq::<bool>::empty()
                    &&& if old(self).pending().len() + 1 == BLOCK_SIZE {
                        &&& flush is Some
                        &&& flush.unwrap()@ == old(self).pending().push(b)
                        &&& final(self).pending() == Seq::<u8>::empty()
                    } else {
                        &&& flush is None
                        &&& final(self).pending() == old(self).pending().push(b)
                    }
                }
            }),
    ;
}

impl Writer for WriterCtx {
    closed spec fn wf(&self) -> bool {
        &&& self.bits@.len() == self.pos
        &&& self.pos <= 7
        &&& self.byte_buf == 2 * pack_bits(self.bits@)
        &&& self.write_buf@.len() < BLOCK_SIZE
    }

    closed spec fn channels_spec(&self) -> int {
        self.channels as int
    }

    closed spec fn samples_spec(&self) -> int {
        self.samples as int
    }

    closed spec fn frame_sz_spec(&self) -> int {
        self.frame_sz as int
    }

    closed spec fn partial_bits(&self) -> Seq<bool> {
        self.bits@
    }

    closed spec fn pending(&self) -> Seq<u8> {
        self.write_buf@
    }

    fn new(file_name: String, channels: usize, samples: usize, frame_sz: usize) -> (w: WriterCtx) {
        WriterCtx {
            file_name,
            channels,
            samples,
            frame_sz,
            byte_buf: 0u8,
            pos: 0u8,
            write_buf: Vec::with_capacity(BLOCK_SIZE),
            bits: Ghost(Seq::empty()),
        }
    }

    fn write_header(&self) -> (h: Vec<u8>) {
        let mut buf: Vec<u8> = Vec::with_capacity(92);
        let mut i: usize = 0;
        while i < 92
            invariant
                i <= 92,
                buf@ == Seq::new(i as nat, |j: int| 0u8),
            decreases 92 - i,
        {
            buf.push(0u8);
            proof {
                assert(buf@ =~= Seq::new((i + 1) as nat, |j: int| 0u8));
            }
            i = i + 1;
        }
        buf[0] = 0x44;  // "D"
        buf[1] = 0x53;  // "S"
        buf[2] = 0x44;  // "D"
        buf[3] = 0x20;  // " "
        buf[4] = 0x1c;  // 28, the lead chunk's size

        buf[28] = 0x66;  // "f"
        buf[29] = 0x6d;  // "m"
        buf[30] = 0x74;  // "t"
        buf[31] = 0x20;  // " "
        buf[32] = 0x34;  // 52, the format chunk's size
        buf[40] = 0x01;  // format version
        buf[48] = (self.channels % 256) as u8;
        buf[52] = (self.channels % 256) as u8;
        buf[56] = 0x00;
        buf[57] = 0x11;
        buf[58] = 0x2b;
        buf[59] = 0x00;
        buf[60] = 0x08;

        convert_to_bytes(64, self.samples, &mut buf);

        convert_to_bytes(72, self.frame_sz, &mut buf);
        buf[80] = 0x64;  // "d"
        buf[81] = 0x61;  // "a"
        buf[82] = 0x74;  // "t"
        buf[83] = 0x61;  // "a"

        convert_to_bytes(84, self.samples, &mut buf);

        proof {
            let ch = self.channels_spec();
            let sa = self.samples_spec();
            let fs = self.frame_sz_spec();
            assert forall|i: int| 0 <= i < 92 implies buf@[i] == header_byte(ch, sa, fs, i) by {
                if 64 <= i < 68 {
                    assert(buf@[i] == le_byte(sa, (i - 64) as nat));
                } else if 72 <= i < 76 {
                    assert(buf@[i] == le_byte(fs, (i - 72) as nat));
                } else if 84 <= i < 88 {
                    assert(buf@[i] == le_byte(sa, (i - 84) as nat));
                }
            }
            assert(buf@ =~= header_bytes(ch, sa, fs));
        }
        buf
    }

    fn write_bit(&mut self, bit: bool) -> (flush: Option<Vec<u8>>) {
        proof {
            lemma_pack_bits_bound(self.bits@);
            lemma_exp2_monotone(self.bits@.len(), 7);
            reveal_with_fuel(exp2, 8);
            assert(exp2(7) == 128);
            lemma_pack_bits_push(self.bits@, bit);
        }
        self.byte_buf = self.byte_buf + if bit {
            1
        } else {
            0
        };
        self.pos = self.pos + 1;
        self.bits = Ghost(self.bits@.push(bit));
        if self.pos == 8 {
            self.write_buf.push(self.byte_buf);
            self.byte_buf = 0;
            self.pos = 0;
            self.bits = Ghost(Seq::empty());
            if self.write_buf.len() == BLOCK_SIZE {
                let mut full: Vec<u8> = Vec::new();
                std::mem::swap(&mut full, &mut self.write_buf);
                Some(full)
            } else {
                None
            }
        } else {
            self.byte_buf = self.byte_buf * 2;
            None
        }
    }
}

impl WriterCtx {
    /// The destination file name given at construction.
    pub closed spec fn file_name_view(&self) -> Seq<char> {
        self.file_name@
    }

    /// Name of the destination file, for the surrounding program to open.
    pub fn file_name(&self) -> (r: &String)
        ensures
            r@ == self.file_name_view(),
    {
        &self.file_name
    }

    /// Closes the bit stream: a final partial byte is completed with
    /// cleared low-order bits, and every byte still queued is returned so
    /// the surrounding program can write it out.
    pub fn finish(&mut self) -> (rest: Vec<u8>)
        requires
            old(self).wf(),
        ensures
            final(self).wf(),
            final(self).partial_bits() == Seq::<bool>::empty(),
            final(self).pending() == Seq::<u8>::empty(),
            ({
                let tail = if old(self).partial_bits().len() == 0 {
                    Seq::<u8>::empty()
                } else {
                    seq![pack_bits(pad_to_byte(old(self).partial_bits())) as u8]
                };
                rest@ == old(self).pending() + tail
            }),
    {
        let ghost orig = self.partial_bits();
        let ghost tail = if orig.len() == 0 {
            Seq::<u8>::empty()
        } else {
            seq![pack_bits(pad_to_byte(orig)) as u8]
        };
        let mut rest: Vec<u8> = Vec::new();
        proof {
            assert(orig + zero_bits(0) =~= orig);
        }
        while self.pos != 0
            invariant
                self.wf(),
                tail == (if orig.len() == 0 {
                    Seq::<u8>::empty()
                } else {
                    seq![pack_bits(pad_to_byte(orig)) as u8]
                }),
                orig.len() == 0 ==> self.pos == 0,
                self.pos != 0 ==> {
                    &&& orig.len() >= 1
                    &&& self.partial_bits() == orig + zero_bits(
                        (self.partial_bits().len() - orig.len()) as nat,
                    )
                    &&& self.partial_bits().len() >= orig.len()
                    &&& self.pending() == old(self).pending()
                    &&& rest@ == Seq::<u8>::empty()
                },
                self.pos == 0 ==> rest@ + self.pending() == old(self).pending() + tail,
            decreases (if self.pos == 0 {
                0int
            } else {
                8int - self.pos
            }),
        {
            let ghost before = self.partial_bits();
            let ghost rest0 = rest@;
            let ghost pend0 = self.pending();
            let flush = self.write_bit(false);
            match flush {
                Option::Some(mut blk) => {
                    rest.append(&mut blk);
                },
                Option::None => {},
            }
            proof {
                if before.len() < 7 {
                    assert(self.partial_bits() =~= orig + zero_bits(
                        (self.partial_bits().len() - orig.len()) as nat,
                    ));
                } else {
                    assert(before.push(false) =~= pad_to_byte(orig));
                    let b = pack_bits(pad_to_byte(orig)) as u8;
                    assert(rest@ + self.pending() =~= pend0.push(b));
                    assert(pend0 + tail =~= pend0.push(b));
                }
            }
        }
        let mut drained: Vec<u8> = Vec::new();
        std::mem::swap(&mut drained, &mut self.write_buf);
        rest.append(&mut drained);
        proof {
            assert(rest@ == old(self).pending() + tail);
        }
        rest
    }
}

/// Packs a bit sequence into bytes exactly as the bit writer does: eight
/// bits to a byte, most-significant-bit first, the final partial byte
/// completed with cleared low-order bits.
pub fn pack_bit_vec(bits: &Vec<bool>) -> (r: Vec<u8>)
    ensures
        r@ == bits_to_bytes(pad_to_byte(bits@)),
{
    let mut w: WriterCtx = Writer::new(String::new(), 0, 0, 0);
    let mut out: Vec<u8> = Vec::new();
    let mut i: usize = 0;
    proof {
        assert(bits@.take(0) =~= Seq::<bool>::empty());
        assert(bits@.subrange(0, 0) =~= Seq::<bool>::empty());
        assert(bits_to_bytes(Seq::<bool>::empty()) =~= Seq::<u8>::empty());
    }
    while i < bits.len()
        invariant
            i <= bits.len(),
            w.wf(),
            w.partial_bits() == bits@.subrange(8 * ((i as int) / 8), i as int),
            out@ + w.pending() == bits_to_bytes(bits@.take(8 * ((i as int) / 8))),
        decreases bits.len() - i,
    {
        let ghost done = 8 * ((i as int) / 8);
        let ghost part0 = w.partial_bits();
        let ghost out0 = out@;
        let ghost pend0 = w.pending();
        let b = bits[i];
        let flush = w.write_bit(b);
        match flush {
            Option::Some(mut blk) => {
                out.append(&mut blk);
            },
            Option::None => {},
        }
        proof {
            if part0.len() < 7 {
                assert(w.partial_bits() =~= bits@.subrange(
                    8 * (((i + 1) as int) / 8),
                    (i + 1) as int,
                ));
            } else {
                let chunk = bits@.subrange(done, done + 8);
                let byte = pack_bits(part0.push(b)) as u8;
                assert(part0.push(b) =~= chunk);
                assert(out@ + w.pending() =~= (out0 + pend0).push(byte));
                assert(bits@.take(done + 8) =~= bits@.take(done) + chunk);
                lemma_bits_to_bytes_concat(bits@.take(done), chunk);
                lemma_bits_to_bytes_single(chunk);
                assert((out0 + pend0).push(byte) =~= bits_to_bytes(bits@.take(done)) + seq![
                    pack_bits(chunk) as u8,
                ]);
                assert(8 * (((i + 1) as int) / 8) == done + 8);
                assert(w.partial_bits() =~= bits@.subrange(
                    8 * (((i + 1) as int) / 8),
                    (i + 1) as int,
                ));
            }
        }
        i = i + 1;
    }
    let ghost done = 8 * ((i as int) / 8);
    let ghost part = bits@.subrange(done, i as int);
    let rest = w.finish();
    out.append(&mut { rest });
    proof {
        let padded = pad_to_byte(bits@);
        if part.len() == 0 {
            assert(padded =~= bits@.take(done));
            assert(out@ =~= bits_to_bytes(padded));
        } else {
            let chunk = pad_to_byte(part);
            assert(chunk =~= part + zero_bits((8 - part.len() % 8) as nat));
            assert(chunk.len() == 8);
            assert(padded =~= bits@.take(done) + chunk);
            lemma_bits_to_bytes_concat(bits@.take(done), chunk);
            lemma_bits_to_bytes_single(chunk);
            assert(out@ =~= bits_to_bytes(padded));
        }
    }
    out
}

} // verus!
