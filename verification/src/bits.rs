//! Packing of 4-bit pixels, done by a `bitbit` bit writer over a byte vector.

use vstd::arithmetic::power2::{lemma2_to64, pow2};
use vstd::prelude::*;

verus! {

/// A `bitbit::BitWriter` that writes into a byte vector of its own.
#[verifier::external_body]
pub struct BitSink {
    inner: bitbit::BitWriter<Vec<u8>>,
}

/// Every bit handed to the writer so far, oldest first.
pub uninterp spec fn written_bits(w: BitSink) -> Seq<bool>;

/// Bit `j` of `val`, bit 0 being the least significant.
pub open spec fn bit(val: int, j: nat) -> bool {
    (val / pow2(j) as int) % 2 == 1
}

/// The lowest `count` bits of `val`, most significant first.
pub open spec fn bits_of(val: u32, count: nat) -> Seq<bool> {
    Seq::new(count, |k: int| bit(val as int, (count - 1 - k) as nat))
}

/// The number of zero bits that fill a stream of `len` bits up to a whole byte.
pub open spec fn padding(len: nat) -> nat {
    ((8 - len % 8) % 8) as nat
}

/// Byte `i` of a bit stream: eight bits, most significant first.
pub open spec fn byte_at(bits: Seq<bool>, i: int) -> u8 {
    ((if bits[8 * i] { 128int } else { 0 }) + (if bits[8 * i + 1] { 64int } else { 0 }) + (if bits[8
        * i + 2] { 32int } else { 0 }) + (if bits[8 * i + 3] { 16int } else { 0 }) + (if bits[8 * i
        + 4] { 8int } else { 0 }) + (if bits[8 * i + 5] { 4int } else { 0 }) + (if bits[8 * i + 6] {
        2int
    } else {
        0
    }) + (if bits[8 * i + 7] { 1int } else { 0 })) as u8
}

/// The whole bytes of a bit stream.
pub open spec fn bytes_of(bits: Seq<bool>) -> Seq<u8> {
    Seq::new(bits.len() / 8, |i: int| byte_at(bits, i))
}

/// The bytes that hold a run of 4-bit values, two to a byte, the first in the high
/// half. Only the low four bits of a value count; an odd run ends in a zero half.
pub open spec fn packed_nibbles(values: Seq<u8>) -> Seq<u8> {
    Seq::new(
        (values.len() + 1) / 2,
        |i: int|
            ((values[2 * i] % 16) * 16 + (if 2 * i + 1 < values.len() {
                values[2 * i + 1] % 16
            } else {
                0
            })) as u8,
    )
}

/// The bit stream of a run of 4-bit values: four bits each, most significant first.
pub open spec fn nibble_stream(values: Seq<u8>) -> Seq<bool> {
    Seq::new(4 * values.len(), |k: int| bit(values[k / 4] as int, (3 - k % 4) as nat))
}

impl BitSink {
    /// `bitbit::BitWriter::new` over an empty vector: nothing is written yet.
    #[verifier::external_body]
    pub(crate) fn new() -> (w: BitSink)
        ensures
            written_bits(w) == Seq::<bool>::empty(),
    {
        BitSink { inner: bitbit::BitWriter::new(Vec::new()) }
    }

    /// `bitbit::BitWriter::write_bits`: appends the lowest `nbits` bits of `val`, most
    /// significant first. The writer fails only when its sink does, and a vector
    /// takes every byte, so the call succeeds.
    #[verifier::external_body]
    pub(crate) fn write_bits(&mut self, val: u32, nbits: usize) -> (ok: bool)
        requires
            1 <= nbits <= 32,
        ensures
            ok,
            written_bits(*final(self)) == written_bits(*old(self)) + bits_of(val, nbits as nat),
    {
        self.inner.write_bits(val, nbits).is_ok()
    }

    /// `bitbit::BitWriter::pad_to_byte`: appends zero bits up to the next byte boundary,
    /// none when the stream ends on one. It succeeds for the reason `write_bits` does.
    #[verifier::external_body]
    pub(crate) fn pad_to_byte(&mut self) -> (ok: bool)
        ensures
            ok,
            written_bits(*final(self)) == written_bits(*old(self)) + Seq::new(
                padding(written_bits(*old(self)).len()),
                |k: int| false,
            ),
    {
        self.inner.pad_to_byte().is_ok()
    }

    /// `bitbit::BitWriter::get_ref`, copied out: the bytes that the writer has handed
    /// to its vector, one for every eight bits written. The writer is left as it is.
    #[verifier::external_body]
    pub(crate) fn bytes(&mut self) -> (out: Vec<u8>)
        ensures
            out@ == bytes_of(written_bits(*old(self))),
            written_bits(*final(self)) == written_bits(*old(self)),
    {
        self.inner.get_ref().clone()
    }
}

/// The low four bits of a byte, read as a number.
proof fn lemma_nibble_value(x: u8)
    ensures
        (if bit(x as int, 3) { 8int } else { 0 }) + (if bit(x as int, 2) { 4int } else { 0 }) + (if bit(
            x as int,
            1,
        ) { 2int } else { 0 }) + (if bit(x as int, 0) { 1int } else { 0 }) == x % 16,
{
    lemma2_to64();
    assert(pow2(0) == 1 && pow2(1) == 2 && pow2(2) == 4 && pow2(3) == 8);
    assert(((x / 8) % 2) * 8 + ((x / 4) % 2) * 4 + ((x / 2) % 2) * 2 + (x % 2) == x % 16)
        by (bit_vector);
    assert(x as int / 1 == x as int);
}

/// Packs 4-bit pixels two to a byte, the first of each pair in the high half.
pub fn pack_nibbles(values: &[u8]) -> (out: Vec<u8>)
    ensures
        out@ == packed_nibbles(values@),
{
    let mut sink = BitSink::new();
    let mut i: usize = 0;
    proof {
        assert(written_bits(sink) =~= nibble_stream(values@.take(0)));
    }
    while i < values.len()
        invariant
            i <= values@.len(),
            written_bits(sink) == nibble_stream(values@.take(i as int)),
        decreases values@.len() - i,
    {
        let ghost before = written_bits(sink);
        let v: u8 = values[i];
        sink.write_bits(v as u32, 4);
        proof {
            let now = nibble_stream(values@.take(i + 1));
            assert(written_bits(sink).len() == now.len());
            assert forall|k: int| 0 <= k < now.len() implies written_bits(sink)[k] == now[k] by {
                if k < 4 * i {
                    assert(values@.take(i + 1)[k / 4] == values@.take(i as int)[k / 4]);
                } else {
                    assert(k / 4 == i && k % 4 == k - 4 * i);
                    assert(written_bits(sink)[k] == bits_of(v as u32, 4)[k - 4 * i]);
                }
            }
            assert(written_bits(sink) =~= now);
        }
        i += 1;
    }
    sink.pad_to_byte();
    let out = sink.bytes();
    proof {
        assert(values@.take(i as int) =~= values@);
        let n = values@.len();
        let stream = nibble_stream(values@);
        let bits = written_bits(sink);
        assert(bits.len() == 8 * ((n + 1) / 2));
        assert(out@.len() == packed_nibbles(values@).len());
        assert forall|b: int| 0 <= b < out@.len() implies out@[b] == packed_nibbles(values@)[b] by {
            let hi = values@[2 * b] as int;
            lemma_nibble_value(values@[2 * b]);
            assert(bits[8 * b] == stream[8 * b] && stream[8 * b] == bit(hi, 3));
            assert(bits[8 * b + 1] == stream[8 * b + 1] && stream[8 * b + 1] == bit(hi, 2));
            assert(bits[8 * b + 2] == stream[8 * b + 2] && stream[8 * b + 2] == bit(hi, 1));
            assert(bits[8 * b + 3] == stream[8 * b + 3] && stream[8 * b + 3] == bit(hi, 0));
            if 2 * b + 1 < n {
                let lo = values@[2 * b + 1] as int;
                lemma_nibble_value(values@[2 * b + 1]);
                assert(bits[8 * b + 4] == stream[8 * b + 4] && stream[8 * b + 4] == bit(lo, 3));
                assert(bits[8 * b + 5] == stream[8 * b + 5] && stream[8 * b + 5] == bit(lo, 2));
                assert(bits[8 * b + 6] == stream[8 * b + 6] && stream[8 * b + 6] == bit(lo, 1));
                assert(bits[8 * b + 7] == stream[8 * b + 7] && stream[8 * b + 7] == bit(lo, 0));
            } else {
                assert(8 * b + 4 >= stream.len());
                assert(!bits[8 * b + 4] && !bits[8 * b + 5] && !bits[8 * b + 6] && !bits[8 * b + 7]);
            }
        }
        assert(out@ =~= packed_nibbles(values@));
    }
    out
}

} // verus!
