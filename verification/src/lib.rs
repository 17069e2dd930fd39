//! A bit-level reader for byte-oriented input, as used by self-describing
//! scientific binary message formats whose field widths, scales and reference
//! offsets are supplied externally rather than fixed by a schema.
//!
//! [`BitBuffer`] wraps an in-memory byte source together with a declared
//! consumption budget, stages bytes in a fixed-capacity internal buffer, and
//! extracts arbitrarily wide, non-byte-aligned fields: unsigned integers,
//! reference-offset signed integers, and byte-aligned text. A numeric field
//! whose bits are all ones at exactly its declared width denotes a missing
//! observation and is returned as absent rather than as the literal maximum.

use vstd::prelude::*;
use vstd::arithmetic::power2::pow2;

pub mod bits;

use crate::bits::{field_value, all_ones, text_field_bytes};

verus! {

/// Interprets raw bytes as UTF-8 text.
///
/// Relies on `String::from_utf8`: it returns `Ok` exactly when the bytes
/// are valid UTF-8, and the string then holds precisely those bytes — the
/// same UTF-8 model vstd uses to relate a string to its bytes.
#[verifier::external_body]
fn string_from_utf8(bytes: Vec<u8>) -> (r: Option<String>)
    ensures
        match r {
            Some(s) => vstd::utf8::valid_utf8(bytes@) && s@ == vstd::utf8::decode_utf8(bytes@),
            None => !vstd::utf8::valid_utf8(bytes@),
        },
{
    String::from_utf8(bytes).ok()
}

/// Widest numeric field, in bits, that a single read may request.
pub const MAX_BIT_WIDTH: usize = 64;

/// Capacity of the staging buffer in bytes: room for eight maximal fields.
pub const BUF_SIZE: usize = 64;

/// Why a read failed. The first error aborts the in-progress read; decoding
/// is not resumable mid-field, the caller discards the reader.
#[derive(Clone, Copy, Debug, PartialEq, Eq, Structural)]
pub enum BitBufferError {
    /// The source could not supply the exact number of bytes a refill
    /// requested, or the declared byte budget is spent.
    SourceExhausted,
    /// A decoded value does not fit the requested target type, or a signed
    /// value plus its reference offset leaves the signed 64-bit range.
    ConversionOverflow,
    /// A text field's raw bytes are not valid UTF-8.
    EncodingInvalid,
    /// The caller requested a width of zero, a width over the supported
    /// maximum, or a text width that is not a multiple of eight.
    PreconditionViolated,
}

/// Division by eight splits a bit index into its byte and its bit offset.
proof fn lemma_div8(q: int, r: int)
    requires
        0 <= r < 8,
    ensures
        (8 * q + r) / 8 == q,
{
    assert((8 * q + r) / 8 == q) by (nonlinear_arith)
        requires
            0 <= r < 8,
    ;
}

/// How many bytes one refill demands from the source: a full buffer when
/// the budget allows, otherwise exactly the remaining permitted bytes —
/// never more, however much further data the source holds.
pub open spec fn refill_request(budget: int, pulled: int) -> int {
    if budget - pulled >= BUF_SIZE as int {
        BUF_SIZE as int
    } else {
        budget - pulled
    }
}

/// Facts about whole buffer-sized chunks of `d` remaining source bytes.
proof fn lemma_div_by_buf_size(d: int)
    requires
        0 <= d,
    ensures
        d / (BUF_SIZE as int) >= 0,
        d < BUF_SIZE <==> d / (BUF_SIZE as int) == 0,
        d >= BUF_SIZE ==> (d - BUF_SIZE) / (BUF_SIZE as int) == d / (BUF_SIZE as int) - 1,
{
    assert(d / 64int >= 0 && (d < 64 <==> d / 64int == 0) && (d >= 64 ==> (d - 64) / 64int == d
        / 64int - 1)) by (nonlinear_arith)
        requires
            0 <= d,
    ;
}

/// A bit-level reader over an in-memory byte source.
///
/// Bits are consumed most-significant first. Bytes move from the source into
/// the staging buffer in bulk refills; the cursor (`byte_position`,
/// `bit_position`) walks the staged bytes bit by bit.
pub struct BitBuffer {
    /// The byte source for this decode.
    source: Vec<u8>,
    /// How many source bytes this reader may consume in total.
    max_bytes_to_read: usize,
    /// How many source bytes have been pulled by refills so far.
    bytes_read: usize,
    /// The staging buffer; always `BUF_SIZE` bytes long.
    buffer: Vec<u8>,
    /// Number of valid staged bytes; bytes beyond this are stale.
    buffer_len: usize,
    /// Byte cursor into the staged bytes.
    byte_position: usize,
    /// Bit cursor into the current staged byte, 0..8.
    bit_position: usize,
}

impl BitBuffer {
    /// The whole byte source.
    pub closed spec fn stream(self) -> Seq<u8> {
        self.source@
    }

    /// The declared consumption budget, in bytes.
    pub closed spec fn budget(self) -> int {
        self.max_bytes_to_read as int
    }

    /// Source bytes pulled by refills so far.
    pub closed spec fn pulled(self) -> int {
        self.bytes_read as int
    }

    /// Bits handed out to the caller so far: the global bit index of the
    /// read cursor within the source.
    pub closed spec fn consumed(self) -> int {
        8 * (self.bytes_read - self.buffer_len + self.byte_position) + self.bit_position
    }

    /// Bits staged in the buffer but not yet consumed.
    pub closed spec fn staged_bits(self) -> int {
        8 * (self.buffer_len - self.byte_position) - self.bit_position
    }

    /// Source bytes that future refills can still deliver. Every refill
    /// demands an exact-length read of `min(BUF_SIZE, budget remaining)`
    /// bytes, so when the source is shorter than the budget only whole
    /// buffer-sized chunks of it are reachable.
    pub open spec fn supplyable(self) -> int {
        if self.stream().len() >= self.budget() {
            self.budget() - self.pulled()
        } else {
            (BUF_SIZE as int) * ((self.stream().len() - self.pulled()) / (BUF_SIZE as int))
        }
    }

    /// Bits the reader can still deliver before it must fail with
    /// [`BitBufferError::SourceExhausted`]: staged bits plus all bits that
    /// future refills can bring in.
    pub open spec fn avail_bits(self) -> int {
        self.staged_bits() + 8 * self.supplyable()
    }

    /// The value of the next `bits`-bit field under the cursor: what the
    /// coming read of that width returns, before any sentinel or conversion
    /// rule is applied.
    pub open spec fn next_field(self, bits: int) -> int {
        field_value(self.stream(), self.consumed(), bits)
    }

    /// Internal well-formedness: cursor within the staged bytes, budget not
    /// exceeded, and the staged bytes mirror the source bytes most recently
    /// pulled.
    pub closed spec fn inv(self) -> bool {
        &&& self.buffer@.len() == BUF_SIZE
        &&& self.buffer_len <= BUF_SIZE
        &&& self.byte_position <= self.buffer_len
        &&& self.bit_position < 8
        &&& (self.byte_position == self.buffer_len ==> self.bit_position == 0)
        &&& self.bytes_read <= self.max_bytes_to_read
        &&& self.bytes_read <= self.source@.len()
        &&& self.buffer_len <= self.bytes_read
        &&& forall|i: int|
            0 <= i < self.buffer_len ==> self.buffer@[i] == self.source@[self.bytes_read
                - self.buffer_len + i]
    }

    /// Creates a reader over `source` that may consume at most
    /// `max_bytes_to_read` of its bytes. No byte is pulled yet; the first
    /// read triggers the first refill.
    pub fn new(source: Vec<u8>, max_bytes_to_read: usize) -> (r: BitBuffer)
        ensures
            r.inv(),
            r.stream() == source@,
            r.budget() == max_bytes_to_read as int,
            r.pulled() == 0,
            r.consumed() == 0,
            r.staged_bits() == 0,
    {
        let mut buffer: Vec<u8> = Vec::new();
        let mut i: usize = 0;
        while i < BUF_SIZE
            invariant
                buffer@.len() == i,
                i <= BUF_SIZE,
            decreases BUF_SIZE - i,
        {
            buffer.push(0u8);
            i += 1;
        }
        BitBuffer {
            source,
            max_bytes_to_read,
            bytes_read: 0,
            buffer,
            buffer_len: 0,
            byte_position: 0,
            bit_position: 0,
        }
    }

    /// Total bytes pulled from the source so far, for progress tracking.
    pub fn bytes_read(&self) -> (r: usize)
        ensures
            r as int == self.pulled(),
    {
        self.bytes_read
    }

    /// Bits staged in the buffer and not yet consumed.
    fn bits_remaining_in_buffer(&self) -> (r: usize)
        requires
            self.inv(),
        ensures
            r as int == self.staged_bits(),
    {
        (self.buffer_len - self.byte_position) * 8 - self.bit_position
    }

    /// Pulls the next chunk of bytes from the source into the staging buffer:
    /// the full buffer capacity if the budget allows, otherwise exactly the
    /// remaining permitted bytes. The source must supply the exact length or
    /// the refill fails; a spent budget fails the same way. Resets both
    /// cursors on success.
    fn refill_buffer(&mut self) -> (r: Result<(), BitBufferError>)
        requires
            old(self).inv(),
            old(self).staged_bits() == 0,
        ensures
            final(self).inv(),
            final(self).stream() == old(self).stream(),
            final(self).budget() == old(self).budget(),
            r is Ok <==> old(self).supplyable() >= 1,
            r is Ok ==> {
                &&& final(self).consumed() == old(self).consumed()
                &&& final(self).avail_bits() == old(self).avail_bits()
                &&& final(self).staged_bits() >= 8
                &&& final(self).bit_position == 0
                &&& final(self).byte_position == 0
                &&& final(self).buffer_len as int == refill_request(
                    old(self).budget(),
                    old(self).pulled(),
                )
                &&& final(self).pulled() == old(self).pulled() + refill_request(
                    old(self).budget(),
                    old(self).pulled(),
                )
            },
            r is Err ==> *final(self) == *old(self) && r == Err::<(), BitBufferError>(
                BitBufferError::SourceExhausted,
            ),
    {
        proof {
            lemma_div_by_buf_size(old(self).stream().len() - old(self).pulled());
        }
        let remaining = self.max_bytes_to_read - self.bytes_read;
        if remaining == 0 {
            return Err(BitBufferError::SourceExhausted);
        }
        let k = if remaining >= BUF_SIZE {
            BUF_SIZE
        } else {
            remaining
        };
        if self.source.len() - self.bytes_read < k {
            return Err(BitBufferError::SourceExhausted);
        }
        let mut i: usize = 0;
        while i < k
            invariant
                i <= k,
                1 <= k <= BUF_SIZE,
                self.buffer@.len() == BUF_SIZE,
                self.bytes_read + k <= self.source@.len(),
                self.bytes_read + k <= usize::MAX,
                forall|j: int|
                    0 <= j < i ==> self.buffer@[j] == self.source@[self.bytes_read + j],
                self.source@ == old(self).source@,
                self.bytes_read == old(self).bytes_read,
                self.max_bytes_to_read == old(self).max_bytes_to_read,
                self.buffer_len == old(self).buffer_len,
                self.byte_position == old(self).byte_position,
                self.bit_position == old(self).bit_position,
            decreases k - i,
        {
            let b = self.source[self.bytes_read + i];
            self.buffer[i] = b;
            i += 1;
        }
        self.buffer_len = k;
        self.bytes_read = self.bytes_read + k;
        self.byte_position = 0;
        self.bit_position = 0;
        proof {
            lemma_div_by_buf_size(self.stream().len() - self.pulled());
        }
        Ok(())
    }

    /// The staged byte under the cursor, refilling the buffer first when
    /// every staged bit has been consumed. Does not advance the cursor.
    fn next_byte(&mut self) -> (r: Result<u8, BitBufferError>)
        requires
            old(self).inv(),
        ensures
            final(self).inv(),
            final(self).stream() == old(self).stream(),
            final(self).budget() == old(self).budget(),
            r is Ok <==> (old(self).staged_bits() > 0 || old(self).supplyable() >= 1),
            old(self).staged_bits() > 0 ==> *final(self) == *old(self),
            old(self).staged_bits() == 0 && r is Ok ==> final(self).pulled() == old(self).pulled()
                + refill_request(old(self).budget(), old(self).pulled()),
            final(self).pulled() >= old(self).pulled(),
            r matches Ok(b) ==> {
                &&& final(self).consumed() == old(self).consumed()
                &&& final(self).avail_bits() == old(self).avail_bits()
                &&& final(self).bit_position == old(self).bit_position
                &&& final(self).staged_bits() >= 8 - final(self).bit_position
                &&& final(self).byte_position < final(self).buffer_len
                &&& b == final(self).stream()[final(self).consumed() / 8]
            },
            r is Err ==> *final(self) == *old(self) && r == Err::<u8, BitBufferError>(
                BitBufferError::SourceExhausted,
            ) && old(self).staged_bits() == 0 && old(self).supplyable() <= 0,
    {
        if self.bits_remaining_in_buffer() == 0 {
            match self.refill_buffer() {
                Ok(()) => {},
                Err(e) => {
                    return Err(e);
                },
            }
        }
        proof {
            lemma_div8(self.bytes_read - self.buffer_len + self.byte_position,
                self.bit_position as int);
        }
        Ok(self.buffer[self.byte_position])
    }

    /// Reads `bits` bits (one to eight), most significant first, advancing
    /// the cursor; the span may be split across two staged bytes.
    #[verifier::rlimit(100)]
    fn read_u8(&mut self, bits: usize) -> (r: Result<u8, BitBufferError>)
        requires
            old(self).inv(),
            1 <= bits <= 8,
        ensures
            final(self).inv(),
            final(self).stream() == old(self).stream(),
            final(self).budget() == old(self).budget(),
            final(self).pulled() >= old(self).pulled(),
            r is Ok <==> old(self).avail_bits() >= bits,
            r matches Ok(v) ==> {
                &&& final(self).consumed() == old(self).consumed() + bits
                &&& final(self).avail_bits() == old(self).avail_bits() - bits
                &&& v as int == field_value(old(self).stream(), old(self).consumed(), bits as int)
            },
            r is Err ==> r == Err::<u8, BitBufferError>(BitBufferError::SourceExhausted),
    {
        proof {
            old(self).lemma_bytes_read_accounting();
        }
        let ghost c0 = old(self).consumed();
        let ghost s = old(self).bit_position as int;
        let bits_left_in_byte = 8 - self.bit_position;
        if bits_left_in_byte < bits {
            // The span crosses a byte boundary: the rest of the current byte
            // supplies the high bits, the head of the next byte the low bits.
            let num_bits_in_next_byte = bits - bits_left_in_byte;
            let byte = match self.next_byte() {
                Ok(b) => b,
                Err(e) => {
                    return Err(e);
                },
            };
            let ghost g = self.consumed() / 8;
            proof {
                lemma_div8(
                    self.bytes_read - self.buffer_len + self.byte_position,
                    self.bit_position as int,
                );
                bits::lemma_extract_bits(self.stream(), g, s, bits_left_in_byte as int);
                assert(byte >> 0u8 == byte) by (bit_vector);
            }
            let high = byte & (0xFFu8 >> ((8 - bits_left_in_byte) as u8));
            let val = high << (num_bits_in_next_byte as u8);
            self.bit_position = 0;
            self.byte_position = self.byte_position + 1;
            proof {
                lemma_div8(self.bytes_read - self.buffer_len + self.byte_position, 0);
            }
            let byte2 = match self.next_byte() {
                Ok(b) => b,
                Err(e) => {
                    return Err(e);
                },
            };
            proof {
                bits::lemma_extract_bits(self.stream(), g + 1, 0, num_bits_in_next_byte as int);
            }
            let low = byte2 >> ((8 - num_bits_in_next_byte) as u8);
            let v = val | low;
            self.bit_position = num_bits_in_next_byte;
            proof {
                let bl8 = bits_left_in_byte as u8;
                let nb8 = num_bits_in_next_byte as u8;
                let ms8: u8 = (8 - bits_left_in_byte) as u8;
                let mn8: u8 = (8 - num_bits_in_next_byte) as u8;
                assert(high <= 0xFFu8 >> ms8 && (byte2 >> mn8) & (0xFFu8 >> mn8) == byte2 >> mn8
                    && byte2 >> mn8 <= 0xFFu8 >> mn8) by (bit_vector)
                    requires
                        1 <= nb8 <= 7,
                        mn8 == 8 - nb8,
                        high == byte & (0xFFu8 >> ms8),
                ;
                assert((high << nb8) | low == high * (1u8 << nb8) + low && high * (1u8 << nb8)
                    + low < 256) by (bit_vector)
                    requires
                        1 <= bl8 <= 7,
                        1 <= nb8 <= 7,
                        bl8 + nb8 <= 8,
                        ms8 == 8 - bl8,
                        mn8 == 8 - nb8,
                        high <= 0xFFu8 >> ms8,
                        low <= 0xFFu8 >> mn8,
                ;
                assert((1u8 << nb8) as int == pow2(nb8 as nat)) by {
                    vstd::arithmetic::power2::lemma2_to64();
                    if nb8 < 7 {
                        vstd::arithmetic::power2::lemma_pow2_strictly_increases(
                            nb8 as nat,
                            7nat,
                        );
                    }
                    vstd::bits::lemma_u8_shl_is_mul(1u8, nb8);
                };
                bits::lemma_field_value_concat(
                    self.stream(),
                    c0,
                    bits_left_in_byte as int,
                    num_bits_in_next_byte as int,
                );
            }
            Ok(v)
        } else {
            // The whole span lies in the current staged byte.
            let byte = match self.next_byte() {
                Ok(b) => b,
                Err(e) => {
                    return Err(e);
                },
            };
            let ghost g = self.consumed() / 8;
            proof {
                lemma_div8(
                    self.bytes_read - self.buffer_len + self.byte_position,
                    self.bit_position as int,
                );
                bits::lemma_extract_bits(self.stream(), g, s, bits as int);
            }
            let offset = (bits_left_in_byte - bits) as u8;
            let mask = 0xFFu8 >> ((8 - bits) as u8);
            let v = (byte >> offset) & mask;
            self.bit_position = self.bit_position + bits;
            if self.bit_position == 8 {
                self.bit_position = 0;
                self.byte_position = self.byte_position + 1;
            }
            Ok(v)
        }
    }

    /// How many bytes it takes to hold `n` bits.
    fn num_bytes_to_hold_bits(n: usize) -> (r: usize)
        ensures
            n % 8 == 0 ==> r == n / 8,
            n % 8 != 0 ==> r == n / 8 + 1,
    {
        if n % 8 == 0 {
            n / 8
        } else {
            n / 8 + 1
        }
    }

    /// Reads an `n`-bit field into a `u64`, most significant bits first, as
    /// a short first pull followed by whole-byte pulls.
    fn read_n_bits(&mut self, n: usize) -> (r: Result<u64, BitBufferError>)
        requires
            old(self).inv(),
            1 <= n <= 64,
        ensures
            final(self).inv(),
            final(self).stream() == old(self).stream(),
            final(self).budget() == old(self).budget(),
            final(self).pulled() >= old(self).pulled(),
            r is Ok <==> old(self).avail_bits() >= n,
            r matches Ok(v) ==> {
                &&& final(self).consumed() == old(self).consumed() + n
                &&& final(self).avail_bits() == old(self).avail_bits() - n
                &&& v as int == field_value(old(self).stream(), old(self).consumed(), n as int)
            },
            r is Err ==> r == Err::<u64, BitBufferError>(BitBufferError::SourceExhausted),
    {
        let ghost c0 = old(self).consumed();
        let total_bytes = Self::num_bytes_to_hold_bits(n);
        let bits_first_byte = n - 8 * (total_bytes - 1);
        let first = match self.read_u8(bits_first_byte) {
            Ok(b) => b,
            Err(e) => {
                return Err(e);
            },
        };
        let mut val: u64 = first as u64;
        proof {
            bits::lemma_field_value_bound(
                old(self).stream(),
                c0,
                bits_first_byte as int,
            );
            vstd::arithmetic::power2::lemma2_to64();
            if bits_first_byte < 8 {
                vstd::arithmetic::power2::lemma_pow2_strictly_increases(
                    bits_first_byte as nat,
                    8nat,
                );
            }
        }
        let mut i: usize = 1;
        while i < total_bytes
            invariant
                self.inv(),
                self.stream() == old(self).stream(),
                self.budget() == old(self).budget(),
                self.pulled() >= old(self).pulled(),
                1 <= i <= total_bytes,
                total_bytes <= 8,
                1 <= bits_first_byte <= 8,
                n == bits_first_byte + 8 * (total_bytes - 1),
                self.consumed() == c0 + bits_first_byte + 8 * (i - 1),
                self.avail_bits() == old(self).avail_bits() - (bits_first_byte + 8 * (i - 1)),
                val as int == field_value(
                    old(self).stream(),
                    c0,
                    bits_first_byte + 8 * (i - 1),
                ),
                (val as int) < pow2((bits_first_byte + 8 * (i - 1)) as nat),
            decreases total_bytes - i,
        {
            let ghost done = bits_first_byte + 8 * (i - 1);
            let b = match self.read_u8(8) {
                Ok(b) => b,
                Err(e) => {
                    return Err(e);
                },
            };
            proof {
                vstd::arithmetic::power2::lemma2_to64();
                vstd::arithmetic::power2::lemma2_to64_rest();
                if done < 56 {
                    vstd::arithmetic::power2::lemma_pow2_strictly_increases(
                        done as nat,
                        56nat,
                    );
                }
                assert((val << 8u64) | (b as u64) == val * 256 + (b as u64) && val * 256 + (
                b as u64) < 0x100000000000000 * 256) by (bit_vector)
                    requires
                        val < 0x100000000000000u64,
                ;
                bits::lemma_field_value_concat(old(self).stream(), c0, done as int, 8);
                bits::lemma_field_value_bound(old(self).stream(), c0, done + 8);
                vstd::arithmetic::power2::lemma_pow2_adds(done as nat, 8nat);
            }
            val = (val << 8u64) | (b as u64);
            i += 1;
        }
        proof {
            self.lemma_bytes_read_accounting();
        }
        Ok(val)
    }

    /// Reads an unsigned field of one to sixty-four bits and applies the
    /// missing-value rule: a field whose bits are all ones at exactly its
    /// declared width denotes a missing observation and comes back as
    /// `None`; any other pattern is the literal big-endian value.
    fn read_u64(&mut self, bits: usize) -> (r: Result<Option<u64>, BitBufferError>)
        requires
            old(self).inv(),
            1 <= bits <= 64,
        ensures
            final(self).inv(),
            final(self).stream() == old(self).stream(),
            final(self).budget() == old(self).budget(),
            final(self).pulled() >= old(self).pulled(),
            r is Ok <==> old(self).avail_bits() >= bits,
            r matches Ok(opt) ==> {
                let raw = field_value(old(self).stream(), old(self).consumed(), bits as int);
                &&& final(self).consumed() == old(self).consumed() + bits
                &&& final(self).avail_bits() == old(self).avail_bits() - bits
                &&& match opt {
                    Some(v) => v as int == raw && raw != all_ones(bits as int),
                    None => raw == all_ones(bits as int),
                }
            },
            r is Err ==> r == Err::<Option<u64>, BitBufferError>(BitBufferError::SourceExhausted),
    {
        let val = match self.read_n_bits(bits) {
            Ok(v) => v,
            Err(e) => {
                return Err(e);
            },
        };
        proof {
            vstd::arithmetic::power2::lemma2_to64();
            vstd::arithmetic::power2::lemma2_to64_rest();
            if bits < 64 {
                vstd::bits::lemma_u64_pow2_no_overflow(bits as nat);
                vstd::bits::lemma_u64_shl_is_mul(1u64, bits as u64);
                vstd::arithmetic::power2::lemma_pow2_pos(bits as nat);
            }
        }
        let ones: u64 = if bits == 64 {
            u64::MAX
        } else {
            (1u64 << (bits as u64)) - 1
        };
        if val == ones {
            Ok(None)
        } else {
            Ok(Some(val))
        }
    }

    /// Reads an unsigned field of `bits` bits, most significant first,
    /// possibly spanning byte boundaries. Returns `Ok(None)` when the field
    /// is the all-ones missing-value sentinel of exactly its declared
    /// width, `Ok(Some(value))` otherwise; fails with a precondition error
    /// on a width of zero or over [`MAX_BIT_WIDTH`], with source-exhausted
    /// when the budget or the source cannot cover the field, and with a
    /// conversion error when the value does not fit the target type.
    pub fn read_usize(&mut self, bits: usize) -> (r: Result<Option<usize>, BitBufferError>)
        requires
            old(self).inv(),
        ensures
            final(self).inv(),
            final(self).stream() == old(self).stream(),
            final(self).budget() == old(self).budget(),
            final(self).pulled() >= old(self).pulled(),
            !(1 <= bits <= MAX_BIT_WIDTH) ==> *final(self) == *old(self) && (r matches Err(e)
                && e == BitBufferError::PreconditionViolated),
            1 <= bits <= MAX_BIT_WIDTH ==> {
                let raw = old(self).next_field(bits as int);
                &&& old(self).avail_bits() < bits ==> (r matches Err(e) && e
                    == BitBufferError::SourceExhausted)
                &&& old(self).avail_bits() >= bits ==> {
                    &&& final(self).consumed() == old(self).consumed() + bits
                    &&& final(self).avail_bits() == old(self).avail_bits() - bits
                    &&& raw == all_ones(bits as int) ==> (r matches Ok(o) && o is None)
                    &&& raw != all_ones(bits as int) && raw <= usize::MAX ==> (r matches Ok(o)
                        && o matches Some(v) && v as int == raw)
                    &&& raw != all_ones(bits as int) && raw > usize::MAX ==> (r matches Err(e)
                        && e == BitBufferError::ConversionOverflow)
                }
            },
    {
        if bits == 0 || bits > MAX_BIT_WIDTH {
            return Err(BitBufferError::PreconditionViolated);
        }
        let val = match self.read_u64(bits) {
            Ok(v) => v,
            Err(e) => {
                return Err(e);
            },
        };
        match val {
            Some(v) => {
                if v <= usize::MAX as u64 {
                    Ok(Some(v as usize))
                } else {
                    Err(BitBufferError::ConversionOverflow)
                }
            },
            None => Ok(None),
        }
    }

    /// Reads an unsigned field of `bits` bits and reinterprets it against
    /// the field's declared reference offset: the decoded value is the raw
    /// unsigned value plus `reference_value`. Returns `Ok(None)` under the
    /// same all-ones missing-value rule; fails with a conversion error when
    /// the sum leaves the signed 64-bit range rather than truncating.
    pub fn read_i64(&mut self, bits: usize, reference_value: i64) -> (r: Result<
        Option<i64>,
        BitBufferError,
    >)
        requires
            old(self).inv(),
        ensures
            final(self).inv(),
            final(self).stream() == old(self).stream(),
            final(self).budget() == old(self).budget(),
            final(self).pulled() >= old(self).pulled(),
            !(1 <= bits <= MAX_BIT_WIDTH) ==> *final(self) == *old(self) && (r matches Err(e)
                && e == BitBufferError::PreconditionViolated),
            1 <= bits <= MAX_BIT_WIDTH ==> {
                let raw = old(self).next_field(bits as int);
                &&& old(self).avail_bits() < bits ==> (r matches Err(e) && e
                    == BitBufferError::SourceExhausted)
                &&& old(self).avail_bits() >= bits ==> {
                    &&& final(self).consumed() == old(self).consumed() + bits
                    &&& final(self).avail_bits() == old(self).avail_bits() - bits
                    &&& raw == all_ones(bits as int) ==> (r matches Ok(o) && o is None)
                    &&& raw != all_ones(bits as int) && i64::MIN <= raw + reference_value
                        <= i64::MAX ==> (r matches Ok(o) && o matches Some(v) && v as int == raw
                        + reference_value)
                    &&& raw != all_ones(bits as int) && !(i64::MIN <= raw + reference_value
                        <= i64::MAX) ==> (r matches Err(e) && e
                        == BitBufferError::ConversionOverflow)
                }
            },
    {
        if bits == 0 || bits > MAX_BIT_WIDTH {
            return Err(BitBufferError::PreconditionViolated);
        }
        let val = match self.read_u64(bits) {
            Ok(v) => v,
            Err(e) => {
                return Err(e);
            },
        };
        match val {
            Some(v) => {
                let sum: i128 = v as i128 + reference_value as i128;
                if i64::MIN as i128 <= sum && sum <= i64::MAX as i128 {
                    Ok(Some(sum as i64))
                } else {
                    Err(BitBufferError::ConversionOverflow)
                }
            },
            None => Ok(None),
        }
    }

    /// Reads `bits / 8` successive eight-bit fields as raw bytes and
    /// interprets them as UTF-8 text. `bits` must be an exact multiple of
    /// eight or the call fails with a precondition error; bytes that are
    /// not valid UTF-8 fail with an encoding error. There is no sentinel
    /// rule for text: all-ones bytes are ordinary text bytes.
    pub fn read_text(&mut self, bits: usize) -> (r: Result<String, BitBufferError>)
        requires
            old(self).inv(),
        ensures
            final(self).inv(),
            final(self).stream() == old(self).stream(),
            final(self).budget() == old(self).budget(),
            final(self).pulled() >= old(self).pulled(),
            bits % 8 != 0 ==> *final(self) == *old(self) && (r matches Err(e) && e
                == BitBufferError::PreconditionViolated),
            bits % 8 == 0 ==> {
                let raw = text_field_bytes(
                    old(self).stream(),
                    old(self).consumed(),
                    bits as int / 8,
                );
                &&& old(self).avail_bits() < bits ==> (r matches Err(e) && e
                    == BitBufferError::SourceExhausted)
                &&& old(self).avail_bits() >= bits ==> {
                    &&& final(self).consumed() == old(self).consumed() + bits
                    &&& final(self).avail_bits() == old(self).avail_bits() - bits
                    &&& r matches Ok(s) ==> vstd::utf8::valid_utf8(raw) && s@
                        == vstd::utf8::decode_utf8(raw) && vstd::utf8::encode_utf8(s@) == raw
                    &&& r matches Err(e) ==> e == BitBufferError::EncodingInvalid
                        && !vstd::utf8::valid_utf8(raw)
                }
            },
    {
        if bits % 8 != 0 {
            return Err(BitBufferError::PreconditionViolated);
        }
        let ghost c0 = old(self).consumed();
        let num_chars = bits / 8;
        let mut buf: Vec<u8> = Vec::new();
        let mut i: usize = 0;
        while i < num_chars
            invariant
                self.inv(),
                self.stream() == old(self).stream(),
                self.budget() == old(self).budget(),
                self.pulled() >= old(self).pulled(),
                i <= num_chars,
                num_chars == bits / 8,
                bits % 8 == 0,
                buf@.len() == i,
                self.consumed() == c0 + 8 * i,
                self.avail_bits() == old(self).avail_bits() - 8 * i,
                forall|j: int|
                    0 <= j < i ==> buf@[j] as int == field_value(
                        old(self).stream(),
                        c0 + 8 * j,
                        8,
                    ),
            decreases num_chars - i,
        {
            let c = match self.read_u8(8) {
                Ok(b) => b,
                Err(e) => {
                    return Err(e);
                },
            };
            buf.push(c);
            i += 1;
        }
        proof {
            assert(buf@ =~= text_field_bytes(old(self).stream(), c0, bits as int / 8));
            self.lemma_bytes_read_accounting();
        }
        let ghost raw_bytes = buf@;
        match string_from_utf8(buf) {
            Some(s) => {
                proof {
                    vstd::utf8::decode_utf8_encode_utf8(raw_bytes);
                }
                Ok(s)
            },
            None => Err(BitBufferError::EncodingInvalid),
        }
    }

    /// Reading two consecutive fields of widths `a` then `b` yields the
    /// same pair of values as reading the full `a + b`-bit span and
    /// splitting it MSB-first: the combined field is the first field
    /// shifted up by `b` places plus the field that follows it. The second
    /// summand is what `next_field(b)` becomes once `a` bits are consumed,
    /// since every successful read advances `consumed()` by its width.
    pub proof fn lemma_consecutive_fields(self, a: int, b: int)
        requires
            0 <= a,
            0 <= b,
        ensures
            self.next_field(a + b) == self.next_field(a) * pow2(b as nat) + field_value(
                self.stream(),
                self.consumed() + a,
                b,
            ),
    {
        bits::lemma_field_value_concat(self.stream(), self.consumed(), a, b);
    }

    /// At the declared boundary, never before or after: when the source
    /// holds at least the declared budget, the reader can deliver exactly
    /// the budget's worth of bits, so a read of `b` bits succeeds precisely
    /// when it ends at or before the boundary, however much more data the
    /// source has available.
    pub proof fn lemma_budget_boundary(self)
        requires
            self.inv(),
            self.stream().len() >= self.budget(),
        ensures
            self.avail_bits() == 8 * self.budget() - self.consumed(),
    {
    }

    /// Accounting between the byte counter and the bit cursor: the bytes
    /// pulled from the source are exactly the bits handed out plus the bits
    /// still staged, eight to the byte — independent of how many bits were
    /// logically consumed from those bytes. All counters stay in range.
    pub proof fn lemma_bytes_read_accounting(self)
        requires
            self.inv(),
        ensures
            8 * self.pulled() == self.consumed() + self.staged_bits(),
            0 <= self.consumed(),
            0 <= self.staged_bits(),
            self.staged_bits() <= self.avail_bits(),
            self.pulled() <= self.budget(),
            self.pulled() <= self.stream().len(),
    {
        assert(self.supplyable() >= 0) by {
            if self.stream().len() < self.budget() {
                let d = self.stream().len() - self.pulled();
                assert(d >= 0);
                assert(d / (BUF_SIZE as int) >= 0);
            }
        };
    }
}

} // verus!
