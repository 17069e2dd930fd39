use bit_buffer::{BitBuffer, BitBufferError};

// The worked example of the format: two bytes, a budget of two, three
// fields of four, four and eight bits.
#[test]
fn spec_example_three_fields() {
    let source = vec![0b1011_0100u8, 0b1100_1010u8];
    let mut reader = BitBuffer::new(source, 2);
    assert_eq!(reader.read_usize(4), Ok(Some(11)));
    assert_eq!(reader.read_usize(4), Ok(Some(4)));
    assert_eq!(reader.read_usize(8), Ok(Some(202)));
}

#[test]
fn spec_example_missing_final_field() {
    let source = vec![0b1011_0100u8, 0b1111_1111u8];
    let mut reader = BitBuffer::new(source, 2);
    assert_eq!(reader.read_usize(4), Ok(Some(11)));
    assert_eq!(reader.read_usize(4), Ok(Some(4)));
    assert_eq!(reader.read_usize(8), Ok(None));
}

// The sentinel applies at exactly the field's declared width: bits outside
// the span do not affect the result.
#[test]
fn all_ones_sentinel_ignores_surrounding_bits() {
    let source = vec![0b1111_0000u8];
    let mut reader = BitBuffer::new(source, 1);
    assert_eq!(reader.read_usize(4), Ok(None));
    assert_eq!(reader.read_usize(4), Ok(Some(0)));

    let source = vec![0b1111_1111u8, 0b0000_0000u8];
    let mut reader = BitBuffer::new(source, 2);
    assert_eq!(reader.read_usize(4), Ok(None));
    assert_eq!(reader.read_usize(4), Ok(None));
    assert_eq!(reader.read_usize(8), Ok(Some(0)));
}

// At width one the all-ones pattern is a single set bit, so a one-bit
// field can only ever read as zero or as absent.
#[test]
fn one_bit_fields_follow_sentinel_rule() {
    let source = vec![0b1011_0100u8];
    let mut reader = BitBuffer::new(source, 1);
    let expected = [None, Some(0), None, None, Some(0), None, Some(0), Some(0)];
    for want in expected {
        assert_eq!(reader.read_usize(1), Ok(want));
    }
}

#[test]
fn all_ones_sentinel_at_full_width() {
    let source = vec![0xFFu8; 8];
    let mut reader = BitBuffer::new(source, 8);
    assert_eq!(reader.read_usize(64), Ok(None));
}

// Two consecutive non-aligned fields of widths three and five carry the
// same values as the combined eight-bit span split MSB-first.
#[test]
fn consecutive_fields_match_combined_span() {
    let source = vec![0b1011_0100u8, 0b1100_1010u8];
    let mut reader = BitBuffer::new(source, 2);
    let a = reader.read_usize(3).unwrap().unwrap();
    let b = reader.read_usize(5).unwrap().unwrap();

    let source = vec![0b1011_0100u8, 0b1100_1010u8];
    let mut combined = BitBuffer::new(source, 2);
    let whole = combined.read_usize(8).unwrap().unwrap();
    assert_eq!(a, whole >> 5);
    assert_eq!(b, whole & 0b1_1111);
    assert_eq!(a, 0b101);
    assert_eq!(b, 0b1_0100);
}

#[test]
fn wide_fields_span_byte_boundaries() {
    let source = vec![0x12u8, 0x34u8];
    let mut reader = BitBuffer::new(source, 2);
    assert_eq!(reader.read_usize(16), Ok(Some(0x1234)));

    let source = vec![0x12u8, 0x34u8];
    let mut reader = BitBuffer::new(source, 2);
    assert_eq!(reader.read_usize(4), Ok(Some(1)));
    assert_eq!(reader.read_usize(12), Ok(Some(0x234)));
}

#[test]
fn full_width_unsigned_value() {
    let source = vec![0x01u8, 0x02, 0x03, 0x04, 0x05, 0x06, 0x07, 0x08];
    let mut reader = BitBuffer::new(source, 8);
    assert_eq!(reader.read_usize(64), Ok(Some(0x0102030405060708)));
}

#[test]
fn width_precondition_always_checked() {
    let source = vec![0xAAu8];
    let mut reader = BitBuffer::new(source, 1);
    assert_eq!(reader.read_usize(0), Err(BitBufferError::PreconditionViolated));
    assert_eq!(reader.read_usize(65), Err(BitBufferError::PreconditionViolated));
    assert_eq!(reader.read_i64(0, 0), Err(BitBufferError::PreconditionViolated));
    assert_eq!(reader.read_i64(65, 0), Err(BitBufferError::PreconditionViolated));
    // The reader is untouched: the full byte is still there.
    assert_eq!(reader.read_usize(8), Ok(Some(0xAA)));
}

// The decoded signed value is the raw unsigned field value plus the
// declared reference offset.
#[test]
fn signed_read_applies_reference_offset() {
    let source = vec![0x00u8, 0x0A];
    let mut reader = BitBuffer::new(source, 2);
    assert_eq!(reader.read_i64(16, -5), Ok(Some(5)));

    let source = vec![0x00u8, 0x0A];
    let mut reader = BitBuffer::new(source, 2);
    assert_eq!(reader.read_i64(16, 100), Ok(Some(110)));
}

#[test]
fn signed_read_sentinel_is_absent() {
    let source = vec![0xFFu8, 0xFF];
    let mut reader = BitBuffer::new(source, 2);
    assert_eq!(reader.read_i64(16, 12345), Ok(None));
}

// A raw value past the signed range must fail, and a negative reference
// can bring it back inside the range.
#[test]
fn signed_read_overflow_is_an_error_not_truncation() {
    let source = vec![0x80u8, 0, 0, 0, 0, 0, 0, 1];
    let mut reader = BitBuffer::new(source, 8);
    assert_eq!(reader.read_i64(64, 0), Err(BitBufferError::ConversionOverflow));

    let source = vec![0x80u8, 0, 0, 0, 0, 0, 0, 1];
    let mut reader = BitBuffer::new(source, 8);
    assert_eq!(reader.read_i64(64, -10), Ok(Some(9223372036854775799)));
}

#[test]
fn signed_read_reference_at_extremes() {
    let source = vec![0x00u8, 0x01];
    let mut reader = BitBuffer::new(source, 2);
    assert_eq!(reader.read_i64(16, i64::MIN), Ok(Some(i64::MIN + 1)));

    let source = vec![0x01u8];
    let mut reader = BitBuffer::new(source, 1);
    assert_eq!(reader.read_i64(8, i64::MAX), Err(BitBufferError::ConversionOverflow));
}

#[test]
fn text_bytes_equal_stream_bytes() {
    let source = vec![0x41u8, 0x42, 0x43];
    let mut reader = BitBuffer::new(source, 3);
    let text = reader.read_text(24).unwrap();
    assert_eq!(text.as_bytes(), &[0x41u8, 0x42, 0x43]);
    assert_eq!(text, "ABC");
}

#[test]
fn text_width_must_be_multiple_of_eight() {
    let source = vec![0x41u8, 0x42];
    let mut reader = BitBuffer::new(source, 2);
    assert_eq!(reader.read_text(12), Err(BitBufferError::PreconditionViolated));
    // The reader is untouched and the aligned read still works.
    assert_eq!(reader.read_text(16), Ok(String::from("AB")));
}

#[test]
fn text_may_start_unaligned() {
    // Skip four bits; the two text bytes then straddle byte boundaries.
    let source = vec![0x44u8, 0x14, 0x20];
    let mut reader = BitBuffer::new(source, 3);
    assert_eq!(reader.read_usize(4), Ok(Some(4)));
    assert_eq!(reader.read_text(16), Ok(String::from("AB")));
}

#[test]
fn text_has_no_missing_value_sentinel() {
    // All-ones bytes are not "absent" for text; they are just bytes, and
    // these happen not to be valid UTF-8.
    let source = vec![0xFFu8, 0xFF];
    let mut reader = BitBuffer::new(source, 2);
    assert_eq!(reader.read_text(16), Err(BitBufferError::EncodingInvalid));
}

#[test]
fn empty_text_is_allowed() {
    let source = vec![0x41u8];
    let mut reader = BitBuffer::new(source, 1);
    assert_eq!(reader.read_text(0), Ok(String::new()));
}

// Reads fail with source-exhausted at exactly the declared byte budget,
// even though the source has more data available.
#[test]
fn budget_boundary_is_exact() {
    let source = vec![0xABu8, 0xCD, 0xEF, 0x12];
    let mut reader = BitBuffer::new(source, 2);
    assert_eq!(reader.read_usize(8), Ok(Some(0xAB)));
    assert_eq!(reader.read_usize(8), Ok(Some(0xCD)));
    assert_eq!(reader.read_usize(1), Err(BitBufferError::SourceExhausted));

    let source = vec![0xABu8, 0xCD, 0xEF, 0x12];
    let mut reader = BitBuffer::new(source, 2);
    assert_eq!(reader.read_usize(16), Ok(Some(0xABCD)));
    assert_eq!(reader.read_usize(1), Err(BitBufferError::SourceExhausted));
}

#[test]
fn zero_budget_fails_immediately() {
    let source = vec![0xABu8];
    let mut reader = BitBuffer::new(source, 0);
    assert_eq!(reader.read_usize(1), Err(BitBufferError::SourceExhausted));
}

// A refill demands the exact requested length from the source; a short
// source is an error, never a quiet end of stream.
#[test]
fn short_source_fails_exact_length_read() {
    let source = vec![0xABu8];
    let mut reader = BitBuffer::new(source, 2);
    assert_eq!(reader.read_usize(8), Err(BitBufferError::SourceExhausted));
}

// bytes_read reports the bytes pulled from the source by refills, not the
// bits logically consumed.
#[test]
fn bytes_read_counts_source_pulls() {
    let source = vec![0x55u8, 0x66, 0x77];
    let mut reader = BitBuffer::new(source, 3);
    assert_eq!(reader.bytes_read(), 0);
    assert_eq!(reader.read_usize(4), Ok(Some(5)));
    // The whole remaining budget was staged by one refill.
    assert_eq!(reader.bytes_read(), 3);
    assert_eq!(reader.read_usize(4), Ok(Some(5)));
    assert_eq!(reader.bytes_read(), 3);
}

#[test]
fn bytes_read_tracks_each_refill() {
    // More than one staging buffer's worth: refills come in 64-byte chunks.
    let source = vec![0x11u8; 130];
    let mut reader = BitBuffer::new(source, 130);
    assert_eq!(reader.read_usize(8), Ok(Some(0x11)));
    assert_eq!(reader.bytes_read(), 64);
    for _ in 0..63 {
        assert_eq!(reader.read_usize(8), Ok(Some(0x11)));
    }
    assert_eq!(reader.bytes_read(), 64);
    assert_eq!(reader.read_usize(8), Ok(Some(0x11)));
    assert_eq!(reader.bytes_read(), 128);
}

// When the source is shorter than the budget, a refill that cannot get a
// whole chunk fails even if some bytes remain.
#[test]
fn partial_final_chunk_of_short_source_is_unreachable() {
    let source = vec![0x22u8; 70];
    let mut reader = BitBuffer::new(source, 100);
    for _ in 0..64 {
        assert_eq!(reader.read_usize(8), Ok(Some(0x22)));
    }
    assert_eq!(reader.bytes_read(), 64);
    assert_eq!(reader.read_usize(8), Err(BitBufferError::SourceExhausted));
}
