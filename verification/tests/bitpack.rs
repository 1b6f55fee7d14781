use void_engine::net::bitpack::{BitError, BitReader, BitWriter};

fn write_quantised(w: &mut BitWriter, value: f64, half_extent: f64, bits: u32) {
    let levels = ((1u64 << bits) - 1) as f64;
    let t = ((value / half_extent).clamp(-1.0, 1.0) + 1.0) * 0.5;
    w.write_bits((t * levels).round() as u64, bits);
}

fn read_quantised(r: &mut BitReader, half_extent: f64, bits: u32) -> f64 {
    let levels = ((1u64 << bits) - 1) as f64;
    ((r.read_bits(bits).unwrap() as f64 / levels) * 2.0 - 1.0) * half_extent
}

#[test]
fn bits_round_trip_in_order() {
    let mut w = BitWriter::new();
    w.write_bit(true);
    w.write_bit(false);
    w.write_bits(0b1011, 4);
    assert_eq!(w.bit_len(), 6);

    let bytes = w.finish();
    let mut r = BitReader::new(&bytes);
    assert!(r.read_bit().unwrap());
    assert!(!r.read_bit().unwrap());
    assert_eq!(r.read_bits(4).unwrap(), 0b1011);
}

#[test]
fn eight_booleans_fit_in_one_byte() {
    let mut w = BitWriter::new();
    for i in 0..8 { w.write_bit(i % 2 == 0); }
    assert_eq!(w.byte_len(), 1, "eight bits is one byte, not eight");

    let bytes = w.finish();
    let mut r = BitReader::new(&bytes);
    for i in 0..8 {
        assert_eq!(r.read_bit().unwrap(), i % 2 == 0, "bit {i}");
    }
}

#[test]
fn varints_are_small_for_small_numbers() {
    for (value, expect_bytes) in [(0u64, 1usize), (127, 1), (128, 2), (16_383, 2), (16_384, 3)] {
        let mut w = BitWriter::new();
        w.write_varint(value);
        assert_eq!(w.byte_len(), expect_bytes, "varint({value})");

        let bytes = w.finish();
        assert_eq!(BitReader::new(&bytes).read_varint().unwrap(), value);
    }
}

#[test]
fn varints_round_trip_at_the_extremes() {
    for value in [0u64, 1, u32::MAX as u64, u64::MAX - 1, u64::MAX] {
        let mut w = BitWriter::new();
        w.write_varint(value);
        let bytes = w.finish();
        assert_eq!(BitReader::new(&bytes).read_varint().unwrap(), value, "{value}");
    }
}

#[test]
fn signed_varints_are_symmetric() {
    let mut small = BitWriter::new();
    small.write_varint_signed(-1);
    assert_eq!(small.byte_len(), 1, "-1 must cost one byte, not ten");

    for value in [0i64, -1, 1, -64, 63, i64::MIN, i64::MAX] {
        let mut w = BitWriter::new();
        w.write_varint_signed(value);
        let bytes = w.finish();
        assert_eq!(BitReader::new(&bytes).read_varint_signed().unwrap(), value, "{value}");
    }
}

#[test]
fn reading_past_the_end_is_an_error_not_a_panic() {
    let bytes = [0xffu8];
    let mut r = BitReader::new(&bytes);
    assert_eq!(r.read_bits(8).unwrap(), 0xff);
    assert_eq!(r.read_bit(), Err(BitError::Truncated));
    assert_eq!(r.read_bits(4), Err(BitError::Truncated));
    assert_eq!(r.read_varint(), Err(BitError::Truncated));
}

#[test]
fn an_unterminated_varint_is_refused() {
    let bytes = [0x80u8; 12];
    assert_eq!(BitReader::new(&bytes).read_varint(), Err(BitError::VarintTooLong));
}

#[test]
fn unaligned_mixed_widths_stay_in_step() {
    let mut w = BitWriter::new();
    w.write_bit(true);
    w.write_varint(300);
    w.write_bits(0b101, 3);
    write_quantised(&mut w, 250.0, 500.0, 16);
    w.write_varint_signed(-42);
    w.write_bit(false);

    let bytes = w.finish();
    let mut r = BitReader::new(&bytes);
    assert!(r.read_bit().unwrap());
    assert_eq!(r.read_varint().unwrap(), 300);
    assert_eq!(r.read_bits(3).unwrap(), 0b101);
    assert!((read_quantised(&mut r, 500.0, 16) - 250.0).abs() < 0.02);
    assert_eq!(r.read_varint_signed().unwrap(), -42);
    assert!(!r.read_bit().unwrap());
}

#[test]
fn clear_resets_the_partial_byte() {
    let mut w = BitWriter::new();
    w.write_bits(0b101, 3);
    w.clear();
    assert_eq!(w.bit_len(), 0);
    assert_eq!(w.byte_len(), 0);

    w.write_bit(true);
    assert_eq!(w.bit_len(), 1, "a stale partial byte would offset everything after");
    assert_eq!(w.as_bytes()[0], 0b1000_0000);
}

#[test]
fn an_entity_index_costs_two_bytes_at_mmo_scale() {
    let mut w = BitWriter::new();
    w.write_varint(9_999);
    assert_eq!(w.byte_len(), 2, "a 10k-entity world indexes in two bytes");
    assert_eq!(BitReader::new(w.as_bytes()).read_varint().unwrap(), 9_999);
}

#[test]
fn a_varint_that_overflows_is_too_long() {
    let mut w = BitWriter::new();
    for _ in 0..9 {
        w.write_bits(0x80, 8);
    }
    w.write_bits(0x01, 8);
    let bytes = w.finish();
    assert_eq!(BitReader::new(&bytes).read_varint().unwrap(), 1 << 63);
}

#[test]
fn errors_say_what_happened() {
    assert!(!BitError::Truncated.message().is_empty());
    assert_ne!(BitError::Truncated.message(), BitError::VarintTooLong.message());
    assert_ne!(BitError::Truncated.message(), BitError::OutOfRange.message());
}

#[test]
fn positions_are_counted_in_bits() {
    let bytes = [0b1010_0000u8, 0xff];
    let mut r = BitReader::new(&bytes);
    assert_eq!(r.bits_remaining(), 16);
    assert_eq!(r.read_bits(3).unwrap(), 0b101);
    assert_eq!(r.bit_pos(), 3);
    assert_eq!(r.bits_remaining(), 13);
}
