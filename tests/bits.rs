use sc2replay::bitbuffer::BitPackedBuffer;
use sc2replay::error::DecodeError;

#[test]
fn split_byte_read_big_endian() {
    for byte in [0u8, 1, 0x5A, 0xA5, 0xFF, 0x80, 0x7F] {
        for w in 0u8..8 {
            let mut whole = BitPackedBuffer::new(vec![byte]);
            let all = whole.read_bits(8).unwrap();
            let mut parts = BitPackedBuffer::new(vec![byte]);
            let lo = parts.read_bits(w).unwrap();
            let hi = parts.read_bits(8 - w).unwrap();
            assert_eq!(all, byte as u128);
            assert_eq!(lo + (hi << w), all);
        }
    }
}

#[test]
fn split_byte_read_little_endian() {
    for byte in [0u8, 3, 0x5A, 0xC3, 0xFF] {
        for w in 0u8..8 {
            let mut whole = BitPackedBuffer::new_little_endian(vec![byte]);
            let all = whole.read_bits(8).unwrap();
            let mut parts = BitPackedBuffer::new_little_endian(vec![byte]);
            let lo = parts.read_bits(w).unwrap();
            let hi = parts.read_bits(8 - w).unwrap();
            assert_eq!(all, byte as u128);
            assert_eq!(lo + (hi << w), all);
        }
    }
}

#[test]
fn multi_byte_read_orders_chunks_by_endianness() {
    // 12 bits from [0xAB, 0xCD]: the whole first byte, then the low nibble of the second.
    let mut big = BitPackedBuffer::new(vec![0xAB, 0xCD]);
    assert_eq!(big.read_bits(12).unwrap(), 0xABD);
    let mut little = BitPackedBuffer::new_little_endian(vec![0xAB, 0xCD]);
    assert_eq!(little.read_bits(12).unwrap(), 0xDAB);
}

#[test]
fn unaligned_read_across_bytes() {
    let mut b = BitPackedBuffer::new(vec![0b1011_0110, 0b0000_0011]);
    assert_eq!(b.read_bits(3).unwrap(), 0b110);
    // the remaining 5 bits of the first byte land high, then 2 bits of the second
    assert_eq!(b.read_bits(7).unwrap(), (0b10110 << 2) | 0b11);
    assert_eq!(b.used_bits(), 10);
}

#[test]
fn byte_align_twice_is_once() {
    let mut once = BitPackedBuffer::new(vec![0xFF, 0x12, 0x34]);
    once.read_bits(3).unwrap();
    once.byte_align();
    let mut twice = BitPackedBuffer::new(vec![0xFF, 0x12, 0x34]);
    twice.read_bits(3).unwrap();
    twice.byte_align();
    twice.byte_align();
    assert_eq!(once.used_bits(), 8);
    assert_eq!(twice.used_bits(), 8);
    assert_eq!(once.read_bits(8).unwrap(), twice.read_bits(8).unwrap());
}

#[test]
fn read_bits_past_end_is_truncated() {
    let mut b = BitPackedBuffer::new(vec![0xFF]);
    assert_eq!(b.read_bits(9), Err(DecodeError::Truncated));
}

#[test]
fn read_bits_zero_and_full_width() {
    let mut b = BitPackedBuffer::new(vec![0xFF; 16]);
    assert_eq!(b.read_bits(0).unwrap(), 0);
    assert_eq!(b.read_bits(128).unwrap(), u128::MAX);
    assert!(b.done());
}

#[test]
fn aligned_bytes_after_partial_read() {
    let mut b = BitPackedBuffer::new(vec![0x01, 0x02, 0x03, 0x04]);
    b.read_bits(1).unwrap();
    assert_eq!(b.read_aligned_bytes(2).unwrap(), vec![0x02, 0x03]);
    assert_eq!(b.read_aligned_bytes(2), Err(DecodeError::Truncated));
}

#[test]
fn unaligned_bytes_are_eight_bit_reads() {
    let mut b = BitPackedBuffer::new(vec![0x0F, 0xF0]);
    b.read_bits(4).unwrap();
    // 4 bits left of 0x0F (all zero) land high, the low nibble of 0xF0 low
    assert_eq!(b.read_unaligned_bytes(1).unwrap(), vec![0x00]);
}
