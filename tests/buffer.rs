use uper::buffer::BitBuffer;
use uper::Error as UperError;

const BYTE_LEN: usize = 8;
const SIZE_BITS: usize = 100 * BYTE_LEN;

// The bit-by-bit oracle: every bit-string operation done through single bits.
fn oracle_read_bit_string(
    bits: &mut BitBuffer,
    buffer: &mut [u8],
    bit_offset: usize,
    bit_length: usize,
) -> Result<(), UperError> {
    if buffer.len() * BYTE_LEN < bit_offset || buffer.len() * BYTE_LEN < bit_offset + bit_length {
        return Err(UperError::InsufficientSpaceInDestinationBuffer);
    }
    for bit in bit_offset..bit_offset + bit_length {
        let byte_pos = bit / BYTE_LEN;
        let bit_pos = BYTE_LEN - bit % BYTE_LEN - 1;
        if bits.read_bit()? {
            buffer[byte_pos] |= 0x01 << bit_pos;
        } else {
            buffer[byte_pos] &= !(0x01 << bit_pos);
        }
    }
    Ok(())
}

fn oracle_write_bit_string(
    bits: &mut BitBuffer,
    buffer: &[u8],
    bit_offset: usize,
    bit_length: usize,
) -> Result<(), UperError> {
    if buffer.len() * BYTE_LEN < bit_offset || buffer.len() * BYTE_LEN < bit_offset + bit_length {
        return Err(UperError::InsufficientDataInSourceBuffer);
    }
    for bit in bit_offset..bit_offset + bit_length {
        let byte_pos = bit / BYTE_LEN;
        let bit_pos = BYTE_LEN - bit % BYTE_LEN - 1;
        bits.write_bit((buffer[byte_pos] >> bit_pos & 0x01) == 0x01)?;
    }
    Ok(())
}

fn bit_buffer(size: usize, pos: usize) -> (BitBuffer, Vec<u8>, BitBuffer) {
    let extra = if pos > 0 { 1 } else { 0 };
    let mut bits = BitBuffer::from_bytes(vec![0b0101_0101_u8.wrapping_shl(pos as u32 % 2); size + extra]);
    for _ in 0..pos {
        bits.read_bit().unwrap();
    }
    (
        bits,
        vec![0_u8; size + extra],
        BitBuffer::from_bits_with_position(vec![0_u8; size + extra], pos, pos),
    )
}

fn check_result(bits: &mut BitBuffer, offset: usize, len: usize) {
    for i in 0..offset {
        assert!(!bits.read_bit().unwrap(), "Failed on offset with i={}, offset={}", i, offset);
    }
    for i in 0..len {
        assert_eq!(i % 2 == 1, bits.read_bit().unwrap(), "Failed on data with i={}, offset={}", i, offset);
    }
}

fn oracle_bit_buffer(size_bits: usize, offset: usize, pos: usize) -> (Vec<u8>, BitBuffer) {
    let (mut bits, mut dest, mut write) = bit_buffer(
        (size_bits + (BYTE_LEN - 1)) / BYTE_LEN + if offset > 0 { 1 } else { 0 },
        pos,
    );
    oracle_read_bit_string(&mut bits, &mut dest[..], offset, size_bits).unwrap();
    oracle_write_bit_string(&mut write, &dest[..], offset, size_bits).unwrap();
    (dest, write)
}

fn new_bit_buffer(size_bits: usize, offset: usize, pos: usize) -> (Vec<u8>, BitBuffer) {
    let (mut bits, mut dest, mut write) = bit_buffer(
        (size_bits + (BYTE_LEN - 1)) / BYTE_LEN + if offset > 0 { 1 } else { 0 },
        pos,
    );
    bits.read_bit_string(&mut dest[..], offset, size_bits).unwrap();
    write.write_bit_string(&dest[..], offset, size_bits).unwrap();
    (dest, write)
}

fn oracle_bit_buffer_with_check(size_bits: usize, offset: usize, pos: usize) {
    let (bits, mut written) = oracle_bit_buffer(size_bits, offset, pos);
    check_result(&mut BitBuffer::from_bytes(bits), offset, size_bits);
    check_result(&mut written, 0, size_bits);
}

fn new_bit_buffer_with_check(size_bits: usize, offset: usize, pos: usize) {
    let (bits, mut written) = new_bit_buffer(size_bits, offset, pos);
    check_result(&mut BitBuffer::from_bytes(bits), offset, size_bits);
    check_result(&mut written, 0, size_bits);
}

#[test]
fn test_legacy_bit_string_offset_0_to_7_pos_0_to_7() {
    for offset in 0..BYTE_LEN {
        for pos in 0..BYTE_LEN {
            oracle_bit_buffer_with_check(SIZE_BITS, offset, pos)
        }
    }
}

#[test]
fn test_new_bit_string_offset_0_to_7_pos_0_to_7() {
    for offset in 0..BYTE_LEN {
        for pos in 0..BYTE_LEN {
            new_bit_buffer_with_check(SIZE_BITS, offset, pos)
        }
    }
}

#[test]
pub fn bit_buffer_write_bit_keeps_correct_order() -> Result<(), UperError> {
    let mut buffer = BitBuffer::default();

    buffer.write_bit(true)?;
    buffer.write_bit(false)?;
    buffer.write_bit(false)?;
    buffer.write_bit(true)?;

    buffer.write_bit(true)?;
    buffer.write_bit(true)?;
    buffer.write_bit(true)?;
    buffer.write_bit(false)?;

    assert_eq!(buffer.content(), &[0b1001_1110]);

    buffer.write_bit(true)?;
    buffer.write_bit(false)?;
    buffer.write_bit(true)?;
    buffer.write_bit(true)?;

    buffer.write_bit(true)?;
    buffer.write_bit(true)?;
    buffer.write_bit(true)?;
    buffer.write_bit(false)?;

    assert_eq!(buffer.content(), &[0b1001_1110, 0b1011_1110]);

    buffer.write_bit(true)?;
    buffer.write_bit(false)?;
    buffer.write_bit(true)?;
    buffer.write_bit(false)?;

    assert_eq!(buffer.content(), &[0b1001_1110, 0b1011_1110, 0b1010_0000]);

    let mut buffer = BitBuffer::from_bits(buffer.content().into(), buffer.bit_len());
    assert!(buffer.read_bit()?);
    assert!(!buffer.read_bit()?);
    assert!(!buffer.read_bit()?);
    assert!(buffer.read_bit()?);

    assert!(buffer.read_bit()?);
    assert!(buffer.read_bit()?);
    assert!(buffer.read_bit()?);
    assert!(!buffer.read_bit()?);

    assert!(buffer.read_bit()?);
    assert!(!buffer.read_bit()?);
    assert!(buffer.read_bit()?);
    assert!(buffer.read_bit()?);

    assert!(buffer.read_bit()?);
    assert!(buffer.read_bit()?);
    assert!(buffer.read_bit()?);
    assert!(!buffer.read_bit()?);

    assert!(buffer.read_bit()?);
    assert!(!buffer.read_bit()?);
    assert!(buffer.read_bit()?);
    assert!(!buffer.read_bit()?);

    assert_eq!(buffer.read_bit(), Err(UperError::EndOfStream));

    Ok(())
}

#[test]
fn bit_buffer_bit_string_till_end() -> Result<(), UperError> {
    let content = &[0xFF, 0x74, 0xA6, 0x0F];
    let mut buffer = BitBuffer::default();
    buffer.write_bit_string_till_end(content, 0)?;
    assert_eq!(buffer.content(), content);

    {
        let mut buffer2 = BitBuffer::from_bits(buffer.content().into(), buffer.bit_len());
        let mut content2 = vec![0_u8; content.len()];
        buffer2.read_bit_string_till_end(&mut content2[..], 0)?;
        assert_eq!(&content[..], &content2[..]);
    }

    let mut content2 = vec![0xFF_u8; content.len()];
    buffer.read_bit_string_till_end(&mut content2[..], 0)?;
    assert_eq!(&content[..], &content2[..]);

    Ok(())
}

#[test]
fn bit_buffer_bit_string_till_end_with_offset() -> Result<(), UperError> {
    let content = &[0b1111_1111, 0b0111_0100, 0b1010_0110, 0b0000_1111];
    let mut buffer = BitBuffer::default();
    buffer.write_bit_string_till_end(content, 7)?;
    assert_eq!(
        buffer.content(),
        &[0b1011_1010, 0b0101_0011, 0b0000_0111, 0b1000_0000]
    );

    {
        let mut buffer2 = BitBuffer::from_bits(buffer.content().into(), buffer.bit_len());
        let mut content2 = vec![0xFF_u8; content.len()];
        content2[0] = content[0] & 0b1111_1110; // since we are skipping the first 7 bits
        buffer2.read_bit_string_till_end(&mut content2[..], 7)?;
        assert_eq!(&content[..], &content2[..]);
    }

    let mut content2 = vec![0_u8; content.len()];
    content2[0] = content[0] & 0b1111_1110; // since we are skipping the first 7 bits
    buffer.read_bit_string_till_end(&mut content2[..], 7)?;
    assert_eq!(&content[..], &content2[..]);

    Ok(())
}

#[test]
fn bit_buffer_bit_string() -> Result<(), UperError> {
    let content = &[0b1111_1111, 0b0111_0100, 0b1010_0110, 0b0000_1111];
    let mut buffer = BitBuffer::default();
    buffer.write_bit_string(content, 7, 12)?;
    assert_eq!(buffer.content(), &[0b1011_1010, 0b0101_0000]);

    {
        let mut buffer2 = BitBuffer::from_bits(buffer.content().into(), buffer.bit_len());
        let mut content2 = vec![0_u8; content.len()];
        // since we are skipping the first 7 bits
        let content = &[
            content[0] & 0x01,
            content[1],
            content[2] & 0b1110_0000,
            0x00,
        ];
        buffer2.read_bit_string(&mut content2[..], 7, 12)?;
        assert_eq!(&content[..], &content2[..]);
    }

    let mut content2 = vec![0x00_u8; content.len()];
    // since we are skipping the first 7 bits
    let content = &[
        content[0] & 0x01,
        content[1],
        content[2] & 0b1110_0000,
        0x00,
    ];
    buffer.read_bit_string(&mut content2[..], 7, 12)?;
    assert_eq!(&content[..], &content2[..]);

    Ok(())
}

#[test]
fn bit_buffer_length_determinant_0() -> Result<(), UperError> {
    const DET: usize = 0;
    let mut buffer = BitBuffer::default();
    buffer.write_length_determinant(DET)?;
    assert_eq!(buffer.content(), &[0x00 | DET as u8]);

    {
        let mut buffer2 = BitBuffer::from_bits(buffer.content().into(), buffer.bit_len());
        assert_eq!(DET, buffer2.read_length_determinant()?);
    }

    assert_eq!(DET, buffer.read_length_determinant()?);

    Ok(())
}

#[test]
fn bit_buffer_length_determinant_1() -> Result<(), UperError> {
    const DET: usize = 1;
    let mut buffer = BitBuffer::default();
    buffer.write_length_determinant(DET)?;
    assert_eq!(buffer.content(), &[0x00 | DET as u8]);

    {
        let mut buffer2 = BitBuffer::from_bits(buffer.content().into(), buffer.bit_len());
        assert_eq!(DET, buffer2.read_length_determinant()?);
    }

    assert_eq!(DET, buffer.read_length_determinant()?);
    Ok(())
}

#[test]
fn bit_buffer_length_determinant_127() -> Result<(), UperError> {
    const DET: usize = 126;
    let mut buffer = BitBuffer::default();
    buffer.write_length_determinant(DET)?;
    assert_eq!(buffer.content(), &[0x00 | DET as u8]);

    {
        let mut buffer2 = BitBuffer::from_bits(buffer.content().into(), buffer.bit_len());
        assert_eq!(DET, buffer2.read_length_determinant()?);
    }

    assert_eq!(DET, buffer.read_length_determinant()?);
    Ok(())
}

#[test]
fn bit_buffer_length_determinant_128() -> Result<(), UperError> {
    const DET: usize = 128;
    let mut buffer = BitBuffer::default();
    buffer.write_length_determinant(DET)?;
    // detects that the value is greater than 127, so
    //   10xx_xxxx xxxx_xxxx (header)
    // | --00_0000 1000_0000 (128)
    // =======================
    //   1000_0000 1000_0000
    assert_eq!(buffer.content(), &[0x80 | 0x00, 0x00 | DET as u8]);

    {
        let mut buffer2 = BitBuffer::from_bits(buffer.content().into(), buffer.bit_len());
        assert_eq!(DET, buffer2.read_length_determinant()?);
    }

    assert_eq!(DET, buffer.read_length_determinant()?);
    Ok(())
}

#[test]
fn bit_buffer_length_determinant_16383() -> Result<(), UperError> {
    const DET: usize = 16383;
    let mut buffer = BitBuffer::default();
    buffer.write_length_determinant(DET)?;
    // detects that the value is greater than 127, so
    //   10xx_xxxx xxxx_xxxx (header)
    // | --11_1111 1111_1111 (16383)
    // =======================
    //   1011_1111 1111_1111
    assert_eq!(
        buffer.content(),
        &[0x80 | (DET >> 8) as u8, 0x00 | (DET & 0xFF) as u8]
    );

    {
        let mut buffer2 = BitBuffer::from_bits(buffer.content().into(), buffer.bit_len());
        assert_eq!(DET, buffer2.read_length_determinant()?);
    }

    assert_eq!(DET, buffer.read_length_determinant()?);
    Ok(())
}

fn check_int_max(buffer: &mut BitBuffer, int: i64) -> Result<(), UperError> {
    {
        let mut buffer2 = BitBuffer::from_bits(buffer.content().into(), buffer.bit_len());
        assert_eq!(int, buffer2.read_int_max_signed()?);
    }

    assert_eq!(int, buffer.read_int_max_signed()?);
    Ok(())
}

#[test]
fn bit_buffer_int_max_neg_12() -> Result<(), UperError> {
    const INT: i64 = -12;
    let mut buffer = BitBuffer::default();
    buffer.write_int_max_signed(INT)?;
    // one byte: the header with length 1, then the value
    assert_eq!(buffer.content(), &[0x00 | 1, INT as u8]);
    check_int_max(&mut buffer, INT)?;
    Ok(())
}

#[test]
fn bit_buffer_int_max_0() -> Result<(), UperError> {
    const INT: i64 = 0;
    let mut buffer = BitBuffer::default();
    buffer.write_int_max_signed(INT)?;
    assert_eq!(buffer.content(), &[0x00 | 1, INT as u8]);
    check_int_max(&mut buffer, INT)?;
    Ok(())
}

#[test]
fn bit_buffer_int_max_127() -> Result<(), UperError> {
    const INT: i64 = 127;
    let mut buffer = BitBuffer::default();
    buffer.write_int_max_signed(INT)?;
    assert_eq!(buffer.content(), &[0x00 | 1, INT as u8]);
    check_int_max(&mut buffer, INT)?;
    Ok(())
}

#[test]
fn bit_buffer_int_max_128() -> Result<(), UperError> {
    const INT: i64 = 128;
    let mut buffer = BitBuffer::default();
    buffer.write_int_max_signed(INT)?;
    assert_eq!(buffer.content(), &[0x02, 0x00, 0x80]);
    check_int_max(&mut buffer, INT)?;
    Ok(())
}

#[test]
fn bit_buffer_int_max_255() -> Result<(), UperError> {
    const INT: i64 = 255;
    let mut buffer = BitBuffer::default();
    buffer.write_int_max_signed(INT)?;
    assert_eq!(buffer.content(), &[0x02, 0x00, 0xFF]);
    check_int_max(&mut buffer, INT)?;
    Ok(())
}

#[test]
fn bit_buffer_int_max_256() -> Result<(), UperError> {
    const INT: i64 = 256;
    let mut buffer = BitBuffer::default();
    buffer.write_int_max_signed(INT)?;
    assert_eq!(
        buffer.content(),
        &[
            0x00 | 2,
            ((INT & 0xFF_00) >> 8) as u8,
            ((INT & 0x00_ff) >> 0) as u8,
        ]
    );
    check_int_max(&mut buffer, INT)?;
    Ok(())
}

#[test]
fn bit_buffer_int_max_65535() -> Result<(), UperError> {
    const INT: i64 = 65_535;
    let mut buffer = BitBuffer::default();
    buffer.write_int_max_signed(INT)?;
    assert_eq!(buffer.content(), &[0x03, 0x00, 0xFF, 0xFF]);
    check_int_max(&mut buffer, INT)?;
    Ok(())
}

#[test]
fn bit_buffer_int_max_65536() -> Result<(), UperError> {
    const INT: i64 = 65_536;
    let mut buffer = BitBuffer::default();
    buffer.write_int_max_signed(INT)?;
    assert_eq!(buffer.content(), &[0x03, 0x01, 0x00, 0x00]);
    check_int_max(&mut buffer, INT)?;
    Ok(())
}

#[test]
fn bit_buffer_int_max_16777215() -> Result<(), UperError> {
    const INT: i64 = 16_777_215;
    let mut buffer = BitBuffer::default();
    buffer.write_int_max_signed(INT)?;
    assert_eq!(buffer.content(), &[0x04, 0x00, 0xFF, 0xFF, 0xFF]);
    check_int_max(&mut buffer, INT)?;
    Ok(())
}

#[test]
fn bit_buffer_int_max_16777216() -> Result<(), UperError> {
    const INT: i64 = 16_777_216;
    let mut buffer = BitBuffer::default();
    buffer.write_int_max_signed(INT)?;
    assert_eq!(
        buffer.content(),
        &[
            0x00 | 4,
            ((INT & 0xFF_00_00_00) >> 24) as u8,
            ((INT & 0x00_FF_00_00) >> 16) as u8,
            ((INT & 0x00_00_FF_00) >> 8) as u8,
            ((INT & 0x00_00_00_FF) >> 0) as u8,
        ]
    );
    check_int_max(&mut buffer, INT)?;
    Ok(())
}

#[test]
fn bit_buffer_int_max_4294967295() -> Result<(), UperError> {
    const INT: i64 = 4_294_967_295;
    let mut buffer = BitBuffer::default();
    buffer.write_int_max_signed(INT)?;
    assert_eq!(buffer.content(), &[0x05, 0x00, 0xFF, 0xFF, 0xFF, 0xFF]);
    check_int_max(&mut buffer, INT)?;
    Ok(())
}

#[test]
fn bit_buffer_int_max_4294967296() -> Result<(), UperError> {
    const INT: i64 = 4_294_967_296;
    let mut buffer = BitBuffer::default();
    buffer.write_int_max_signed(INT)?;
    assert_eq!(buffer.content(), &[0x05, 0x01, 0x00, 0x00, 0x00, 0x00]);
    check_int_max(&mut buffer, INT)?;
    Ok(())
}

#[test]
fn bit_buffer_int_max_i64_max() -> Result<(), UperError> {
    const INT: i64 = i64::MAX;
    let mut buffer = BitBuffer::default();
    buffer.write_int_max_signed(INT)?;
    assert_eq!(
        buffer.content(),
        &[
            0x00 | 8,
            ((INT as u64 & 0xFF_00_00_00_00_00_00_00_u64) >> 56) as u8,
            ((INT as u64 & 0x00_FF_00_00_00_00_00_00_u64) >> 48) as u8,
            ((INT as u64 & 0x00_00_FF_00_00_00_00_00_u64) >> 40) as u8,
            ((INT as u64 & 0x00_00_00_FF_00_00_00_00_u64) >> 32) as u8,
            ((INT as u64 & 0x00_00_00_00_FF_00_00_00_u64) >> 24) as u8,
            ((INT as u64 & 0x00_00_00_00_00_FF_00_00_u64) >> 16) as u8,
            ((INT as u64 & 0x00_00_00_00_00_00_FF_00_u64) >> 8) as u8,
            ((INT as u64 & 0x00_00_00_00_00_00_00_FF_u64) >> 0) as u8,
        ]
    );
    check_int_max(&mut buffer, INT)?;
    Ok(())
}

#[test]
fn bit_buffer_write_int_detects_not_in_range_positive_only() {
    let mut buffer = BitBuffer::default();
    // lower check
    assert_eq!(
        buffer.write_int(0, (10, 127)),
        Err(UperError::ValueNotInRange(0, 10, 127))
    );
    // upper check
    assert_eq!(
        buffer.write_int(128, (10, 127)),
        Err(UperError::ValueNotInRange(128, 10, 127))
    );
}

#[test]
fn bit_buffer_write_int_detects_not_in_range_negative() {
    let mut buffer = BitBuffer::default();
    // lower check
    assert_eq!(
        buffer.write_int(-11, (-10, -1)),
        Err(UperError::ValueNotInRange(-11, -10, -1))
    );
    // upper check
    assert_eq!(
        buffer.write_int(0, (-10, -1)),
        Err(UperError::ValueNotInRange(0, -10, -1))
    );
}

#[test]
fn bit_buffer_write_int_detects_not_in_range_with_negative() {
    let mut buffer = BitBuffer::default();
    // lower check
    assert_eq!(
        buffer.write_int(-11, (-10, 1)),
        Err(UperError::ValueNotInRange(-11, -10, 1))
    );
    // upper check
    assert_eq!(
        buffer.write_int(2, (-10, 1)),
        Err(UperError::ValueNotInRange(2, -10, 1))
    );
}

fn check_int(buffer: &mut BitBuffer, int: i64, range: (i64, i64)) -> Result<(), UperError> {
    {
        let mut buffer2 = BitBuffer::from_bits(buffer.content().into(), buffer.bit_len());
        assert_eq!(int, buffer2.read_int(range)?);
    }
    assert_eq!(int, buffer.read_int(range)?);
    Ok(())
}

#[test]
fn bit_buffer_int_7bits() -> Result<(), UperError> {
    const INT: i64 = 10;
    const RANGE: (i64, i64) = (0, 127);
    let mut buffer = BitBuffer::default();
    buffer.write_int(INT, RANGE)?;
    // [0; 127] are 128 numbers, so they have to fit in 7 bit
    assert_eq!(buffer.content(), &[(INT as u8) << 1]);
    check_int(&mut buffer, INT, RANGE)?;
    // be sure write_bit writes at the 8th bit
    buffer.write_bit(true)?;
    assert_eq!(buffer.content(), &[(INT as u8) << 1 | 0b0000_0001]);
    Ok(())
}

#[test]
fn bit_buffer_int_neg() -> Result<(), UperError> {
    const INT: i64 = -10;
    const RANGE: (i64, i64) = (-128, 127);
    let mut buffer = BitBuffer::default();
    buffer.write_int(INT, RANGE)?;
    // [-128; 127] are 255 numbers, so they have to fit in one byte
    assert_eq!(buffer.content(), &[(INT - RANGE.0) as u8]);
    check_int(&mut buffer, INT, RANGE)?;
    Ok(())
}

#[test]
fn bit_buffer_int_neg_extended_range() -> Result<(), UperError> {
    const INT: i64 = -10;
    const RANGE: (i64, i64) = (-128, 128);
    let mut buffer = BitBuffer::default();
    buffer.write_int(INT, RANGE)?;
    // [-128; 128] are 257 numbers, so they don't fit in one byte but in 9 bits
    assert_eq!(
        buffer.content(),
        &[
            ((INT - RANGE.0) as u8) >> 1,
            (((INT - RANGE.0) as u8) << 7) | 0b0000_0000
        ]
    );
    // be sure write_bit writes at the 10th bit
    buffer.write_bit(true)?;
    assert_eq!(
        buffer.content(),
        &[
            ((INT - RANGE.0) as u8) >> 1,
            ((INT - RANGE.0) as u8) << 7 | 0b0100_0000
        ]
    );
    check_int(&mut buffer, INT, RANGE)?;
    Ok(())
}

#[test]
fn bit_buffer_octet_string_with_range() -> Result<(), UperError> {
    const BYTES: &[u8] = &[0x2A, 0x2B, 0x96, 0xFF];
    const RANGE: (i64, i64) = (1, 20);
    let mut buffer = BitBuffer::default();
    buffer.write_octet_string(BYTES, Some(RANGE))?;
    assert_eq!(&[0x19, 0x51, 0x5c, 0xb7, 0xf8], &buffer.content(),);
    Ok(())
}

#[test]
fn bit_buffer_octet_string_without_range() -> Result<(), UperError> {
    const BYTES: &[u8] = &[0x2A, 0x2B, 0x96, 0xFF];
    let mut buffer = BitBuffer::default();
    buffer.write_octet_string(BYTES, None)?;
    assert_eq!(&[0x04, 0x2a, 0x2b, 0x96, 0xff], &buffer.content(),);
    Ok(())
}

#[test]
fn bit_buffer_octet_string_empty() -> Result<(), UperError> {
    const BYTES: &[u8] = &[];
    let mut buffer = BitBuffer::default();
    buffer.write_octet_string(BYTES, None)?;
    assert_eq!(&[0x00], &buffer.content(),);
    Ok(())
}

#[test]
fn test_int_normally_small_5() -> Result<(), UperError> {
    let mut buffer = BitBuffer::default();
    buffer.write_int_normally_small(5)?;
    // first 7 bits are relevant
    assert_eq!(&[0b0000_101_0], &buffer.content());
    assert_eq!(5, buffer.read_int_normally_small()?);
    Ok(())
}

#[test]
fn test_int_normally_small_60() -> Result<(), UperError> {
    let mut buffer = BitBuffer::default();
    buffer.write_int_normally_small(60)?;
    // first 7 bits
    assert_eq!(&[0b0111_100_0], &buffer.content());
    assert_eq!(60, buffer.read_int_normally_small()?);
    Ok(())
}

#[test]
fn test_int_normally_small_254() -> Result<(), UperError> {
    let mut buffer = BitBuffer::default();
    buffer.write_int_normally_small(254)?;
    // first 17 bits are relevant
    assert_eq!(
        //  Bit for greater 63
        //  |
        //  V |-len 1 byte-| |-value 254-| |-rest-|
        &[0b1_000_0000, 0b1__111_1111, 0b0_000_0000],
        &buffer.content()
    );
    Ok(())
}

fn write_once(index: u64, no_of_default_variants: u64) -> Result<(usize, Vec<u8>), UperError> {
    let mut buffer = BitBuffer::default();
    buffer.write_choice_index_extensible(index, no_of_default_variants)?;
    let bits = buffer.bit_len();
    Ok((bits, buffer.into_bytes()))
}

#[test]
fn test_write_choice_index_extensible() -> Result<(), UperError> {
    assert_eq!((2, vec![0x00]), write_once(0, 2)?);
    assert_eq!((2, vec![0x40]), write_once(1, 2)?);
    assert_eq!((8, vec![0x80]), write_once(2, 2)?);
    assert_eq!((8, vec![0x81]), write_once(3, 2)?);
    Ok(())
}

fn read_once(data: &[u8], bits: usize, no_of_variants: u64) -> Result<u64, UperError> {
    let mut buffer = BitBuffer::default();
    buffer.write_bit_string(data, 0, bits)?;
    buffer.read_choice_index_extensible(no_of_variants)
}

#[test]
fn test_read_choice_index_extensible() -> Result<(), UperError> {
    assert_eq!(0, read_once(&[0x00], 2, 2)?);
    assert_eq!(1, read_once(&[0x40], 2, 2)?);
    assert_eq!(2, read_once(&[0x80], 8, 2)?);
    assert_eq!(3, read_once(&[0x81], 8, 2)?);
    Ok(())
}

#[test]
fn test_sub_string_with_length_delimiter_prefix() {
    let mut buffer = BitBuffer::default();
    let mut scratch = BitBuffer::default();
    scratch.write_int_max_signed(1337).unwrap();
    buffer
        .write_substring_with_length_determinant_prefix(&scratch)
        .unwrap();
    assert_eq!(&[0x03, 0x02, 0x05, 0x39], buffer.content());
    let mut inner = buffer
        .read_substring_with_length_determinant_prefix()
        .unwrap();
    assert_eq!(1337, inner.read_int_max_signed().unwrap());
}

#[test]
fn test_sub_string_with_length_delimiter_prefix_not_aligned() {
    let mut buffer = BitBuffer::default();
    buffer.write_bit(false).unwrap();
    buffer.write_bit(false).unwrap();
    buffer.write_bit(false).unwrap();
    buffer.write_bit(false).unwrap();
    let mut scratch = BitBuffer::default();
    scratch.write_int_max_signed(1337).unwrap();
    buffer
        .write_substring_with_length_determinant_prefix(&scratch)
        .unwrap();
    assert_eq!(&[0x00, 0x30, 0x20, 0x53, 0x90], buffer.content());
    assert_eq!(false, buffer.read_bit().unwrap());
    assert_eq!(false, buffer.read_bit().unwrap());
    assert_eq!(false, buffer.read_bit().unwrap());
    assert_eq!(false, buffer.read_bit().unwrap());
    let mut inner = buffer
        .read_substring_with_length_determinant_prefix()
        .unwrap();
    assert_eq!(1337, inner.read_int_max_signed().unwrap());
}

#[test]
fn test_sub_string_with_length_delimiter_prefix_raw_not_aligned() {
    // a fixed store of 1024 bytes, written from its start
    let mut writer = BitBuffer::from_bits_with_position(vec![0_u8; 1024], 0, 0);
    writer.write_bit(false).unwrap();
    writer.write_bit(false).unwrap();
    writer.write_bit(false).unwrap();
    writer.write_bit(false).unwrap();
    let mut scratch = BitBuffer::default();
    scratch.write_int_max_signed(1337).unwrap();
    writer
        .write_substring_with_length_determinant_prefix(&scratch)
        .unwrap();
    assert_eq!(&[0x00, 0x30, 0x20, 0x53, 0x90], &writer.content()[..5]);
    let written = writer.bit_len();
    let mut reader = BitBuffer::from_bits_with_position(writer.into_bytes(), written, 0);
    assert_eq!(false, reader.read_bit().unwrap());
    assert_eq!(false, reader.read_bit().unwrap());
    assert_eq!(false, reader.read_bit().unwrap());
    assert_eq!(false, reader.read_bit().unwrap());
    let mut inner = reader
        .read_substring_with_length_determinant_prefix()
        .unwrap();
    assert_eq!(1337, inner.read_int_max_signed().unwrap());
}
