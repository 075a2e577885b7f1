use fiesta_net::{BinaryPeekable, BinaryReadable, Buffer, BufferError, BUFFERSIZE};

fn filled(bytes: &[u8]) -> Buffer {
    let mut b = Buffer::new();
    assert_eq!(b.append(bytes), 0);
    b
}

#[test]
fn read_unsigned_big_endian() {
    let mut b = filled(&[0xab, 0x12, 0x34, 0x01, 0x02, 0x03, 0x04]);
    assert_eq!(b.read_u8(), Ok(0xab));
    assert_eq!(b.read_u16(), Ok(0x1234));
    assert_eq!(b.read_u32(), Ok(0x0102_0304));
    assert_eq!(b.bytes_remaining(), 0);
}

#[test]
fn read_u64_composes_eight_bytes() {
    let mut b = filled(&[1, 2, 3, 4, 5, 6, 7, 8]);
    assert_eq!(b.read_u64(), Ok(0x0102_0304_0506_0708));
}

#[test]
fn read_signed_reinterprets_bits() {
    let mut b = filled(&[0xff, 0xff, 0xfe, 0x80, 0, 0, 0, 0xff, 0xff, 0xff, 0xff, 0xff, 0xff, 0xff, 0xfd]);
    assert_eq!(b.read_i8(), Ok(-1));
    assert_eq!(b.read_i16(), Ok(-2));
    assert_eq!(b.read_i32(), Ok(i32::MIN));
    assert_eq!(b.read_i64(), Ok(-3));
}

#[test]
fn write_then_read_each_width() {
    for len in 1..=8usize {
        let bytes: Vec<u8> = (0..len).map(|i| (0x90 + i) as u8).collect();
        let mut expected: u64 = 0;
        for x in &bytes {
            expected = (expected << 8) | (*x as u64);
        }
        let mut b = filled(&bytes);
        let got: u64 = match len {
            1 => b.read_u8().unwrap() as u64,
            2 => b.read_u16().unwrap() as u64,
            4 => b.read_u32().unwrap() as u64,
            8 => b.read_u64().unwrap(),
            _ => {
                let v = b.read_bytes(len).unwrap();
                v.iter().fold(0u64, |acc, x| (acc << 8) | (*x as u64))
            }
        };
        assert_eq!(got, expected);
    }
}

#[test]
fn read_short_is_insufficient_and_consumes_nothing() {
    let mut b = filled(&[1, 2, 3]);
    assert_eq!(b.read_u32(), Err(BufferError::InsufficientData));
    assert_eq!(b.bytes_remaining(), 3);
    assert_eq!(b.read_bytes(3), Ok(vec![1, 2, 3]));
}

#[test]
fn peek_leaves_buffer_alone() {
    let mut b = filled(&[9, 8, 7, 6, 5]);
    assert_eq!(b.peek_bytes(1, 3), Ok(vec![8, 7, 6]));
    assert_eq!(b.peek_u16(3), Ok(0x0605));
    assert_eq!(b.peek_i8(0), Ok(9));
    assert_eq!(b.bytes_remaining(), 5);
    assert_eq!(b.peek_bytes(3, 3), Err(BufferError::InsufficientData));
    assert_eq!(b.bytes_remaining(), 5);
    assert_eq!(b.read_bytes(5), Ok(vec![9, 8, 7, 6, 5]));
}

#[test]
fn peek_wider_values() {
    let mut b = filled(&[0, 0xff, 0xff, 0xff, 0xfe, 1, 2, 3, 4, 5, 6, 7]);
    assert_eq!(b.peek_i32(1), Ok(-2));
    assert_eq!(b.peek_u32(1), Ok(0xffff_fffe));
    assert_eq!(b.peek_u64(4), Ok(0xfe01_0203_0405_0607));
    assert_eq!(b.peek_i64(4), Ok(0xfe01_0203_0405_0607u64 as i64));
    assert_eq!(b.peek_i16(1), Ok(-1));
    assert_eq!(b.peek_u8(11), Ok(7));
    assert_eq!(b.peek_u8(12), Err(BufferError::InsufficientData));
}

#[test]
fn peek_max_clips_to_what_is_there() {
    let mut b = filled(&[1, 2, 3, 4]);
    assert_eq!(b.peek_max(1, 10), vec![2, 3, 4]);
    assert_eq!(b.peek_max(0, 2), vec![1, 2]);
    assert_eq!(b.peek_max(7, 2), Vec::<u8>::new());
    assert_eq!(b.bytes_remaining(), 4);
}

#[test]
fn advance_read_skips_bytes() {
    let mut b = filled(&[1, 2, 3, 4]);
    b.advance_read(3);
    assert_eq!(b.bytes_remaining(), 1);
    assert_eq!(b.read_u8(), Ok(4));
}

#[test]
fn wraps_around_the_ring() {
    let mut b = Buffer::with_capacity(4);
    assert_eq!(b.append(&[1, 2, 3]), 0);
    assert_eq!(b.read_bytes(2), Ok(vec![1, 2]));
    assert_eq!(b.append(&[4, 5, 6]), 0);
    assert_eq!(b.read_bytes(4), Ok(vec![3, 4, 5, 6]));
}

#[test]
fn overfull_append_keeps_newest() {
    let mut b = Buffer::with_capacity(4);
    assert_eq!(b.append(&[1, 2, 3]), 0);
    assert_eq!(b.append(&[4, 5, 6]), 2);
    assert_eq!(b.bytes_remaining(), 4);
    assert_eq!(b.read_bytes(4), Ok(vec![3, 4, 5, 6]));
    assert_eq!(b.append(&[7, 8, 9, 10, 11, 12]), 2);
    assert_eq!(b.bytes_remaining(), b.capacity());
    assert_eq!(b.read_bytes(4), Ok(vec![9, 10, 11, 12]));
}

#[test]
fn overfull_append_at_full_size() {
    let mut b = Buffer::new();
    assert_eq!(b.capacity(), BUFFERSIZE);
    let big: Vec<u8> = (0..BUFFERSIZE + 10).map(|i| (i % 251) as u8).collect();
    assert_eq!(b.append(&big), 10);
    assert_eq!(b.bytes_remaining(), BUFFERSIZE);
    assert_eq!(b.read_u8(), Ok((10 % 251) as u8));
}
