use potree::morton::{
    dealign_24b, decode_morton_128, decode_morton_64, read_morton_128, read_morton_64,
};
use potree::point::color_channel;

fn interleave3(a: u32) -> u32 {
    let mut code = 0;
    for bit in 0..10 {
        code |= ((a >> bit) & 1) << (3 * bit);
    }
    code
}

fn interleave48(x: u16, y: u16, z: u16) -> u64 {
    let mut code = 0u64;
    for bit in 0..16 {
        code |= (((x >> bit) & 1) as u64) << (3 * bit);
        code |= (((y >> bit) & 1) as u64) << (3 * bit + 1);
        code |= (((z >> bit) & 1) as u64) << (3 * bit + 2);
    }
    code
}

// words from the highest to the lowest
fn encode_128(x: u32, y: u32, z: u32) -> [u32; 4] {
    let high = interleave48((x >> 16) as u16, (y >> 16) as u16, (z >> 16) as u16);
    let low = interleave48(x as u16, y as u16, z as u16);
    [(high >> 32) as u32, high as u32, (low >> 32) as u32, low as u32]
}

fn bytes_of(words: &[u32]) -> Vec<u8> {
    let mut bytes = Vec::new();
    for word in words {
        bytes.extend_from_slice(&word.to_le_bytes());
    }
    bytes
}

#[test]
fn dealign_keeps_every_third_bit() {
    assert_eq!(dealign_24b(0), 0);
    assert_eq!(dealign_24b(0b1), 1);
    assert_eq!(dealign_24b(0b110), 0);
    assert_eq!(dealign_24b(0b1000), 2);
    assert_eq!(dealign_24b(0b1001), 3);
    assert_eq!(dealign_24b(0x0924_9249), 0x3ff);
    assert_eq!(dealign_24b(0xffff_ffff), 0x3ff);
    assert_eq!(dealign_24b(0xf6db_6db6), 0);
    assert_eq!(dealign_24b(1 << 27), 1 << 9);
}

#[test]
fn dealign_undoes_interleave() {
    for a in 0..1024u32 {
        assert_eq!(dealign_24b(interleave3(a)), a);
        assert_eq!(dealign_24b(interleave3(a) | 0xf6db_6db6), a);
    }
}

#[test]
fn morton_64_round_trip() {
    let samples = [0u16, 1, 2, 3, 255, 256, 0x1234, 0x8000, 0xabcd, 0xffff];
    for r in samples {
        for g in samples {
            for b in samples {
                let code = interleave48(r, g, b);
                assert_eq!(decode_morton_64((code >> 32) as u32, code as u32), (r, g, b));
            }
        }
    }
}

#[test]
fn morton_128_round_trip() {
    let samples = [0u32, 1, 2, 3, 0xffff, 0x1_0000, 0x12_3456, (1 << 21) - 1, 0xffff_ffff];
    for x in samples {
        for y in samples {
            for z in samples {
                let w = encode_128(x, y, z);
                assert_eq!(decode_morton_128(w[0], w[1], w[2], w[3]), (x, y, z));
            }
        }
    }
}

#[test]
fn high_words_count_even_where_the_middle_words_are_zero() {
    assert_eq!(decode_morton_128(1, 0, 0, 0), (0, 0, 1 << 26));
    assert_eq!(decode_morton_128(0b10, 0, 0, 0), (1 << 27, 0, 0));
    assert_eq!(decode_morton_128(0, 0b10, 0, 0), (0, 1 << 16, 0));
    assert_eq!(decode_morton_128(0, 0, 1, 0), (0, 0, 1 << 10));
    assert_eq!(decode_morton_128(0, 0, 0, 0b100), (0, 0, 1));
}

#[test]
fn color_decoding() {
    let first = [0u8, 0, 0, 0, 0, 0, 0, 0x40];
    let second = [0u8, 0, 0, 0, 0, 0, 0, 0x80];
    assert_eq!(read_morton_64(&first), (1024, 0, 0));
    assert_eq!(read_morton_64(&second), (0, 1024, 0));
    let colors: Vec<(u8, u8, u8)> = [first, second]
        .iter()
        .map(|bytes| {
            let (r, g, b) = read_morton_64(bytes);
            (color_channel(r), color_channel(g), color_channel(b))
        })
        .collect();
    assert_eq!(colors, vec![(4, 0, 0), (0, 4, 0)]);
}

#[test]
fn color_channels_in_eight_bits() {
    assert_eq!(color_channel(0), 0);
    assert_eq!(color_channel(200), 200);
    assert_eq!(color_channel(255), 255);
    assert_eq!(color_channel(256), 1);
    assert_eq!(color_channel(0x1234), 0x12);
    assert_eq!(color_channel(0xffff), 0xff);
}

#[test]
fn codes_are_read_word_by_word() {
    // the first word is the highest, and each word has its lowest byte first
    let mut bytes = bytes_of(&[0, 0, 0, 0b11_0101]);
    bytes.push(0xee);
    assert_eq!(read_morton_128(&bytes), (1, 2, 3));
    assert_eq!(bytes[12], 0x35);
    let mut bytes = bytes_of(&[0, 0b11_0101 << 8]);
    bytes.extend_from_slice(&[0xee, 0xee]);
    assert_eq!(read_morton_64(&bytes), (1 << 4, 1 << 3 | 1 << 4, 1 << 2));
}

#[test]
fn position_round_trip() {
    let scale = [0.001f64, 0.001, 0.001];
    let offset = [0.0f64, 0.0, 0.0];
    let min = [0.0f64, 0.0, 0.0];
    let bytes = bytes_of(&encode_128(1, 2, 3));
    assert_eq!(bytes.len(), 16);
    let (x, y, z) = read_morton_128(&bytes);
    assert_eq!((x, y, z), (1, 2, 3));
    let world = [
        min[0] + (x as f64 * scale[0] + offset[0] - min[0]),
        min[1] + (y as f64 * scale[1] + offset[1] - min[1]),
        min[2] + (z as f64 * scale[2] + offset[2] - min[2]),
    ];
    assert_eq!(world, [0.001, 0.002, 0.003]);
}
