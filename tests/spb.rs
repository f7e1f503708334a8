use nscripter_formats::image::{decode_spb, encode_spb, Image, SpbError};

fn image(width: u16, height: u16, pixels: Vec<[u8; 3]>) -> Image {
    Image { pixel_buffer: pixels, width, height }
}

fn round_trip(img: &Image) {
    let bytes = encode_spb(img);
    let decoded = decode_spb(bytes).expect("decodes");
    assert_eq!(decoded.width, img.width);
    assert_eq!(decoded.height, img.height);
    assert_eq!(decoded.pixel_buffer, img.pixel_buffer);
}

/// A small deterministic generator, so that "random" images are reproducible.
fn noise(seed: u32, n: usize) -> Vec<[u8; 3]> {
    let mut state = seed;
    let mut out = Vec::new();
    for _ in 0..n {
        let mut px = [0u8; 3];
        for c in px.iter_mut() {
            state = state.wrapping_mul(1_103_515_245).wrapping_add(12_345);
            *c = (state >> 16) as u8;
        }
        out.push(px);
    }
    out
}

#[test]
fn spb_round_trip_random_images() {
    for w in 1..=9u16 {
        for h in 1..=7u16 {
            let n = (w as usize) * (h as usize);
            round_trip(&image(w, h, noise((w as u32) * 31 + h as u32, n)));
        }
    }
}

#[test]
fn spb_round_trip_flat_gradient_and_salt_and_pepper() {
    let (w, h) = (13u16, 5u16);
    let n = 65;
    round_trip(&image(w, h, vec![[0, 0, 0]; n]));
    round_trip(&image(w, h, vec![[0xff, 0xff, 0xff]; n]));
    let gradient: Vec<[u8; 3]> = (0..n).map(|i| [i as u8, (2 * i) as u8, (255 - i) as u8]).collect();
    round_trip(&image(w, h, gradient));
    let salt: Vec<[u8; 3]> = (0..n).map(|i| if i % 3 == 0 { [255, 255, 255] } else { [0, 0, 0] }).collect();
    round_trip(&image(w, h, salt));
}

#[test]
fn spb_single_pixel_has_no_chunks() {
    let bytes = encode_spb(&image(1, 1, vec![[1, 2, 3]]));
    assert_eq!(bytes, vec![0x00, 0x01, 0x00, 0x01, 0x01, 0x02, 0x03]);
    round_trip(&image(1, 1, vec![[1, 2, 3]]));
}

#[test]
fn spb_size_not_multiple_of_four() {
    round_trip(&image(3, 3, noise(7, 9)));
    round_trip(&image(7, 1, noise(8, 7)));
    round_trip(&image(1, 6, noise(9, 6)));
}

#[test]
fn spb_stamp_chunk() {
    let img = image(4, 1, vec![[10, 20, 30]; 4]);
    let bytes = encode_spb(&img);
    // Per channel: the literal first byte, then one chunk with header 000.
    assert_eq!(bytes, vec![0x00, 0x04, 0x00, 0x01, 0x0a, 0x02, 0x80, 0x78, 0x00]);
    round_trip(&img);
}

#[test]
fn spb_read_bit_plus_one_add_only() {
    let img = image(5, 1, (100..105u8).map(|v| [v, v, v]).collect());
    let bytes = encode_spb(&img);
    // Per channel: 100, then header 111, b = 0, four add flags set.
    assert_eq!(bytes, vec![0x00, 0x05, 0x00, 0x01, 0x64, 0xef, 0x64, 0xef, 0x64, 0xef]);
    round_trip(&img);
}

#[test]
fn spb_read4_escape() {
    let img = image(5, 1, vec![[0, 0, 0], [128, 128, 128], [128, 128, 128], [128, 128, 128], [128, 128, 128]]);
    let bytes = encode_spb(&img);
    // Header 110 then four literal bytes.
    assert_eq!(&bytes[0..9], &[0x00, 0x05, 0x00, 0x01, 0x00, 0xd0, 0x10, 0x10, 0x10]);
    assert_eq!(bytes.len(), 21);
    round_trip(&img);
}

#[test]
fn spb_read_bits_chunk() {
    // Moves of 5 need three magnitude bits: header 2 (ReadBits with four-bit fields).
    let img = image(5, 1, (0..5u8).map(|v| [v * 5, v * 5, v * 5]).collect());
    let bytes = encode_spb(&img);
    assert_eq!(bytes[4], 0x00);
    assert_eq!(bytes[5] >> 5, 2);
    round_trip(&img);
}

#[test]
fn spb_decode_truncated_stream() {
    let bytes = encode_spb(&image(8, 8, noise(3, 64)));
    let cut = bytes[..bytes.len() / 2].to_vec();
    assert!(matches!(decode_spb(cut), Err(SpbError::NotEnoughData)));
    assert!(matches!(decode_spb(vec![0, 1]), Err(SpbError::NotEnoughData)));
}

#[test]
fn spb_decode_wraps_around() {
    // One channel chunk whose moves wrap below zero: header 111, b = 1 (two-bit fields),
    // fields 10 (subtract 1) four times, from a first byte of 1.
    // Width 5, height 1; three channels, each: 00000001 111 1 10 10 10 10.
    let mut bits: Vec<u8> = Vec::new();
    let push = |bits: &mut Vec<u8>, v: u32, n: u32| {
        for i in (0..n).rev() {
            bits.push(((v >> i) & 1) as u8);
        }
    };
    push(&mut bits, 5, 16);
    push(&mut bits, 1, 16);
    for _ in 0..3 {
        push(&mut bits, 1, 8);
        push(&mut bits, 7, 3);
        push(&mut bits, 1, 1);
        for _ in 0..4 {
            push(&mut bits, 2, 2);
        }
    }
    while bits.len() % 8 != 0 {
        bits.push(0);
    }
    let bytes: Vec<u8> = bits.chunks(8).map(|c| c.iter().fold(0u8, |a, b| a * 2 + b)).collect();
    let img = decode_spb(bytes).expect("decodes");
    let expected: Vec<[u8; 3]> = vec![[1, 1, 1], [0, 0, 0], [255, 255, 255], [254, 254, 254], [253, 253, 253]];
    assert_eq!(img.pixel_buffer, expected);
}
