use cearaafis::image_decode::{decode_gray, DecodeError};

fn le32(v: u32) -> [u8; 4] {
    v.to_le_bytes()
}

/// A 24-bit BMP of one row holding the given gray levels.
fn gray_bmp(levels: &[u8]) -> Vec<u8> {
    let width = levels.len() as u32;
    let row = (levels.len() * 3 + 3) / 4 * 4;
    let size = 54 + row as u32;
    let mut b = Vec::new();
    b.extend_from_slice(b"BM");
    b.extend_from_slice(&le32(size));
    b.extend_from_slice(&[0, 0, 0, 0]);
    b.extend_from_slice(&le32(54));
    b.extend_from_slice(&le32(40));
    b.extend_from_slice(&le32(width));
    b.extend_from_slice(&le32(1));
    b.extend_from_slice(&[1, 0]);
    b.extend_from_slice(&[24, 0]);
    b.extend_from_slice(&le32(0));
    b.extend_from_slice(&le32(row as u32));
    b.extend_from_slice(&le32(2835));
    b.extend_from_slice(&le32(2835));
    b.extend_from_slice(&le32(0));
    b.extend_from_slice(&le32(0));
    for &v in levels {
        b.extend_from_slice(&[v, v, v]);
    }
    while b.len() < size as usize {
        b.push(0);
    }
    b
}

#[test]
fn decode_gray_reads_bmp_levels() {
    let bytes = gray_bmp(&[10, 200, 77]);
    let image = decode_gray(&bytes).unwrap();
    assert_eq!(image.width, 3);
    assert_eq!(image.height, 1);
    assert_eq!(image.pixels, vec![10, 200, 77]);
}

#[test]
fn decode_gray_rejects_garbage() {
    let bytes = vec![1u8, 2, 3, 4, 5, 6, 7, 8];
    assert_eq!(decode_gray(&bytes).unwrap_err(), DecodeError::Unreadable);
}

#[test]
fn gray_from_raw_keeps_first_pixels() {
    let image = cearaafis::image_decode::gray_from_raw(2, 2, vec![1, 2, 3, 4, 5, 6]);
    assert_eq!(image.width, 2);
    assert_eq!(image.height, 2);
    assert_eq!(image.pixels, vec![1, 2, 3, 4]);
}
