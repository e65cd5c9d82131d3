use raytrace_core::bitmap::{can_encode, encode_bitmap, push_le16, push_le32, row_stride};
use raytrace_core::error::RenderError;

fn le32_at(bytes: &[u8], at: usize) -> u32 {
    u32::from_le_bytes([bytes[at], bytes[at + 1], bytes[at + 2], bytes[at + 3]])
}

#[test]
fn two_by_two_bitmap_byte_for_byte() {
    let pixels = vec![(255, 0, 0), (0, 255, 0), (0, 0, 255), (255, 255, 255)];
    let file = encode_bitmap(2, 2, &pixels).unwrap();
    let expected: Vec<u8> = vec![
        0x42, 0x4D, 70, 0, 0, 0, 0, 0, 0, 0, 54, 0, 0, 0, // file header
        40, 0, 0, 0, 2, 0, 0, 0, 2, 0, 0, 0, 1, 0, 24, 0, // size, width, height, planes, depth
        0, 0, 0, 0, 16, 0, 0, 0, 0, 0, 0, 0, 0, 0, 0, 0, 0, 0, 0, 0, 0, 0, 0, 0, // the rest
        255, 0, 0, 255, 255, 255, 0, 0, // bottom row: blue, white, padding
        0, 0, 255, 0, 255, 0, 0, 0, // top row: red, green, padding
    ];
    assert_eq!(file, expected);
}

#[test]
fn bitmap_header_fields() {
    let (width, height) = (5usize, 3usize);
    let pixels = vec![(1u8, 2u8, 3u8); width * height];
    let file = encode_bitmap(width, height, &pixels).unwrap();
    assert_eq!(&file[0..2], b"BM");
    assert_eq!(le32_at(&file, 2) as usize, file.len());
    assert_eq!(le32_at(&file, 10), 54);
    assert_eq!(le32_at(&file, 14), 40);
    assert_eq!(le32_at(&file, 18), 5);
    assert_eq!(le32_at(&file, 22), 3);
    assert_eq!(u16::from_le_bytes([file[26], file[27]]), 1);
    assert_eq!(u16::from_le_bytes([file[28], file[29]]), 24);
    assert_eq!(le32_at(&file, 30), 0);
    assert_eq!(le32_at(&file, 34), 16 * 3);
    assert_eq!(file.len(), 54 + 16 * 3);
}

#[test]
fn bitmap_rows_are_padded_to_four_bytes() {
    assert_eq!(row_stride(0), 0);
    assert_eq!(row_stride(1), 4);
    assert_eq!(row_stride(2), 8);
    assert_eq!(row_stride(3), 12);
    assert_eq!(row_stride(4), 12);
    assert_eq!(row_stride(5), 16);
    for width in 1..9usize {
        let pixels = vec![(9u8, 8u8, 7u8); width];
        let file = encode_bitmap(width, 1, &pixels).unwrap();
        assert_eq!(file.len(), 54 + row_stride(width));
        assert_eq!((file.len() - 54) % 4, 0);
        for i in 0..width {
            assert_eq!(&file[54 + 3 * i..54 + 3 * i + 3], &[7, 8, 9]);
        }
        assert!(file[54 + 3 * width..].iter().all(|b| *b == 0));
    }
}

#[test]
fn bitmap_rows_run_from_the_bottom_up() {
    let (width, height) = (3usize, 4usize);
    let mut pixels = Vec::new();
    for j in 0..height {
        for i in 0..width {
            pixels.push((10 * j as u8 + i as u8, 100 + j as u8, 200 + i as u8));
        }
    }
    let file = encode_bitmap(width, height, &pixels).unwrap();
    let stride = row_stride(width);
    for j in 0..height {
        for i in 0..width {
            let at = 54 + (height - 1 - j) * stride + 3 * i;
            let (r, g, b) = pixels[j * width + i];
            assert_eq!(&file[at..at + 3], &[b, g, r]);
        }
    }
}

#[test]
fn bitmap_refuses_empty_rasters() {
    assert_eq!(encode_bitmap(0, 3, &vec![]), Err(RenderError::InvalidDimensions));
    assert_eq!(encode_bitmap(3, 0, &vec![]), Err(RenderError::InvalidDimensions));
    assert_eq!(encode_bitmap(0, 0, &vec![]), Err(RenderError::InvalidDimensions));
}

#[test]
fn little_endian_words() {
    let mut buffer = vec![7u8];
    push_le32(&mut buffer, 0x1234_5678);
    push_le16(&mut buffer, 0xABCD);
    push_le32(&mut buffer, u32::MAX);
    push_le32(&mut buffer, 0);
    assert_eq!(
        buffer,
        vec![7, 0x78, 0x56, 0x34, 0x12, 0xCD, 0xAB, 255, 255, 255, 255, 0, 0, 0, 0]
    );
}

#[test]
fn bitmap_refuses_pixels_that_do_not_fill_the_raster() {
    let pixels = vec![(1u8, 2u8, 3u8); 5];
    assert_eq!(encode_bitmap(2, 3, &pixels), Err(RenderError::InvalidDimensions));
    assert_eq!(encode_bitmap(5, 2, &pixels), Err(RenderError::InvalidDimensions));
    assert_eq!(encode_bitmap(usize::MAX, 2, &pixels), Err(RenderError::InvalidDimensions));
    assert!(encode_bitmap(5, 1, &pixels).is_ok());
    assert!(encode_bitmap(1, 5, &pixels).is_ok());
}

#[test]
fn bitmap_size_must_fit_its_length_fields() {
    assert!(can_encode(1, 1));
    assert!(can_encode(1920, 1080));
    assert!(!can_encode(0, 1));
    assert!(!can_encode(1, 0));
    // A row of 1 pixel takes 4 bytes: 54 + 4 * height must stay within 32 bits.
    assert!(can_encode(1, 1_073_741_810));
    assert!(!can_encode(1, 1_073_741_811));
    // One row of width pixels takes 3 * width bytes rounded up to four.
    assert!(can_encode(1_431_655_746, 1));
    assert!(!can_encode(1_431_655_747, 1));
    assert!(!can_encode(usize::MAX, 1));
    assert!(!can_encode(1, usize::MAX));
    assert!(!can_encode(65_536, 65_536));
}
