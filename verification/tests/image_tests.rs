use wangtiles::TileError;
use wangtiles::ppm::{decode_ppm, encode_ppm};
use wangtiles::raster::{draw, render, RGB};

#[test]
fn test_rgb_packing() {
    assert_eq!(RGB(1, 2, 3).to_u32(), (1 << 16) + (2 << 8) + 3);
    assert_eq!(RGB(0x00, 0x0a, 0x00).to_u32(), 0x000a00);
    assert_eq!(RGB(0xff, 0xff, 0xff).to_u32(), 0xffffff);
}

#[test]
fn test_draw_code_out_of_range_is_invalid_argument() {
    let r = draw(0, 0, 8, 8, 16);
    assert!(matches!(r, Err(TileError::InvalidArgument)));
    let r = draw(3, 3, 8, 8, 255);
    assert!(matches!(r, Err(TileError::InvalidArgument)));
}

fn is_foreground(c: &RGB) -> bool {
    c.0 == 0x00 && c.1 == 0x0a && c.2 == 0x00
}

fn is_background(c: &RGB) -> bool {
    c.0 == 0xff && c.1 == 0xff && c.2 == 0xff
}

#[test]
fn test_draw_total_on_dense_sample() {
    // Every code and every pixel of a cell gets exactly one of the two
    // defined colors.
    for n in 0..16u8 {
        for y in 0..32u32 {
            for x in 0..32u32 {
                let c = draw(x, y, 32, 32, n).unwrap();
                assert!(is_foreground(&c) != is_background(&c));
            }
        }
    }
}

#[test]
fn test_draw_empty_and_full_codes() {
    for y in 0..16u32 {
        for x in 0..16u32 {
            assert!(is_background(&draw(x, y, 16, 16, 0).unwrap()));
            assert!(is_foreground(&draw(x, y, 16, 16, 15).unwrap()));
        }
    }
}

#[test]
fn test_draw_north_triangle() {
    // Code 1: only the triangle touching the top edge is foreground.
    let c = draw(8, 1, 16, 16, 1).unwrap();
    assert!(is_foreground(&c));
    let c = draw(8, 14, 16, 16, 1).unwrap();
    assert!(is_background(&c));
    let c = draw(0, 15, 16, 16, 1).unwrap();
    assert!(is_background(&c));
}

#[test]
fn test_draw_south_triangle() {
    // Code 4: only the triangle touching the bottom edge is foreground.
    let c = draw(8, 15, 16, 16, 4).unwrap();
    assert!(is_foreground(&c));
    let c = draw(8, 1, 16, 16, 4).unwrap();
    assert!(is_background(&c));
}

#[test]
fn test_render_fills_every_pixel() {
    let grid = vec![0u8, 15, 15, 0];
    let pixels = render(&grid, 8, 8, 2, 2);
    assert_eq!(pixels.len(), 64);
    let fg = RGB(0x00, 0x0a, 0x00).to_u32();
    let bg = RGB(0xff, 0xff, 0xff).to_u32();
    for y in 0..8usize {
        for x in 0..8usize {
            let px = pixels[y * 8 + x];
            assert!(px == fg || px == bg);
            // Tiles 0 (top left) and 3 (bottom right) are all background,
            // tiles 1 and 2 all foreground.
            let in_empty_tile = (x < 4) == (y < 4);
            assert_eq!(px == bg, in_empty_tile);
        }
    }
}

#[test]
fn test_encode_exact_bytes() {
    let pixels = vec![RGB(1, 2, 3).to_u32(), 0x00aabbcc];
    let bytes = encode_ppm(&pixels, 2, 1);
    let mut expected: Vec<u8> = Vec::new();
    expected.extend_from_slice(b"P6\n2 1 255\n");
    // RGB(1, 2, 3) packs to 0x010203: one byte per channel.
    expected.extend_from_slice(&[1, 2, 3]);
    expected.extend_from_slice(&[0xaa, 0xbb, 0xcc]);
    assert_eq!(bytes, expected);
}

#[test]
fn test_encode_decode_round_trip() {
    let pixels: Vec<u32> = (0..12u32).map(|i| i * 0x0104_0302).collect();
    let bytes = encode_ppm(&pixels, 4, 3);
    let (w, h, body) = decode_ppm(&bytes).unwrap();
    assert_eq!(w, 4);
    assert_eq!(h, 3);
    assert_eq!(body.len(), 36);
    for (i, px) in pixels.iter().enumerate() {
        assert_eq!(body[3 * i], ((px >> 16) & 0xff) as u8);
        assert_eq!(body[3 * i + 1], ((px >> 8) & 0xff) as u8);
        assert_eq!(body[3 * i + 2], (px & 0xff) as u8);
    }
}

#[test]
fn test_decode_rejects_bad_input() {
    assert!(decode_ppm(&b"".to_vec()).is_none());
    assert!(decode_ppm(&b"P5\n1 1 255\n".to_vec()).is_none());
    // Missing pixel bytes.
    assert!(decode_ppm(&b"P6\n2 1 255\n".to_vec()).is_none());
    // One byte too many.
    let mut bytes = encode_ppm(&vec![0u32], 1, 1);
    bytes.push(0);
    assert!(decode_ppm(&bytes).is_none());
}

#[test]
fn test_full_pipeline_bytes() {
    // Generate, render and encode; the parser recovers the dimensions and
    // one byte triple per pixel.
    let picks: Vec<usize> = (0..16).map(|i| i + 1).collect();
    let grid = wangtiles::grid::generate(4, 4, &picks).unwrap();
    let pixels = render(&grid, 16, 16, 4, 4);
    let bytes = encode_ppm(&pixels, 16, 16);
    let (w, h, body) = decode_ppm(&bytes).unwrap();
    assert_eq!((w, h), (16, 16));
    assert_eq!(body.len(), 16 * 16 * 3);
}
