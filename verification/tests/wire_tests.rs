use pixelstream::pixel::Pixel;
use pixelstream::wire::{decode_color, decode_command_color, encode};

fn px(r: u8, g: u8, b: u8, a: u8) -> Pixel {
    Pixel::new(r, g, b, a)
}

#[test]
fn transparent_pixel_has_no_encoding() {
    assert_eq!(encode(0, 0, px(0, 0, 0, 0)), None);
    assert_eq!(encode(10, 20, px(255, 255, 255, 0)), None);
    assert_eq!(encode(u32::MAX, u32::MAX, px(1, 2, 3, 0)), None);
}

#[test]
fn every_transparent_colour_has_no_encoding() {
    for r in [0u8, 1, 127, 255] {
        for g in [0u8, 9, 200] {
            for b in [0u8, 16, 255] {
                assert!(encode(3, 4, px(r, g, b, 0)).is_none());
                assert!(px(r, g, b, 0).is_transparent());
            }
        }
    }
}

#[test]
fn opaque_red_is_encoded_as_one_line() {
    let bytes = encode(10, 20, px(255, 0, 0, 255)).unwrap();
    assert_eq!(bytes, b"PX 10 20 ff0000ff\n".to_vec());
}

#[test]
fn origin_has_single_digit_coordinates() {
    let bytes = encode(0, 0, px(0, 0, 0, 1)).unwrap();
    assert_eq!(bytes, b"PX 0 0 00000001\n".to_vec());
    assert_eq!(bytes.len(), 16);
}

#[test]
fn largest_coordinates_are_written_in_full() {
    let bytes = encode(u32::MAX, u32::MAX, px(1, 2, 3, 4)).unwrap();
    assert_eq!(bytes, b"PX 4294967295 4294967295 01020304\n".to_vec());
    assert_eq!(bytes.len(), 34);
}

#[test]
fn coordinates_have_no_leading_zeros() {
    assert_eq!(encode(7, 100, px(9, 9, 9, 9)).unwrap(), b"PX 7 100 09090909\n".to_vec());
    assert_eq!(encode(1000, 9, px(9, 9, 9, 9)).unwrap(), b"PX 1000 9 09090909\n".to_vec());
    assert_eq!(encode(90, 109, px(9, 9, 9, 9)).unwrap(), b"PX 90 109 09090909\n".to_vec());
}

#[test]
fn channels_are_two_lowercase_hex_digits_each() {
    assert_eq!(encode(1, 2, px(0, 10, 16, 171)).unwrap(), b"PX 1 2 000a10ab\n".to_vec());
    assert_eq!(encode(1, 2, px(15, 159, 160, 254)).unwrap(), b"PX 1 2 0f9fa0fe\n".to_vec());
    assert_eq!(encode(1, 2, px(205, 239, 99, 100)).unwrap(), b"PX 1 2 cdef6364\n".to_vec());
}

#[test]
fn encoding_matches_the_formatted_line() {
    let coordinates = [0u32, 1, 9, 10, 11, 99, 100, 101, 65535, 65536, 1_000_000_000, u32::MAX];
    let channels = [0u8, 1, 9, 10, 15, 16, 17, 127, 128, 200, 254, 255];
    for (i, x) in coordinates.iter().enumerate() {
        let y = coordinates[(i * 5 + 3) % coordinates.len()];
        for (j, r) in channels.iter().enumerate() {
            let g = channels[(j + 1) % channels.len()];
            let b = channels[(j * 7 + 2) % channels.len()];
            let a = channels[(j * 5 + 1) % channels.len()];
            let expected = format!("PX {} {} {:02x}{:02x}{:02x}{:02x}\n", x, y, r, g, b, a);
            let got = encode(*x, y, px(*r, g, b, a));
            if a == 0 {
                assert_eq!(got, None);
            } else {
                assert_eq!(got, Some(expected.into_bytes()));
            }
        }
    }
}

#[test]
fn command_ends_with_its_only_line_feed() {
    let bytes = encode(1234, 10, px(10, 10, 10, 10)).unwrap();
    assert_eq!(bytes.last(), Some(&b'\n'));
    assert_eq!(bytes.iter().filter(|b| **b == b'\n').count(), 1);
    assert!(bytes.is_ascii());
}

#[test]
fn hex_digits_decode_to_the_pixel() {
    assert_eq!(decode_color(b"ff0000ff"), Some(px(255, 0, 0, 255)));
    assert_eq!(decode_color(b"000a10ab"), Some(px(0, 10, 16, 171)));
    assert_eq!(decode_color(b"00000000"), Some(px(0, 0, 0, 0)));
    assert_eq!(decode_color(b"0123cdef"), Some(px(0x01, 0x23, 0xcd, 0xef)));
}

#[test]
fn decode_rejects_what_is_not_eight_lowercase_hex_digits() {
    assert_eq!(decode_color(b""), None);
    assert_eq!(decode_color(b"ff0000f"), None);
    assert_eq!(decode_color(b"ff0000ff0"), None);
    assert_eq!(decode_color(b"FF0000FF"), None);
    assert_eq!(decode_color(b"ff0000fg"), None);
    assert_eq!(decode_color(b"ff 000ff"), None);
    assert_eq!(decode_color(b"ff0000f\n"), None);
    assert_eq!(decode_color(b"/f0000ff"), None);
    assert_eq!(decode_color(b":f0000ff"), None);
    assert_eq!(decode_color(b"`f0000ff"), None);
}

#[test]
fn colour_survives_the_round_trip() {
    for v in 0..=255u8 {
        let pixel = px(v, v.wrapping_mul(7), 255 - v, v | 1);
        let bytes = encode(v as u32, 1000 + v as u32, pixel).unwrap();
        assert_eq!(decode_command_color(&bytes), Some(pixel));
        assert_eq!(decode_color(&bytes[bytes.len() - 9..bytes.len() - 1]), Some(pixel));
    }
}

#[test]
fn round_trip_does_not_depend_on_the_coordinates() {
    let pixel = px(18, 52, 86, 120);
    for (x, y) in [(0u32, 0u32), (9, 10), (4294967295, 0), (0, 4294967295), (77, 77)] {
        let bytes = encode(x, y, pixel).unwrap();
        assert_eq!(decode_command_color(&bytes), Some(pixel));
    }
}

#[test]
fn short_input_carries_no_colour() {
    assert_eq!(decode_command_color(b""), None);
    assert_eq!(decode_command_color(b"ff0000ff"), None);
    assert_eq!(decode_command_color(b"ff0000ff\n"), Some(px(255, 0, 0, 255)));
    assert_eq!(decode_command_color(b"PX 1 2 ff0000fF\n"), None);
}
