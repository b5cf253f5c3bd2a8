use ppmcanvas::colors::RGB;
use ppmcanvas::encode::push_decimal;
use ppmcanvas::image::PPMImg;

fn decimal(n: u32) -> Vec<u8> {
    let mut out = Vec::new();
    push_decimal(&mut out, n);
    out
}

#[test]
fn decimal_digits() {
    assert_eq!(decimal(0), b"0".to_vec());
    assert_eq!(decimal(7), b"7".to_vec());
    assert_eq!(decimal(10), b"10".to_vec());
    assert_eq!(decimal(65535), b"65535".to_vec());
    assert_eq!(decimal(u32::MAX), b"4294967295".to_vec());
}

#[test]
fn decimal_appends() {
    let mut out = b"ab".to_vec();
    push_decimal(&mut out, 120);
    assert_eq!(out, b"ab120".to_vec());
}

#[test]
fn binary_dump_with_one_byte_per_channel() {
    let mut img = PPMImg::new(1, 2, 255);
    img.set_fg_color(RGB::new(1, 2, 3));
    img.plot(1, 0);
    let mut expected = b"P6\n2 1 255\n".to_vec();
    expected.extend_from_slice(&[0, 0, 0, 1, 2, 3]);
    assert_eq!(img.write_binary(), expected);
}

#[test]
fn binary_dump_with_two_bytes_per_channel() {
    let mut img = PPMImg::new(2, 1, 1000);
    img.set_fg_color(RGB::new(258, 2, 1000));
    img.plot(0, 1);
    let mut expected = b"P6\n1 2 1000\n".to_vec();
    expected.extend_from_slice(&[0, 0, 0, 0, 0, 0, 1, 2, 0, 2, 3, 232]);
    assert_eq!(img.write_binary(), expected);
}

#[test]
fn binary_dump_at_the_widest_narrow_depth() {
    let img = PPMImg::new_with_bg(1, 1, 255, RGB::new(255, 0, 128));
    let mut expected = b"P6\n1 1 255\n".to_vec();
    expected.extend_from_slice(&[255, 0, 128]);
    assert_eq!(img.write_binary(), expected);
    let img = PPMImg::new_with_bg(1, 1, 256, RGB::new(256, 0, 128));
    let mut expected = b"P6\n1 1 256\n".to_vec();
    expected.extend_from_slice(&[1, 0, 0, 0, 0, 128]);
    assert_eq!(img.write_binary(), expected);
}

#[test]
fn ascii_dump() {
    let mut img = PPMImg::new(2, 2, 255);
    img.set_fg_color(RGB::new(10, 0, 255));
    img.plot(1, 1);
    assert_eq!(
        img.write_ascii(),
        b"P3\n2 2 255\n0 0 0\n0 0 0\n0 0 0\n10 0 255\n".to_vec()
    );
}

#[test]
fn dumps_of_an_empty_canvas_hold_the_header_only() {
    let img = PPMImg::new(0, 0, 15);
    assert_eq!(img.write_binary(), b"P6\n0 0 15\n".to_vec());
    assert_eq!(img.write_ascii(), b"P3\n0 0 15\n".to_vec());
}

#[test]
fn binary_payload_round_trip_with_one_byte_per_channel() {
    let mut img = PPMImg::new(2, 3, 255);
    img.set_fg_color(RGB::new(255, 128, 1));
    img.plot(2, 1);
    img.set_fg_color(RGB::new(3, 0, 77));
    img.plot(0, 0);
    let dump = img.write_binary();
    let header = b"P6\n3 2 255\n".len();
    let pixels = ppmcanvas::encode::read_binary_payload(&dump[header..].to_vec(), 255);
    assert_eq!(pixels, Some(img.data.clone()));
}

#[test]
fn binary_payload_round_trip_with_two_bytes_per_channel() {
    let mut img = PPMImg::new(2, 2, 65535);
    img.set_fg_color(RGB::new(65535, 256, 255));
    img.plot(1, 1);
    img.set_fg_color(RGB::new(1, 2, 3));
    img.plot(0, 1);
    let dump = img.write_binary();
    let header = b"P6\n2 2 65535\n".len();
    let pixels = ppmcanvas::encode::read_binary_payload(&dump[header..].to_vec(), 65535);
    assert_eq!(pixels, Some(img.data.clone()));
}

#[test]
fn binary_payload_that_ends_inside_a_pixel_is_rejected() {
    assert_eq!(ppmcanvas::encode::read_binary_payload(&vec![1, 2, 3, 4], 255), None);
    assert_eq!(ppmcanvas::encode::read_binary_payload(&vec![1, 2, 3], 256), None);
    assert_eq!(ppmcanvas::encode::read_binary_payload(&vec![], 255), Some(vec![]));
    assert_eq!(
        ppmcanvas::encode::read_binary_payload(&vec![1, 2, 3, 4, 5, 6], 255),
        Some(vec![RGB::new(1, 2, 3), RGB::new(4, 5, 6)])
    );
    assert_eq!(
        ppmcanvas::encode::read_binary_payload(&vec![1, 2, 3, 4, 5, 6], 256),
        Some(vec![RGB::new(258, 772, 1286)])
    );
}

#[test]
fn narrow_dump_keeps_the_low_byte_of_a_channel_beyond_the_depth() {
    let img = PPMImg::new_with_bg(1, 1, 255, RGB::new(256, 257, 511));
    let mut expected = b"P6\n1 1 255\n".to_vec();
    expected.extend_from_slice(&[0, 1, 255]);
    assert_eq!(img.write_binary(), expected);
}

#[test]
fn describe_names_rows_columns_and_depth() {
    assert_eq!(PPMImg::new(3, 4, 255).describe(), b"PPMImg { 3 by 4, depth=255 }".to_vec());
    assert_eq!(PPMImg::new(0, 10, 65535).describe(), b"PPMImg { 0 by 10, depth=65535 }".to_vec());
}
