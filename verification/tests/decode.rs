use ppmcanvas::colors::RGB;
use ppmcanvas::decode::read_binary;
use ppmcanvas::image::PPMImg;

fn same(a: &PPMImg, b: &PPMImg) -> bool {
    a.width == b.width && a.height == b.height && a.depth == b.depth && a.data == b.data
}

#[test]
fn written_canvas_is_read_back() {
    let mut img = PPMImg::new(3, 4, 255);
    img.set_fg_color(RGB::new(255, 0, 17));
    img.plot(1, 2);
    img.set_fg_color(RGB::new(10, 32, 48));
    img.plot(3, 0);
    let back = read_binary(&img.write_binary()).expect("a dump that was written");
    assert!(same(&img, &back));
    assert_eq!(back.data[9], RGB::new(255, 0, 17));
    assert_eq!(back.data[3], RGB::new(10, 32, 48));
    assert_eq!(back.fg_color, RGB::gray(255));
    assert_eq!(back.bg_color, RGB::gray(0));
    assert!(!back.x_wrap && !back.y_wrap && !back.invert_y);
}

#[test]
fn written_deep_canvas_is_read_back() {
    let mut img = PPMImg::new(2, 2, 65535);
    img.set_fg_color(RGB::new(65535, 256, 255));
    img.plot(0, 0);
    img.set_fg_color(RGB::new(12345, 0, 1));
    img.plot(1, 1);
    let back = read_binary(&img.write_binary()).expect("a dump that was written");
    assert!(same(&img, &back));
}

#[test]
fn written_empty_canvas_is_read_back() {
    let img = PPMImg::new(0, 5, 7);
    let back = read_binary(&img.write_binary()).expect("a dump that was written");
    assert!(same(&img, &back));
    assert_eq!(back.data.len(), 0);
}

#[test]
fn pixel_bytes_that_look_like_digits_or_spaces_are_pixels() {
    let img = PPMImg::new_with_bg(1, 2, 255, RGB::new(48, 32, 10));
    let back = read_binary(&img.write_binary()).expect("a dump that was written");
    assert!(same(&img, &back));
}

#[test]
fn reads_a_dump_given_byte_by_byte() {
    let mut dump = b"P6\n2 1 255\n".to_vec();
    dump.extend_from_slice(&[1, 2, 3, 4, 5, 6]);
    let img = read_binary(&dump).expect("a well-formed dump");
    assert_eq!((img.width, img.height, img.depth), (2, 1, 255));
    assert_eq!(img.data, vec![RGB::new(1, 2, 3), RGB::new(4, 5, 6)]);
    let mut deep = b"P6\n1 1 256\n".to_vec();
    deep.extend_from_slice(&[1, 0, 0, 255, 2, 3]);
    let img = read_binary(&deep).expect("a well-formed dump");
    assert_eq!(img.data, vec![RGB::new(256, 255, 515)]);
}

#[test]
fn malformed_dumps_are_rejected() {
    let pixels = [1u8, 2, 3, 4, 5, 6];
    let with = |head: &str, body: &[u8]| {
        let mut dump = head.as_bytes().to_vec();
        dump.extend_from_slice(body);
        dump
    };
    assert!(read_binary(&with("P6\n2 1 255\n", &pixels)).is_some());
    assert!(read_binary(&with("P6\n02 1 255\n", &pixels)).is_some());
    assert!(read_binary(&with("P3\n2 1 255\n", &pixels)).is_none());
    assert!(read_binary(&with("P6 2 1 255\n", &pixels)).is_none());
    assert!(read_binary(&with("P6\n2  1 255\n", &pixels)).is_none());
    assert!(read_binary(&with("P6\n2 1 255 ", &pixels)).is_none());
    assert!(read_binary(&with("P6\n2 1\n255\n", &pixels)).is_none());
    assert!(read_binary(&with("P6\n 2 1 255\n", &pixels)).is_none());
    assert!(read_binary(&with("P6\n-2 1 255\n", &pixels)).is_none());
    assert!(read_binary(&with("P6\n2 1 65536\n", &pixels)).is_none());
    assert!(read_binary(&with("P6\n4294967296 1 255\n", &pixels)).is_none());
    assert!(read_binary(&with("P6\n2 1 255\n", &pixels[..5])).is_none());
    assert!(read_binary(&with("P6\n2 1 255\n", &pixels[..3])).is_none());
    assert!(read_binary(&with("P6\n1 1 255\n", &pixels)).is_none());
    assert!(read_binary(&with("P6\n2 1 255", &[])).is_none());
    assert!(read_binary(&with("P6\n", &[])).is_none());
    assert!(read_binary(&[]).is_none());
}
