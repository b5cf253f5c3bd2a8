use ppmcanvas::colors::RGB;
use ppmcanvas::image::PPMImg;

#[test]
fn new_canvas_is_black_with_white_foreground() {
    let img = PPMImg::new(3, 4, 255);
    assert_eq!(img.height(), 3);
    assert_eq!(img.width(), 4);
    assert_eq!(img.depth, 255);
    assert_eq!(img.data.len(), 12);
    assert!(img.data.iter().all(|c| *c == RGB::gray(0)));
    assert_eq!(img.get_fg_color(), RGB::gray(255));
    assert_eq!(img.get_bg_color(), RGB::new(0, 0, 0));
    assert!(!img.x_wrap && !img.y_wrap && !img.invert_y);
}

#[test]
fn new_with_bg_fills_with_background() {
    let bg = RGB::new(1, 2, 3);
    let img = PPMImg::new_with_bg(2, 5, 1000, bg);
    assert_eq!(img.data, vec![bg; 10]);
    assert_eq!(img.bg_color, bg);
    assert_eq!(img.fg_color, RGB::gray(1000));
}

#[test]
fn empty_canvas_has_no_pixels() {
    let mut img = PPMImg::new(0, 7, 255);
    assert_eq!(img.data.len(), 0);
    assert_eq!(img.index(0, 0), None);
    img.y_wrap = true;
    img.x_wrap = true;
    assert_eq!(img.index(3, 5), None);
}

#[test]
fn index_is_row_major() {
    let img = PPMImg::new(4, 10, 255);
    assert_eq!(img.index(0, 0), Some(0));
    assert_eq!(img.index(9, 0), Some(9));
    assert_eq!(img.index(0, 1), Some(10));
    assert_eq!(img.index(7, 3), Some(37));
}

#[test]
fn index_without_wrap_drops_outside_coordinates() {
    let img = PPMImg::new(4, 10, 255);
    assert_eq!(img.index(-1, 0), None);
    assert_eq!(img.index(10, 0), None);
    assert_eq!(img.index(0, -1), None);
    assert_eq!(img.index(0, 4), None);
    assert_eq!(img.index(i32::MIN, i32::MAX), None);
}

#[test]
fn index_wraps_horizontally() {
    let mut img = PPMImg::new(4, 10, 255);
    img.x_wrap = true;
    assert_eq!(img.index(-1, 0), img.index(9, 0));
    assert_eq!(img.index(-1, 0), Some(9));
    assert_eq!(img.index(10, 2), Some(20));
    assert_eq!(img.index(23, 1), Some(13));
    assert_eq!(img.index(-10, 1), Some(10));
    assert_eq!(img.index(-11, 1), Some(19));
    assert_eq!(img.index(-20, 0), Some(0));
    assert_eq!(img.index(i32::MIN, 0), Some(2));
    assert_eq!(img.index(i32::MAX, 0), Some(7));
    assert_eq!(img.index(0, 4), None);
}

#[test]
fn index_wraps_vertically() {
    let mut img = PPMImg::new(4, 10, 255);
    img.y_wrap = true;
    assert_eq!(img.index(3, -1), Some(33));
    assert_eq!(img.index(3, 4), Some(3));
    assert_eq!(img.index(3, -4), Some(3));
    assert_eq!(img.index(3, 9), Some(13));
    assert_eq!(img.index(-1, 0), None);
}

#[test]
fn index_flips_rows_about_the_width() {
    let mut img = PPMImg::new(4, 4, 255);
    img.invert_y = true;
    assert_eq!(img.index(1, 0), Some(13));
    assert_eq!(img.index(1, 3), Some(1));
    assert_eq!(img.index(0, 4), None);
}

#[test]
fn flipped_row_outside_the_grid_has_no_pixel() {
    let mut wide = PPMImg::new(2, 5, 255);
    wide.invert_y = true;
    // rows 0 and 1 flip to 4 and 3, below the last row
    assert_eq!(wide.index(0, 0), None);
    assert_eq!(wide.index(0, 1), None);
    let mut tall = PPMImg::new(5, 2, 255);
    tall.invert_y = true;
    assert_eq!(tall.index(1, 0), Some(3));
    assert_eq!(tall.index(1, 1), Some(1));
    assert_eq!(tall.index(1, 2), None);
    assert_eq!(tall.index(1, 4), None);
}

#[test]
fn plot_writes_foreground_and_ignores_misses() {
    let mut img = PPMImg::new(3, 3, 255);
    let red = RGB::new(255, 0, 0);
    img.set_fg_color(red);
    img.plot(1, 2);
    img.plot(3, 0);
    img.plot(-1, -1);
    let mut expected = vec![RGB::gray(0); 9];
    expected[7] = red;
    assert_eq!(img.data, expected);
}

#[test]
fn plot_wraps_when_asked() {
    let mut img = PPMImg::new(3, 3, 255);
    img.x_wrap = true;
    img.y_wrap = true;
    img.plot(-1, -1);
    assert_eq!(img.data[8], RGB::gray(255));
    img.plot(4, 3);
    assert_eq!(img.data[1], RGB::gray(255));
}

#[test]
fn clear_resets_to_background() {
    let mut img = PPMImg::new(2, 2, 255);
    img.plot(0, 0);
    img.plot(1, 1);
    let blue = RGB::new(0, 0, 200);
    img.set_bg_color(blue);
    img.clear();
    assert_eq!(img.data, vec![blue; 4]);
    assert_eq!(img.get_bg_color(), blue);
    assert_eq!(img.get_fg_color(), RGB::gray(255));
}

#[test]
fn wrapped_coordinates_repeat_with_the_extent() {
    let mut img = PPMImg::new(7, 10, 255);
    img.x_wrap = true;
    img.y_wrap = true;
    for x in -25..25 {
        for y in -20..20 {
            assert_eq!(img.index(x, y), img.index(x + 10, y));
            assert_eq!(img.index(x, y), img.index(x, y - 7));
            assert_eq!(img.index(x, y), img.index(x - 30, y + 14));
        }
    }
}

#[test]
fn equal_canvases_have_equal_dimensions_depth_and_pixels() {
    let mut a = PPMImg::new(2, 3, 255);
    let mut b = PPMImg::new(2, 3, 255);
    assert!(a == b);
    b.x_wrap = true;
    b.invert_y = true;
    b.set_fg_color(RGB::new(1, 2, 3));
    b.set_bg_color(RGB::new(4, 5, 6));
    assert!(a == b);
    a.plot(1, 1);
    assert!(a != b);
    b.set_fg_color(RGB::gray(255));
    b.invert_y = false;
    b.plot(1, 1);
    assert_eq!(a, b);
    assert!(PPMImg::new(2, 3, 255) != PPMImg::new(3, 2, 255));
    assert!(PPMImg::new(2, 3, 255) != PPMImg::new(2, 3, 254));
    assert!(PPMImg::new(0, 3, 255) != PPMImg::new(0, 4, 255));
}
