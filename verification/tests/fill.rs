use ppmcanvas::colors::RGB;
use ppmcanvas::fill::FillError;
use ppmcanvas::image::PPMImg;

fn ring(size: u32, lo: i32, hi: i32, wall: RGB) -> PPMImg {
    let mut img = PPMImg::new(size, size, 255);
    img.set_fg_color(wall);
    for k in lo..=hi {
        img.plot(k, lo);
        img.plot(k, hi);
        img.plot(lo, k);
        img.plot(hi, k);
    }
    img
}

#[test]
fn fill_paints_the_inside_of_a_closed_boundary() {
    let wall = RGB::new(9, 9, 9);
    let ink = RGB::new(0, 200, 0);
    let mut img = ring(9, 2, 6, wall);
    let before = img.data.clone();
    let fill = vec![ink; 81];
    assert_eq!(img.bound4_fill(4, 4, &fill, wall), Ok(()));
    for y in 0..9i32 {
        for x in 0..9i32 {
            let i = (y * 9 + x) as usize;
            let inside = 2 < x && x < 6 && 2 < y && y < 6;
            if inside {
                assert_eq!(img.data[i], ink);
            } else {
                assert_eq!(img.data[i], before[i]);
            }
        }
    }
}

#[test]
fn fill_follows_a_gradient() {
    let wall = RGB::new(9, 9, 9);
    let mut img = ring(9, 2, 6, wall);
    let fill: Vec<RGB> = (0..81u16).map(|i| RGB::new(100 + i, 0, 0)).collect();
    assert_eq!(img.bound4_fill(3, 5, &fill, wall), Ok(()));
    assert_eq!(img.data[3 * 9 + 3], RGB::new(130, 0, 0));
    assert_eq!(img.data[5 * 9 + 5], RGB::new(150, 0, 0));
    assert_eq!(img.data[2 * 9 + 2], wall);
    assert_eq!(img.data[0], RGB::gray(0));
}

#[test]
fn fill_from_the_boundary_changes_nothing() {
    let wall = RGB::new(9, 9, 9);
    let mut img = ring(9, 2, 6, wall);
    let before = img.data.clone();
    let fill = vec![RGB::new(1, 1, 1); 81];
    assert_eq!(img.bound4_fill(2, 4, &fill, wall), Ok(()));
    assert_eq!(img.data, before);
}

#[test]
fn fill_from_outside_the_canvas_changes_nothing() {
    let mut img = PPMImg::new(3, 3, 255);
    let fill = vec![RGB::new(1, 1, 1); 9];
    assert_eq!(img.bound4_fill(-1, 0, &fill, RGB::gray(7)), Ok(()));
    assert_eq!(img.data, vec![RGB::gray(0); 9]);
}

#[test]
fn fill_skips_pixels_already_of_their_fill_colour() {
    let mut img = PPMImg::new(3, 3, 255);
    let fill = vec![RGB::gray(0); 9];
    assert_eq!(img.bound4_fill(1, 1, &fill, RGB::gray(7)), Ok(()));
    assert_eq!(img.data, vec![RGB::gray(0); 9]);
}

#[test]
fn fill_is_abandoned_when_too_many_coordinates_wait() {
    let mut img = PPMImg::new(1, 1, 255);
    let ink = RGB::new(5, 6, 7);
    let fill = vec![ink; 1];
    assert_eq!(img.bound4_fill(0, 0, &fill, RGB::gray(9)), Err(FillError::Runaway));
    assert_eq!(img.data, vec![ink]);
}

#[test]
fn fill_at_the_corner_of_the_coordinate_range() {
    let mut img = PPMImg::new(4, 4, 255);
    img.x_wrap = true;
    img.y_wrap = true;
    let wall = RGB::gray(9);
    img.set_fg_color(wall);
    // i32::MAX wraps to column 3 and row 3; wall off that pixel
    img.plot(2, 3);
    img.plot(0, 3);
    img.plot(3, 2);
    img.plot(3, 0);
    let ink = RGB::new(1, 2, 3);
    let fill = vec![ink; 16];
    assert_eq!(img.bound4_fill(i32::MAX, i32::MAX, &fill, wall), Ok(()));
    assert_eq!(img.data[15], ink);
    assert_eq!(img.data.iter().filter(|c| **c == ink).count(), 1);
}

#[test]
fn fill_with_a_function_of_the_coordinates() {
    let wall = RGB::new(9, 9, 9);
    let mut img = ring(9, 2, 6, wall);
    let before = img.data.clone();
    let shade = |x: i64, y: i64| RGB::new(10 * x as u16, 10 * y as u16, 1);
    assert_eq!(img.bound4_fill_with_fn(4, 4, shade, wall), Ok(()));
    for y in 0..9i64 {
        for x in 0..9i64 {
            let i = (y * 9 + x) as usize;
            if 2 < x && x < 6 && 2 < y && y < 6 {
                assert_eq!(img.data[i], shade(x, y));
            } else {
                assert_eq!(img.data[i], before[i]);
            }
        }
    }
}

#[test]
fn fill_with_a_function_on_a_flipped_canvas() {
    let wall = RGB::new(9, 9, 9);
    let mut img = PPMImg::new(3, 3, 255);
    img.invert_y = true;
    img.set_fg_color(wall);
    img.plot(0, 1);
    img.plot(1, 1);
    img.plot(2, 1);
    let shade = |x: i64, y: i64| RGB::new(x as u16 + 1, y as u16 + 1, 0);
    assert_eq!(img.bound4_fill_with_fn(1, 0, shade, wall), Ok(()));
    // row 0 is stored last
    assert_eq!(img.data[6..9], [RGB::new(1, 1, 0), RGB::new(2, 1, 0), RGB::new(3, 1, 0)]);
    assert_eq!(img.data[3..6], [wall, wall, wall]);
    assert_eq!(img.data[0..3], [RGB::gray(0), RGB::gray(0), RGB::gray(0)]);
}

#[test]
fn fill_with_a_function_is_abandoned_when_too_many_coordinates_wait() {
    let mut img = PPMImg::new(1, 2, 255);
    let r = img.bound4_fill_with_fn(0, 0, |_, _| RGB::new(1, 1, 1), RGB::gray(9));
    assert_eq!(r, Err(FillError::Runaway));
    assert_eq!(img.data[0], RGB::new(1, 1, 1));
}

#[test]
fn fill_through_a_wrapping_edge() {
    let wall = RGB::new(9, 9, 9);
    let mut img = PPMImg::new(5, 5, 255);
    img.x_wrap = true;
    img.set_fg_color(wall);
    // a wall in rows 1 and 3 and in column 2 leaves columns 3, 4, 0, 1 of row 2 joined
    for x in 0..5 {
        img.plot(x, 1);
        img.plot(x, 3);
    }
    img.plot(2, 2);
    let ink = RGB::new(0, 0, 7);
    assert_eq!(img.bound4_fill(4, 2, &vec![ink; 25], wall), Ok(()));
    assert_eq!(img.data[10..15], [ink, ink, wall, ink, ink]);
    assert_eq!(img.data.iter().filter(|c| **c == ink).count(), 4);
}

#[test]
fn fill_from_an_off_grid_seed_compares_with_the_colour_at_the_seed() {
    let here = RGB::new(1, 1, 1);
    let there = RGB::new(2, 2, 2);
    let mut img = PPMImg::new_with_bg(1, 4, 255, here);
    img.x_wrap = true;
    let shade = |x: i64, _y: i64| if x == -1 { here } else { there };
    // (-1, 0) addresses pixel 3, which has the colour given at (-1, 0)
    assert_eq!(img.bound4_fill_with_fn(-1, 0, shade, RGB::gray(9)), Ok(()));
    assert_eq!(img.data, vec![here; 4]);
}

#[test]
fn fill_from_an_off_grid_seed_paints_the_colour_at_the_popped_coordinate() {
    let wall = RGB::gray(9);
    let mut img = PPMImg::new(3, 8, 255);
    img.x_wrap = true;
    img.set_fg_color(wall);
    for x in 0..8 {
        img.plot(x, 0);
        img.plot(x, 2);
    }
    // row 1: walls at columns 0..=5 leave columns 6 and 7 open
    for x in 0..6 {
        img.plot(x, 1);
    }
    let shade = |x: i64, y: i64| RGB::new((x + 100) as u16, y as u16, 0);
    assert_eq!(img.bound4_fill_with_fn(-1, 1, shade, wall), Ok(()));
    // pixel 7 was reached as (-1, 1), pixel 6 as (-2, 1)
    assert_eq!(img.data[8 + 7], RGB::new(99, 1, 0));
    assert_eq!(img.data[8 + 6], RGB::new(98, 1, 0));
    assert_eq!(img.data.iter().filter(|c| **c != wall).count(), 2);
}

#[test]
fn fill_asks_the_function_only_where_a_pixel_is_not_of_the_boundary_colour() {
    let wall = RGB::gray(9);
    let mut img = ring(9, 2, 6, wall);
    let asked = std::cell::RefCell::new(Vec::new());
    let shade = |x: i64, y: i64| {
        asked.borrow_mut().push((x, y));
        RGB::new(5, 5, 5)
    };
    assert_eq!(img.bound4_fill_with_fn(4, 4, shade, wall), Ok(()));
    let asked = asked.into_inner();
    assert!(!asked.is_empty());
    for (x, y) in asked {
        assert!(2 < x && x < 6 && 2 < y && y < 6);
    }
}

#[test]
fn fill_from_a_boundary_pixel_does_not_ask_the_function() {
    let wall = RGB::gray(9);
    let mut img = ring(9, 2, 6, wall);
    let before = img.data.clone();
    let asked = std::cell::Cell::new(0);
    let shade = |_x: i64, _y: i64| {
        asked.set(asked.get() + 1);
        RGB::new(5, 5, 5)
    };
    assert_eq!(img.bound4_fill_with_fn(2, 2, shade, wall), Ok(()));
    assert_eq!(img.bound4_fill_with_fn(-3, 40, shade, wall), Ok(()));
    assert_eq!(asked.get(), 0);
    assert_eq!(img.data, before);
}
