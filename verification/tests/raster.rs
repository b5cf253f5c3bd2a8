use ppmcanvas::colors::RGB;
use ppmcanvas::image::PPMImg;

fn lit(img: &PPMImg) -> Vec<(usize, usize)> {
    let w = img.width() as usize;
    let mut out = Vec::new();
    for (i, c) in img.data.iter().enumerate() {
        if *c == img.fg_color {
            out.push((i % w, i / w));
        }
    }
    out
}

#[test]
fn horizontal_line() {
    let mut img = PPMImg::new(3, 6, 255);
    img.draw_line(1, 1, 4, 1);
    assert_eq!(lit(&img), vec![(1, 1), (2, 1), (3, 1), (4, 1)]);
}

#[test]
fn vertical_line_drawn_upwards() {
    let mut img = PPMImg::new(5, 3, 255);
    img.draw_line(2, 4, 2, 1);
    assert_eq!(lit(&img), vec![(2, 1), (2, 2), (2, 3), (2, 4)]);
}

#[test]
fn diagonal_line() {
    let mut img = PPMImg::new(4, 4, 255);
    img.draw_line(0, 0, 3, 3);
    assert_eq!(lit(&img), vec![(0, 0), (1, 1), (2, 2), (3, 3)]);
}

#[test]
fn shallow_line_rounds_to_the_nearest_row() {
    let mut img = PPMImg::new(3, 5, 255);
    img.draw_line(0, 0, 4, 2);
    // rows 0, 0.5, 1, 1.5, 2: the halves round away from the start
    assert_eq!(lit(&img), vec![(0, 0), (1, 1), (2, 1), (3, 2), (4, 2)]);
}

#[test]
fn steep_line_towards_the_origin() {
    let mut img = PPMImg::new(5, 3, 255);
    img.draw_line(2, 4, 1, 0);
    // columns 2, 1.75, 1.5, 1.25, 1
    assert_eq!(lit(&img), vec![(1, 0), (1, 1), (1, 2), (2, 3), (2, 4)]);
}

#[test]
fn single_point_line() {
    let mut img = PPMImg::new(3, 3, 255);
    img.draw_line(1, 2, 1, 2);
    assert_eq!(lit(&img), vec![(1, 2)]);
}

#[test]
fn line_is_clipped_at_the_edges() {
    let mut img = PPMImg::new(3, 3, 255);
    img.draw_line(-2, 1, 5, 1);
    assert_eq!(lit(&img), vec![(0, 1), (1, 1), (2, 1)]);
}

#[test]
fn line_wraps_on_a_wrapping_canvas() {
    let mut img = PPMImg::new(3, 4, 255);
    img.x_wrap = true;
    img.draw_line(3, 0, 5, 0);
    assert_eq!(lit(&img), vec![(0, 0), (1, 0), (3, 0)]);
}

#[test]
fn line_uses_the_foreground_colour() {
    let mut img = PPMImg::new(2, 2, 255);
    let ink = RGB::new(7, 8, 9);
    img.set_fg_color(ink);
    img.draw_line(0, 1, 1, 1);
    assert_eq!(img.data, vec![RGB::gray(0), RGB::gray(0), ink, ink]);
}

#[test]
fn filled_triangle_holds_its_edges_and_inside() {
    let mut img = PPMImg::new(6, 6, 255);
    img.fill_triangle((0, 0), (4, 0), (0, 4));
    let mut expected = Vec::new();
    for y in 0..6usize {
        for x in 0..6usize {
            if x + y <= 4 {
                expected.push((x, y));
            }
        }
    }
    assert_eq!(lit(&img), expected);
    assert_eq!(expected.len(), 15);
}

#[test]
fn filled_triangle_is_the_same_in_both_windings() {
    let mut one = PPMImg::new(8, 8, 255);
    one.fill_triangle((1, 1), (6, 2), (3, 7));
    let mut other = PPMImg::new(8, 8, 255);
    other.fill_triangle((3, 7), (6, 2), (1, 1));
    assert_eq!(one.data, other.data);
    assert_eq!(one.data[8 + 1], RGB::gray(255));
    assert_eq!(one.data[2 * 8 + 6], RGB::gray(255));
    assert_eq!(one.data[7 * 8 + 3], RGB::gray(255));
    assert_eq!(one.data[4 * 8 + 3], RGB::gray(255));
    assert_eq!(one.data[7 * 8 + 6], RGB::gray(0));
    assert_eq!(one.data[8 + 6], RGB::gray(0));
}

#[test]
fn flat_triangles() {
    let mut point = PPMImg::new(3, 3, 255);
    point.fill_triangle((1, 1), (1, 1), (1, 1));
    assert_eq!(lit(&point), vec![(1, 1)]);
    let mut diagonal = PPMImg::new(5, 5, 255);
    diagonal.fill_triangle((0, 0), (2, 2), (4, 4));
    assert_eq!(lit(&diagonal), vec![(0, 0), (1, 1), (2, 2), (3, 3), (4, 4)]);
}

#[test]
fn filled_triangle_is_clipped_at_the_edges() {
    let mut img = PPMImg::new(3, 3, 255);
    img.fill_triangle((-5, -5), (10, -5), (-5, 10));
    assert_eq!(lit(&img).len(), 9);
    let mut away = PPMImg::new(3, 3, 255);
    away.fill_triangle((5, 5), (9, 5), (5, 9));
    assert_eq!(lit(&away), vec![]);
}

#[test]
fn edges_are_drawn_pair_by_pair() {
    let mut img = PPMImg::new(4, 4, 255);
    img.render_edge_matrix(&vec![(0, 0), (3, 0), (3, 1), (3, 3)]);
    assert_eq!(lit(&img), vec![(0, 0), (1, 0), (2, 0), (3, 0), (3, 1), (3, 2), (3, 3)]);
    let mut blank = PPMImg::new(2, 2, 255);
    blank.render_edge_matrix(&vec![]);
    assert_eq!(lit(&blank), vec![]);
}

#[test]
fn polygons_are_filled_triple_by_triple() {
    let mut img = PPMImg::new(4, 6, 255);
    img.render_polygon_matrix(&vec![(0, 0), (1, 0), (0, 1), (5, 3), (5, 2), (4, 3)]);
    assert_eq!(lit(&img), vec![(0, 0), (1, 0), (0, 1), (5, 2), (4, 3), (5, 3)]);
    let mut blank = PPMImg::new(2, 2, 255);
    blank.render_polygon_matrix(&vec![]);
    assert_eq!(lit(&blank), vec![]);
}
