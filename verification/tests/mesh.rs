use ppmcanvas::mesh::{box_triangles, corner, Corner};

#[test]
fn a_box_has_twelve_triangles() {
    let triangles = box_triangles();
    assert_eq!(triangles.len(), 12);
    assert_eq!(triangles[0], (0, 1, 2));
    assert_eq!(triangles[1], (2, 1, 3));
    assert_eq!(triangles[11], (5, 7, 3));
    for (a, b, c) in triangles {
        assert!(a < 8 && b < 8 && c < 8);
        assert!(a != b && b != c && a != c);
    }
}

#[test]
fn every_corner_of_a_box_is_used() {
    let triangles = box_triangles();
    for k in 0..8u8 {
        assert!(triangles.iter().any(|t| t.0 == k || t.1 == k || t.2 == k));
    }
}

#[test]
fn each_face_of_a_box_has_two_triangles() {
    let triangles = box_triangles();
    let faces: [fn(Corner) -> bool; 6] = [
        |c| !c.back,
        |c| c.right,
        |c| c.back,
        |c| !c.right,
        |c| !c.down,
        |c| c.down,
    ];
    for (f, face) in faces.iter().enumerate() {
        for t in &triangles[2 * f..2 * f + 2] {
            assert!(face(corner(t.0)) && face(corner(t.1)) && face(corner(t.2)));
        }
    }
}

#[test]
fn corners_are_numbered_by_their_moves() {
    assert_eq!(corner(0), Corner { right: false, down: false, back: false });
    assert_eq!(corner(1), Corner { right: false, down: true, back: false });
    assert_eq!(corner(2), Corner { right: true, down: false, back: false });
    assert_eq!(corner(3), Corner { right: true, down: true, back: false });
    assert_eq!(corner(4), Corner { right: false, down: false, back: true });
    assert_eq!(corner(7), Corner { right: true, down: true, back: true });
}
