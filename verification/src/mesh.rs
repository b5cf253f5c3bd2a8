//! The triangles of a box, over its eight corners.
//!
//! A box is anchored at one corner and extends to the right, downwards
//! and backwards. Its corners are numbered 0 to 7: corner `k` is moved
//! downwards where bit 0 of `k` is set, to the right where bit 1 is set and
//! backwards where bit 2 is set.

use vstd::prelude::*;

verus! {

/// Along which axes a corner is moved away from the anchor.
#[derive(Clone, Copy, Debug, PartialEq, Eq, Structural)]
pub struct Corner {
    pub right: bool,
    pub down: bool,
    pub back: bool,
}

/// Corner `k` of a box.
pub open spec fn corner_of(k: u8) -> Corner {
    Corner { right: (k / 2) % 2 == 1, down: k % 2 == 1, back: (k / 4) % 2 == 1 }
}

/// The twelve triangles of a box, two to a face: front, right, back,
/// left, top, bottom.
pub open spec fn box_faces() -> Seq<(u8, u8, u8)> {
    seq![
        (0u8, 1u8, 2u8),
        (2u8, 1u8, 3u8),
        (2u8, 3u8, 7u8),
        (2u8, 7u8, 6u8),
        (6u8, 7u8, 5u8),
        (6u8, 5u8, 4u8),
        (4u8, 5u8, 1u8),
        (4u8, 1u8, 0u8),
        (6u8, 0u8, 2u8),
        (6u8, 4u8, 0u8),
        (5u8, 3u8, 1u8),
        (5u8, 7u8, 3u8),
    ]
}

/// The three corners lie on one face of the box: all three are moved, or
/// all three are not, along one axis.
pub open spec fn on_one_face(t: (u8, u8, u8)) -> bool {
    let (a, b, c) = (corner_of(t.0), corner_of(t.1), corner_of(t.2));
    ||| (a.right == b.right && b.right == c.right)
    ||| (a.down == b.down && b.down == c.down)
    ||| (a.back == b.back && b.back == c.back)
}

/// Where a corner of the unit box stands: one to the right, one down,
/// one back, for each axis along which it is moved.
pub open spec fn place(c: Corner) -> (int, int, int) {
    (if c.right { 1int } else { 0int }, if c.down { -1int } else { 0int }, if c.back {
        -1int
    } else {
        0int
    })
}

/// The triangle winds counter-clockwise for one who looks at the box from
/// outside: the normal of its corners in their order, by the right-hand
/// rule, points away from the middle of the unit box.
pub open spec fn winds_outward(t: (u8, u8, u8)) -> bool {
    let a = place(corner_of(t.0));
    let b = place(corner_of(t.1));
    let c = place(corner_of(t.2));
    let u = (b.0 - a.0, b.1 - a.1, b.2 - a.2);
    let v = (c.0 - a.0, c.1 - a.1, c.2 - a.2);
    let n = (u.1 * v.2 - u.2 * v.1, u.2 * v.0 - u.0 * v.2, u.0 * v.1 - u.1 * v.0);
    // twice the way from the middle of the box to the first corner
    let out = (2 * a.0 - 1, 2 * a.1 + 1, 2 * a.2 + 1);
    n.0 * out.0 + n.1 * out.1 + n.2 * out.2 > 0
}

/// One triangle of the box winds outward.
proof fn lemma_winds(i: int)
    requires
        0 <= i < 12,
    ensures
        winds_outward(box_faces()[i]),
{
    let t = box_faces()[i];
    let a = place(corner_of(t.0));
    let b = place(corner_of(t.1));
    let c = place(corner_of(t.2));
    let u = (b.0 - a.0, b.1 - a.1, b.2 - a.2);
    let v = (c.0 - a.0, c.1 - a.1, c.2 - a.2);
    let n = (u.1 * v.2 - u.2 * v.1, u.2 * v.0 - u.0 * v.2, u.0 * v.1 - u.1 * v.0);
    let out = (2 * a.0 - 1, 2 * a.1 + 1, 2 * a.2 + 1);
    if i == 0 {
        assert(a == (0int, 0int, 0int) && b == (0int, -1int, 0int) && c == (1int, 0int, 0int));
    } else if i == 1 {
        assert(a == (1int, 0int, 0int) && b == (0int, -1int, 0int) && c == (1int, -1int, 0int));
    } else if i == 2 {
        assert(a == (1int, 0int, 0int) && b == (1int, -1int, 0int) && c == (1int, -1int, -1int));
    } else if i == 3 {
        assert(a == (1int, 0int, 0int) && b == (1int, -1int, -1int) && c == (1int, 0int, -1int));
    } else if i == 4 {
        assert(a == (1int, 0int, -1int) && b == (1int, -1int, -1int) && c == (0int, -1int, -1int));
    } else if i == 5 {
        assert(a == (1int, 0int, -1int) && b == (0int, -1int, -1int) && c == (0int, 0int, -1int));
    } else if i == 6 {
        assert(a == (0int, 0int, -1int) && b == (0int, -1int, -1int) && c == (0int, -1int, 0int));
    } else if i == 7 {
        assert(a == (0int, 0int, -1int) && b == (0int, -1int, 0int) && c == (0int, 0int, 0int));
    } else if i == 8 {
        assert(a == (1int, 0int, -1int) && b == (0int, 0int, 0int) && c == (1int, 0int, 0int));
    } else if i == 9 {
        assert(a == (1int, 0int, -1int) && b == (0int, 0int, -1int) && c == (0int, 0int, 0int));
    } else if i == 10 {
        assert(a == (0int, -1int, -1int) && b == (1int, -1int, 0int) && c == (0int, -1int, 0int));
    } else {
        assert(a == (0int, -1int, -1int) && b == (1int, -1int, -1int) && c == (1int, -1int, 0int));
    }
    assert(n.0 * out.0 + n.1 * out.1 + n.2 * out.2 > 0) by (nonlinear_arith)
        requires
            n == (u.1 * v.2 - u.2 * v.1, u.2 * v.0 - u.0 * v.2, u.0 * v.1 - u.1 * v.0),
            u == (b.0 - a.0, b.1 - a.1, b.2 - a.2),
            v == (c.0 - a.0, c.1 - a.1, c.2 - a.2),
            out == (2 * a.0 - 1, 2 * a.1 + 1, 2 * a.2 + 1),
            ({
                ||| (a == (0int, 0int, 0int) && b == (0int, -1int, 0int) && c == (1int, 0int, 0int))
                ||| (a == (1int, 0int, 0int) && b == (0int, -1int, 0int) && c == (1int, -1int, 0int))
                ||| (a == (1int, 0int, 0int) && b == (1int, -1int, 0int) && c == (1int, -1int, -1int))
                ||| (a == (1int, 0int, 0int) && b == (1int, -1int, -1int) && c == (1int, 0int, -1int))
                ||| (a == (1int, 0int, -1int) && b == (1int, -1int, -1int) && c == (0int, -1int, -1int))
                ||| (a == (1int, 0int, -1int) && b == (0int, -1int, -1int) && c == (0int, 0int, -1int))
                ||| (a == (0int, 0int, -1int) && b == (0int, -1int, -1int) && c == (0int, -1int, 0int))
                ||| (a == (0int, 0int, -1int) && b == (0int, -1int, 0int) && c == (0int, 0int, 0int))
                ||| (a == (1int, 0int, -1int) && b == (0int, 0int, 0int) && c == (1int, 0int, 0int))
                ||| (a == (1int, 0int, -1int) && b == (0int, 0int, -1int) && c == (0int, 0int, 0int))
                ||| (a == (0int, -1int, -1int) && b == (1int, -1int, 0int) && c == (0int, -1int, 0int))
                ||| (a == (0int, -1int, -1int) && b == (1int, -1int, -1int) && c == (1int, -1int, 0int))
            }),
    ;
}

/// A box has twelve triangles; each joins three different corners of one
/// face, and each winds counter-clockwise seen from outside the box.
pub proof fn lemma_box_faces()
    ensures
        box_faces().len() == 12,
        forall|i: int|
            0 <= i < 12 ==> {
                let t = #[trigger] box_faces()[i];
                &&& t.0 < 8 && t.1 < 8 && t.2 < 8
                &&& t.0 != t.1 && t.1 != t.2 && t.0 != t.2
                &&& on_one_face(t)
                &&& winds_outward(t)
            },
{
    let f = box_faces();
    assert(on_one_face(f[0]) && on_one_face(f[1]) && on_one_face(f[2]) && on_one_face(f[3]));
    assert(on_one_face(f[4]) && on_one_face(f[5]) && on_one_face(f[6]) && on_one_face(f[7]));
    assert(on_one_face(f[8]) && on_one_face(f[9]) && on_one_face(f[10]) && on_one_face(f[11]));
    assert forall|i: int| 0 <= i < 12 implies winds_outward(#[trigger] box_faces()[i]) by {
        lemma_winds(i);
    }
}

/// Along which axes corner `k` is moved away from the anchor.
pub fn corner(k: u8) -> (c: Corner)
    ensures
        c == corner_of(k),
{
    Corner { right: (k / 2) % 2 == 1, down: k % 2 == 1, back: (k / 4) % 2 == 1 }
}

/// The triangles of a box, as corner numbers.
pub fn box_triangles() -> (t: Vec<(u8, u8, u8)>)
    ensures
        t@ == box_faces(),
{
    let t = vec![
        (0u8, 1u8, 2u8),
        (2u8, 1u8, 3u8),
        (2u8, 3u8, 7u8),
        (2u8, 7u8, 6u8),
        (6u8, 7u8, 5u8),
        (6u8, 5u8, 4u8),
        (4u8, 5u8, 1u8),
        (4u8, 1u8, 0u8),
        (6u8, 0u8, 2u8),
        (6u8, 4u8, 0u8),
        (5u8, 3u8, 1u8),
        (5u8, 7u8, 3u8),
    ];
    assert(t@ =~= box_faces());
    t
}

} // verus!
