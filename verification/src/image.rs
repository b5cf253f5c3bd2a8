//! The pixel buffer and its addressing.

use vstd::prelude::*;
use crate::colors::RGB;

verus! {

/// Where a coordinate lands on an axis of `extent` cells: itself when it is
/// on the axis, its remainder modulo the extent when the axis wraps, and
/// nowhere otherwise.
pub open spec fn wrap_axis(v: int, extent: int, wrap: bool) -> Option<int> {
    if extent <= 0 {
        None
    } else if wrap {
        Some(v % extent)
    } else if 0 <= v < extent {
        Some(v)
    } else {
        None
    }
}

/// The buffer position that `(x, y)` addresses on a grid of the given shape.
///
/// The vertical flip mirrors the row about the horizontal extent; a flipped
/// row that leaves the grid addresses no pixel.
pub open spec fn grid_index(
    width: int,
    height: int,
    x_wrap: bool,
    y_wrap: bool,
    invert_y: bool,
    x: int,
    y: int,
) -> Option<int> {
    match (wrap_axis(x, width, x_wrap), wrap_axis(y, height, y_wrap)) {
        (Some(col), Some(row)) => {
            let row = if invert_y { width - row - 1 } else { row };
            if 0 <= row < height {
                Some(row * width + col)
            } else {
                None
            }
        },
        _ => None,
    }
}

/// Executable form of `wrap_axis`.
pub(crate) fn wrap_coord(v: i128, extent: u32, wrap: bool) -> (r: Option<u32>)
    ensures
        match r {
            Some(c) => wrap_axis(v as int, extent as int, wrap) == Some(c as int) && c < extent,
            None => wrap_axis(v as int, extent as int, wrap) is None,
        },
{
    if extent == 0 {
        return None;
    }
    let e: u128 = extent as u128;
    if v >= 0 {
        let p: u128 = v as u128;
        if p < e {
            proof {
                vstd::arithmetic::div_mod::lemma_small_mod(p as nat, e as nat);
            }
            Some(p as u32)
        } else if wrap {
            Some((p % e) as u32)
        } else {
            None
        }
    } else if wrap {
        // -(v + 1) is the largest magnitude that always fits.
        let below: u128 = (-(v + 1)) as u128;
        let m: u128 = below % e;
        let q: u128 = below / e;
        let r: u128 = e - 1 - m;
        proof {
            vstd::arithmetic::div_mod::lemma_fundamental_div_mod(below as int, e as int);
            assert(v as int == (-(q as int) - 1) * (e as int) + (r as int)) by (nonlinear_arith)
                requires
                    below as int == (e as int) * (q as int) + (m as int),
                    v as int == -(below as int) - 1,
                    r as int == e as int - 1 - m as int,
            ;
            vstd::arithmetic::div_mod::lemma_fundamental_div_mod_converse(
                v as int,
                e as int,
                -(q as int) - 1,
                r as int,
            );
        }
        Some(r as u32)
    } else {
        None
    }
}

/// A fixed grid of pixels, stored row by row.
#[derive(Debug)]
pub struct PPMImg {
    /// Number of rows.
    pub height: u32,
    /// Number of columns.
    pub width: u32,
    /// The largest channel value.
    pub depth: u16,
    /// Whether horizontal coordinates wrap around the grid.
    pub x_wrap: bool,
    /// Whether vertical coordinates wrap around the grid.
    pub y_wrap: bool,
    /// Whether rows are mirrored before a pixel is addressed.
    pub invert_y: bool,
    /// The colour that `plot` writes.
    pub fg_color: RGB,
    /// The colour that `clear` writes.
    pub bg_color: RGB,
    /// The pixels, row by row.
    pub data: Vec<RGB>,
}

impl PPMImg {
    /// The buffer holds exactly one pixel per grid cell.
    pub open spec fn wf(&self) -> bool {
        self.data@.len() == self.width * self.height
    }

    /// The buffer position that `(x, y)` addresses, if any.
    pub open spec fn pixel_index(&self, x: int, y: int) -> Option<int> {
        grid_index(
            self.width as int,
            self.height as int,
            self.x_wrap,
            self.y_wrap,
            self.invert_y,
            x,
            y,
        )
    }

    /// Every addressed position lies inside the buffer.
    pub proof fn lemma_pixel_index_in_range(&self, x: int, y: int)
        requires
            self.wf(),
        ensures
            self.pixel_index(x, y) matches Some(i) ==> 0 <= i < self.data@.len(),
    {
        let w = self.width as int;
        let h = self.height as int;
        if let Some(i) = self.pixel_index(x, y) {
            let col = wrap_axis(x, w, self.x_wrap).unwrap();
            let row0 = wrap_axis(y, h, self.y_wrap).unwrap();
            let row = if self.invert_y { w - row0 - 1 } else { row0 };
            assert(0 <= col < w);
            assert(0 <= row < h);
            assert(0 <= row * w + col < w * h) by (nonlinear_arith)
                requires
                    0 <= col < w,
                    0 <= row < h,
            ;
        }
    }

    /// Toroidal addressing: on a wrapping axis, a coordinate moved by whole
    /// extents addresses the same pixel.
    pub proof fn lemma_wrap_period(&self, x: int, y: int, kx: int, ky: int)
        requires
            kx != 0 ==> self.x_wrap,
            ky != 0 ==> self.y_wrap,
        ensures
            self.pixel_index(x + kx * self.width, y + ky * self.height) == self.pixel_index(x, y),
    {
        let w = self.width as int;
        let h = self.height as int;
        if w > 0 {
            vstd::arithmetic::div_mod::lemma_mod_multiples_vanish(kx, x, w);
            assert(w * kx + x == x + kx * w) by (nonlinear_arith);
        }
        if h > 0 {
            vstd::arithmetic::div_mod::lemma_mod_multiples_vanish(ky, y, h);
            assert(h * ky + y == y + ky * h) by (nonlinear_arith);
        }
        if kx == 0 {
            assert(x + kx * w == x);
        }
        if ky == 0 {
            assert(y + ky * h == y);
        }
    }

    /// A coordinate off an axis that does not wrap addresses no pixel.
    pub proof fn lemma_no_wrap_outside(&self, x: int, y: int)
        ensures
            !self.x_wrap && !(0 <= x < self.width) ==> self.pixel_index(x, y) is None,
            !self.y_wrap && !(0 <= y < self.height) ==> self.pixel_index(x, y) is None,
    {
    }

    /// Two coordinates that address the same pixel still address the same
    /// pixel, or both none, after the same move.
    pub proof fn lemma_same_pixel_shift(&self, x1: int, y1: int, x2: int, y2: int, dx: int, dy: int)
        requires
            self.pixel_index(x1, y1) is Some,
            self.pixel_index(x1, y1) == self.pixel_index(x2, y2),
        ensures
            self.pixel_index(x1 + dx, y1 + dy) == self.pixel_index(x2 + dx, y2 + dy),
    {
        let w = self.width as int;
        let h = self.height as int;
        let c1 = wrap_axis(x1, w, self.x_wrap).unwrap();
        let c2 = wrap_axis(x2, w, self.x_wrap).unwrap();
        let r1 = wrap_axis(y1, h, self.y_wrap).unwrap();
        let r2 = wrap_axis(y2, h, self.y_wrap).unwrap();
        let f1 = if self.invert_y { w - r1 - 1 } else { r1 };
        let f2 = if self.invert_y { w - r2 - 1 } else { r2 };
        assert(f1 * w + c1 == f2 * w + c2);
        assert(0 <= c1 < w && 0 <= c2 < w);
        vstd::arithmetic::div_mod::lemma_fundamental_div_mod_converse(f1 * w + c1, w, f1, c1);
        vstd::arithmetic::div_mod::lemma_fundamental_div_mod_converse(f2 * w + c2, w, f2, c2);
        assert(c1 == c2 && r1 == r2);
        if self.x_wrap {
            vstd::arithmetic::div_mod::lemma_add_mod_noop(x1, dx, w);
            vstd::arithmetic::div_mod::lemma_add_mod_noop(x2, dx, w);
        }
        if self.y_wrap {
            vstd::arithmetic::div_mod::lemma_add_mod_noop(y1, dy, h);
            vstd::arithmetic::div_mod::lemma_add_mod_noop(y2, dy, h);
        }
    }

    /// On the grid itself no two coordinates address the same pixel.
    pub proof fn lemma_grid_injective(&self, x1: int, y1: int, x2: int, y2: int)
        requires
            0 <= x1 < self.width && 0 <= x2 < self.width,
            0 <= y1 < self.height && 0 <= y2 < self.height,
            self.pixel_index(x1, y1) is Some,
            self.pixel_index(x1, y1) == self.pixel_index(x2, y2),
        ensures
            x1 == x2 && y1 == y2,
    {
        let w = self.width as int;
        let h = self.height as int;
        vstd::arithmetic::div_mod::lemma_small_mod(x1 as nat, w as nat);
        vstd::arithmetic::div_mod::lemma_small_mod(x2 as nat, w as nat);
        vstd::arithmetic::div_mod::lemma_small_mod(y1 as nat, h as nat);
        vstd::arithmetic::div_mod::lemma_small_mod(y2 as nat, h as nat);
        let f1 = if self.invert_y { w - y1 - 1 } else { y1 };
        let f2 = if self.invert_y { w - y2 - 1 } else { y2 };
        assert(f1 * w + x1 == f2 * w + x2);
        vstd::arithmetic::div_mod::lemma_fundamental_div_mod_converse(f1 * w + x1, w, f1, x1);
        vstd::arithmetic::div_mod::lemma_fundamental_div_mod_converse(f2 * w + x2, w, f2, x2);
    }

    /// A canvas of `height` rows and `width` columns, black all over, with
    /// a white foreground.
    pub fn new(height: u32, width: u32, depth: u16) -> (img: PPMImg)
        requires
            width * height <= usize::MAX,
        ensures
            img.wf(),
            img.height == height,
            img.width == width,
            img.depth == depth,
            !img.x_wrap && !img.y_wrap && !img.invert_y,
            img.fg_color == (RGB { red: depth, green: depth, blue: depth }),
            img.bg_color == (RGB { red: 0, green: 0, blue: 0 }),
            img.data@ == Seq::new((width * height) as nat, |i: int| img.bg_color),
    {
        PPMImg::new_with_bg(height, width, depth, RGB::gray(0))
    }

    /// A canvas of `height` rows and `width` columns filled with
    /// `bg_color`; the foreground is the gray of full intensity.
    pub fn new_with_bg(height: u32, width: u32, depth: u16, bg_color: RGB) -> (img: PPMImg)
        requires
            width * height <= usize::MAX,
        ensures
            img.wf(),
            img.height == height,
            img.width == width,
            img.depth == depth,
            !img.x_wrap && !img.y_wrap && !img.invert_y,
            img.fg_color == (RGB { red: depth, green: depth, blue: depth }),
            img.bg_color == bg_color,
            img.data@ == Seq::new((width * height) as nat, |i: int| bg_color),
    {
        let ghost total: nat = (width * height) as nat;
        proof {
            assert(0 <= width * height) by (nonlinear_arith)
                requires
                    0 <= width,
                    0 <= height,
            ;
        }
        let n: usize = (width as usize) * (height as usize);
        let mut data: Vec<RGB> = Vec::new();
        let mut i: usize = 0;
        while i < n
            invariant
                i <= n,
                data@ == Seq::new(i as nat, |k: int| bg_color),
            decreases n - i,
        {
            data.push(bg_color);
            i = i + 1;
            assert(data@ =~= Seq::new(i as nat, |k: int| bg_color));
        }
        PPMImg {
            height,
            width,
            depth,
            x_wrap: false,
            y_wrap: false,
            invert_y: false,
            fg_color: RGB::gray(depth),
            bg_color,
            data,
        }
    }

    /// Number of columns.
    pub fn width(&self) -> (w: u32)
        ensures
            w == self.width,
    {
        self.width
    }

    /// Number of rows.
    pub fn height(&self) -> (h: u32)
        ensures
            h == self.height,
    {
        self.height
    }

    /// Resets every pixel to the background colour.
    pub fn clear(&mut self)
        ensures
            final(self).data@ == Seq::new(old(self).data@.len(), |i: int| old(self).bg_color),
            final(self).same_frame(old(self)),
    {
        let bg = self.bg_color;
        let n = self.data.len();
        let mut i: usize = 0;
        while i < n
            invariant
                i <= n,
                n == self.data@.len(),
                self.same_frame(old(self)),
                forall|k: int| 0 <= k < i ==> self.data@[k] == bg,
            decreases n - i,
        {
            self.data.set(i, bg);
            i = i + 1;
        }
        assert(self.data@ =~= Seq::new(n as nat, |k: int| bg));
    }

    /// Everything but the pixels is the same in both canvases.
    pub open spec fn same_frame(&self, other: &PPMImg) -> bool {
        &&& self.width == other.width
        &&& self.height == other.height
        &&& self.depth == other.depth
        &&& self.data@.len() == other.data@.len()
        &&& self.x_wrap == other.x_wrap
        &&& self.y_wrap == other.y_wrap
        &&& self.invert_y == other.invert_y
        &&& self.fg_color == other.fg_color
        &&& self.bg_color == other.bg_color
    }

    /// The buffer position of the pixel that `(x, y)` addresses, or `None`
    /// when it addresses no pixel.
    pub fn index(&self, x: i32, y: i32) -> (r: Option<usize>)
        requires
            self.wf(),
        ensures
            match r {
                Some(i) => self.pixel_index(x as int, y as int) == Some(i as int)
                    && i < self.data@.len(),
                None => self.pixel_index(x as int, y as int) is None,
            },
    {
        self.locate(x as i128, y as i128)
    }

    /// `index` for coordinates of any size.
    pub(crate) fn locate(&self, x: i128, y: i128) -> (r: Option<usize>)
        requires
            self.wf(),
        ensures
            match r {
                Some(i) => self.pixel_index(x as int, y as int) == Some(i as int)
                    && i < self.data@.len(),
                None => self.pixel_index(x as int, y as int) is None,
            },
    {
        let col = match wrap_coord(x, self.width, self.x_wrap) {
            Some(c) => c,
            None => { return None; },
        };
        let row = match wrap_coord(y, self.height, self.y_wrap) {
            Some(r) => r,
            None => { return None; },
        };
        let row = if self.invert_y {
            if row >= self.width || self.width - row - 1 >= self.height {
                return None;
            }
            self.width - row - 1
        } else {
            row
        };
        let total = self.data.len();
        proof {
            let r = row as int;
            let c = col as int;
            let w = self.width as int;
            let h = self.height as int;
            assert(0 <= r * w && r * w + c < w * h) by (nonlinear_arith)
                requires
                    0 <= c < w,
                    0 <= r < h,
            ;
            assert(w * h == total);
        }
        Some((row as usize) * (self.width as usize) + (col as usize))
    }

    /// Writes the foreground colour at `(x, y)`; a coordinate that
    /// addresses no pixel is ignored.
    pub fn plot(&mut self, x: i32, y: i32)
        requires
            old(self).wf(),
        ensures
            final(self).same_frame(old(self)),
            final(self).data@ == match old(self).pixel_index(x as int, y as int) {
                Some(i) => old(self).data@.update(i, old(self).fg_color),
                None => old(self).data@,
            },
    {
        if let Some(i) = self.index(x, y) {
            let c = self.fg_color;
            self.data.set(i, c);
        }
    }

    /// Sets the colour that `plot` writes.
    pub fn set_fg_color(&mut self, color: RGB)
        ensures
            *final(self) == (PPMImg { fg_color: color, ..*old(self) }),
    {
        self.fg_color = color;
    }

    /// Sets the colour that `clear` writes.
    pub fn set_bg_color(&mut self, color: RGB)
        ensures
            *final(self) == (PPMImg { bg_color: color, ..*old(self) }),
    {
        self.bg_color = color;
    }

    /// The colour that `plot` writes.
    pub fn get_fg_color(&self) -> (c: RGB)
        ensures
            c == self.fg_color,
    {
        self.fg_color
    }

    /// The colour that `clear` writes.
    pub fn get_bg_color(&self) -> (c: RGB)
        ensures
            c == self.bg_color,
    {
        self.bg_color
    }
}

impl PartialEq for PPMImg {
    /// Two canvases are equal where their dimensions, depth and pixels
    /// are; addressing modes and colours in use do not count.
    fn eq(&self, other: &Self) -> (r: bool) {
        if self.height != other.height || self.width != other.width || self.depth != other.depth
            || self.data.len() != other.data.len() {
            return false;
        }
        let n = self.data.len();
        let mut i: usize = 0;
        while i < n
            invariant
                i <= n,
                n == self.data@.len(),
                n == other.data@.len(),
                forall|k: int| 0 <= k < i ==> self.data@[k] == other.data@[k],
            decreases n - i,
        {
            if self.data[i] != other.data[i] {
                return false;
            }
            i = i + 1;
        }
        assert(self.data@ =~= other.data@);
        true
    }
}

impl Eq for PPMImg {

}

impl vstd::std_specs::cmp::PartialEqSpecImpl for PPMImg {
    open spec fn obeys_eq_spec() -> bool {
        true
    }

    open spec fn eq_spec(&self, other: &Self) -> bool {
        self.height == other.height && self.width == other.width && self.depth == other.depth
            && self.data@ == other.data@
    }
}

} // verus!
