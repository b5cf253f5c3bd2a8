//! Reading the binary pixel-dump format back.

use vstd::prelude::*;
use vstd::slice::slice_subrange;
use crate::colors::RGB;
use crate::encode::{
    binary_payload, binary_pixels, decimal, header, lemma_binary_round_trip, read_binary_payload,
    within_depth,
};
use crate::image::PPMImg;

verus! {

/// The byte is an ASCII digit.
pub open spec fn is_digit(b: u8) -> bool {
    48 <= b && b <= 57
}

/// Where the run of digits that starts at `from` ends.
pub open spec fn digits_end(bytes: Seq<u8>, from: int) -> int
    decreases bytes.len() - from,
{
    if 0 <= from < bytes.len() && is_digit(bytes[from]) {
        digits_end(bytes, from + 1)
    } else {
        from
    }
}

/// The number that a string of digits denotes.
pub open spec fn digits_value(digits: Seq<u8>) -> nat
    decreases digits.len(),
{
    if digits.len() == 0 {
        0
    } else {
        digits_value(digits.drop_last()) * 10 + (digits.last() - 48) as nat
    }
}

/// The number written at `from`, and where it ends: at least one digit,
/// and a value of at most `max`.
pub open spec fn number_at(bytes: Seq<u8>, from: int, max: nat) -> Option<(nat, int)> {
    let end = digits_end(bytes, from);
    let value = digits_value(bytes.subrange(from, end));
    if end == from || value > max {
        None
    } else {
        Some((value, end))
    }
}

/// `byte` stands at `at`.
pub open spec fn has_byte(bytes: Seq<u8>, at: int, byte: u8) -> bool {
    0 <= at < bytes.len() && bytes[at] == byte
}

/// The header of a binary dump: width, height and largest channel value,
/// and where the pixels start.
pub open spec fn header_at(bytes: Seq<u8>) -> Option<(nat, nat, nat, int)> {
    if !(has_byte(bytes, 0, 80) && has_byte(bytes, 1, 54) && has_byte(bytes, 2, 10)) {
        None
    } else {
        match number_at(bytes, 3, 0xffff_ffff) {
            Some((w, p)) if has_byte(bytes, p, 32) => match number_at(bytes, p + 1, 0xffff_ffff) {
                Some((h, q)) if has_byte(bytes, q, 32) => match number_at(bytes, q + 1, 0xffff) {
                    Some((d, r)) if has_byte(bytes, r, 10) => Some((w, h, d, r + 1)),
                    _ => None,
                },
                _ => None,
            },
            _ => None,
        }
    }
}

/// What a binary dump holds: width, height, largest channel value and
/// pixels; nothing unless the header is well formed and followed by
/// exactly one pixel per cell.
pub open spec fn dump_of(bytes: Seq<u8>) -> Option<(nat, nat, nat, Seq<RGB>)> {
    match header_at(bytes) {
        Some((w, h, d, at)) => match binary_pixels(bytes.subrange(at, bytes.len() as int), d) {
            Some(pixels) if pixels.len() == w * h => Some((w, h, d, pixels)),
            _ => None,
        },
        None => None,
    }
}

/// The digits of a number are digits, and there is at least one.
pub proof fn lemma_decimal_digits(n: nat)
    ensures
        decimal(n).len() >= 1,
        forall|i: int| 0 <= i < decimal(n).len() ==> is_digit(#[trigger] decimal(n)[i]),
        digits_value(decimal(n)) == n,
    decreases n,
{
    if n >= 10 {
        lemma_decimal_digits(n / 10);
        let d = decimal(n);
        assert(d.drop_last() =~= decimal(n / 10));
    } else {
        let d = decimal(n);
        assert(d.drop_last() =~= Seq::<u8>::empty());
        assert(digits_value(d.drop_last()) == 0);
    }
}

/// A run of `count` digits that stops at a byte that is no digit, or at
/// the end, ends there.
proof fn lemma_digits_end(bytes: Seq<u8>, from: int, count: nat)
    requires
        0 <= from,
        from + count <= bytes.len(),
        forall|i: int| from <= i < from + count ==> is_digit(#[trigger] bytes[i]),
        from + count == bytes.len() || !is_digit(bytes[from + count]),
    ensures
        digits_end(bytes, from) == from + count,
    decreases count,
{
    if count > 0 {
        lemma_digits_end(bytes, from + 1, (count - 1) as nat);
    }
}

/// A number written in decimal and followed by no digit is read back.
proof fn lemma_number_round_trip(bytes: Seq<u8>, from: int, n: nat, max: nat)
    requires
        n <= max,
        0 <= from,
        from + decimal(n).len() <= bytes.len(),
        bytes.subrange(from, from + decimal(n).len()) == decimal(n),
        from + decimal(n).len() == bytes.len() || !is_digit(bytes[from + decimal(n).len()]),
    ensures
        number_at(bytes, from, max) == Some((n, from + decimal(n).len())),
{
    let digits = decimal(n);
    lemma_decimal_digits(n);
    assert forall|i: int| from <= i < from + digits.len() implies is_digit(#[trigger] bytes[i]) by {
        assert(bytes[i] == bytes.subrange(from, from + digits.len())[i - from]);
    }
    lemma_digits_end(bytes, from, digits.len());
}

/// What was written is read back: the dump of a canvas with one pixel per
/// cell holds its width, height, largest channel value and pixels,
/// provided that no channel exceeds the largest channel value when that
/// fits a byte.
pub proof fn lemma_dump_round_trip(width: nat, height: nat, depth: nat, pixels: Seq<RGB>)
    requires
        width <= u32::MAX,
        height <= u32::MAX,
        depth <= u16::MAX,
        pixels.len() == width * height,
        depth < 256 ==> within_depth(pixels, depth),
    ensures
        dump_of(header(54, width, height, depth) + binary_payload(pixels, depth)) == Some(
            (width, height, depth, pixels),
        ),
{
    let (w, h, d) = (decimal(width), decimal(height), decimal(depth));
    let payload = binary_payload(pixels, depth);
    let head = header(54, width, height, depth);
    let bytes = head + payload;
    lemma_decimal_digits(width);
    lemma_decimal_digits(height);
    lemma_decimal_digits(depth);
    let p: int = 3 + w.len() as int;
    let q: int = p + 1 + h.len() as int;
    let r: int = q + 1 + d.len() as int;
    assert(head.len() == r + 1);
    assert(bytes[0] == 80 && bytes[1] == 54 && bytes[2] == 10);
    assert(bytes[p] == 32 && bytes[q] == 32 && bytes[r] == 10);
    assert(bytes.subrange(3, p) =~= w);
    assert(bytes.subrange(p + 1, q) =~= h);
    assert(bytes.subrange(q + 1, r) =~= d);
    lemma_number_round_trip(bytes, 3, width, 0xffff_ffff);
    lemma_number_round_trip(bytes, p + 1, height, 0xffff_ffff);
    lemma_number_round_trip(bytes, q + 1, depth, 0xffff);
    assert(header_at(bytes) == Some((width, height, depth, r + 1)));
    assert(bytes.subrange(r + 1, bytes.len() as int) =~= payload);
    lemma_binary_round_trip(pixels, depth);
}

/// Reads the number written at `from`.
fn read_number(bytes: &[u8], from: usize, max: u64) -> (r: Option<(u64, usize)>)
    requires
        from <= bytes@.len(),
        max <= 0xffff_ffff,
    ensures
        match r {
            Some((value, end)) => number_at(bytes@, from as int, max as nat) == Some(
                (value as nat, end as int),
            ) && end <= bytes@.len() && value <= max,
            None => number_at(bytes@, from as int, max as nat) is None,
        },
{
    let len = bytes.len();
    let mut i: usize = from;
    let mut value: u64 = 0;
    let mut over: bool = false;
    assert(bytes@.subrange(from as int, from as int) =~= Seq::empty());
    while i < len && 48 <= bytes[i] && bytes[i] <= 57
        invariant
            from <= i <= len,
            len == bytes@.len(),
            max <= 0xffff_ffff,
            digits_end(bytes@, from as int) == digits_end(bytes@, i as int),
            !over ==> value <= max && value == digits_value(bytes@.subrange(from as int, i as int)),
            over ==> digits_value(bytes@.subrange(from as int, i as int)) > max,
        decreases len - i,
    {
        proof {
            let next = bytes@.subrange(from as int, i + 1);
            assert(next.drop_last() =~= bytes@.subrange(from as int, i as int));
            assert(next.last() == bytes@[i as int]);
        }
        if !over {
            value = value * 10 + (bytes[i] - 48) as u64;
            if value > max {
                over = true;
            }
        }
        i = i + 1;
    }
    if i == from || over {
        None
    } else {
        Some((value, i))
    }
}

/// Whether `byte` stands at `at`.
fn byte_at(bytes: &[u8], at: usize, byte: u8) -> (r: bool)
    ensures
        r == has_byte(bytes@, at as int, byte),
{
    at < bytes.len() && bytes[at] == byte
}

/// Reads a binary dump: a canvas of the width, height and largest
/// channel value that the header gives, with the pixels that follow it;
/// the addressing modes are off, the foreground is the gray of full
/// intensity and the background is black. `None` unless the header is
/// well formed and followed by exactly one pixel per cell.
pub fn read_binary(bytes: &[u8]) -> (r: Option<PPMImg>)
    ensures
        match r {
            Some(img) => {
                &&& dump_of(bytes@) == Some(
                    (img.width as nat, img.height as nat, img.depth as nat, img.data@),
                )
                &&& img.wf()
                &&& !img.x_wrap && !img.y_wrap && !img.invert_y
                &&& img.fg_color == (RGB { red: img.depth, green: img.depth, blue: img.depth })
                &&& img.bg_color == (RGB { red: 0, green: 0, blue: 0 })
            },
            None => dump_of(bytes@) is None,
        },
{
    let len = bytes.len();
    if !(byte_at(bytes, 0, 80) && byte_at(bytes, 1, 54) && byte_at(bytes, 2, 10)) {
        return None;
    }
    let (width, p) = match read_number(bytes, 3, 0xffff_ffff) {
        Some(found) => found,
        None => { return None; },
    };
    if !byte_at(bytes, p, 32) {
        return None;
    }
    let (height, q) = match read_number(bytes, p + 1, 0xffff_ffff) {
        Some(found) => found,
        None => { return None; },
    };
    if !byte_at(bytes, q, 32) {
        return None;
    }
    let (depth, r) = match read_number(bytes, q + 1, 0xffff) {
        Some(found) => found,
        None => { return None; },
    };
    if !byte_at(bytes, r, 10) {
        return None;
    }
    let payload = slice_subrange(bytes, r + 1, len);
    let data = match read_binary_payload(payload, depth as u16) {
        Some(pixels) => pixels,
        None => { return None; },
    };
    assert(width * height <= 0xffff_ffff * 0xffff_ffff) by (nonlinear_arith)
        requires
            0 <= width <= 0xffff_ffff,
            0 <= height <= 0xffff_ffff,
    ;
    if data.len() as u64 != width * height {
        return None;
    }
    Some(
        PPMImg {
            height: height as u32,
            width: width as u32,
            depth: depth as u16,
            x_wrap: false,
            y_wrap: false,
            invert_y: false,
            fg_color: RGB::gray(depth as u16),
            bg_color: RGB::gray(0),
            data,
        },
    )
}

} // verus!
