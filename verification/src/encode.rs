//! Byte layouts of the pixel-dump formats.

use vstd::prelude::*;
use crate::colors::RGB;
use crate::image::PPMImg;

verus! {

/// The decimal digits of `n`, most significant first, as ASCII bytes.
pub open spec fn decimal(n: nat) -> Seq<u8>
    decreases n,
{
    if n < 10 {
        seq![(48 + n) as u8]
    } else {
        decimal(n / 10).push((48 + n % 10) as u8)
    }
}

/// Appends the decimal digits of `n` to `out`.
pub fn push_decimal(out: &mut Vec<u8>, n: u32)
    ensures
        final(out)@ == old(out)@ + decimal(n as nat),
{
    let mut digits: Vec<u8> = Vec::new();
    let mut rest: u32 = n;
    // Least significant digit first.
    while rest >= 10
        invariant
            decimal(n as nat) == decimal(rest as nat) + digits@.reverse(),
        decreases rest,
    {
        let d: u8 = (rest % 10) as u8 + 48;
        proof {
            let r = rest as nat;
            assert(decimal(r) == decimal(r / 10).push((48 + r % 10) as u8));
            assert(digits@.push(d).reverse() =~= seq![d] + digits@.reverse());
            assert(decimal(r) + digits@.reverse() =~= decimal(r / 10) + digits@.push(d).reverse());
        }
        digits.push(d);
        rest = rest / 10;
    }
    let lead: u8 = rest as u8 + 48;
    out.push(lead);
    let ghost base = out@;
    let mut i: usize = digits.len();
    while i > 0
        invariant
            i <= digits.len(),
            out@ == base + digits@.reverse().subrange(0, digits.len() - i),
        decreases i,
    {
        i = i - 1;
        out.push(digits[i]);
        proof {
            let rev = digits@.reverse();
            let k = digits.len() - i - 1;
            assert(rev[k] == digits@[i as int]);
            assert(rev.subrange(0, k + 1) =~= rev.subrange(0, k).push(rev[k]));
        }
    }
    proof {
        let rev = digits@.reverse();
        assert(rev.subrange(0, digits.len() as int) =~= rev);
        assert(decimal(rest as nat) =~= seq![lead]);
        assert(base =~= old(out)@ + seq![lead]);
        assert(out@ =~= old(out)@ + (decimal(rest as nat) + rev));
    }
}

/// Channel `k` of a colour: red, green, blue.
pub open spec fn channel(c: RGB, k: int) -> u16 {
    if k == 0 {
        c.red
    } else if k == 1 {
        c.green
    } else {
        c.blue
    }
}

/// The first two lines of a pixel dump: the letter `P` and the digit that
/// names the format, then width, height and the largest channel value,
/// separated by one space.
pub open spec fn header(format: u8, width: nat, height: nat, depth: nat) -> Seq<u8> {
    seq![80u8, format, 10u8] + decimal(width) + seq![32u8] + decimal(height) + seq![32u8]
        + decimal(depth) + seq![10u8]
}

/// The pixels with one byte per channel: the low byte of each channel.
pub open spec fn narrow_payload(pixels: Seq<RGB>) -> Seq<u8> {
    Seq::new(3 * pixels.len(), |k: int| (channel(pixels[k / 3], k % 3) % 256) as u8)
}

/// The pixels with two bytes per channel, the high byte first.
pub open spec fn wide_payload(pixels: Seq<RGB>) -> Seq<u8> {
    Seq::new(
        6 * pixels.len(),
        |k: int|
            {
                let c = channel(pixels[k / 6], (k % 6) / 2);
                if k % 2 == 0 {
                    (c / 256) as u8
                } else {
                    (c % 256) as u8
                }
            },
    )
}

/// One pixel with one byte per channel.
pub open spec fn narrow_bytes(c: RGB) -> Seq<u8> {
    seq![(c.red % 256) as u8, (c.green % 256) as u8, (c.blue % 256) as u8]
}

/// One pixel with two bytes per channel, the high byte first.
pub open spec fn wide_bytes(c: RGB) -> Seq<u8> {
    seq![
        (c.red / 256) as u8,
        (c.red % 256) as u8,
        (c.green / 256) as u8,
        (c.green % 256) as u8,
        (c.blue / 256) as u8,
        (c.blue % 256) as u8,
    ]
}

/// The narrow payload grows by one pixel's bytes with each pixel.
pub proof fn lemma_narrow_push(pixels: Seq<RGB>, c: RGB)
    ensures
        narrow_payload(pixels.push(c)) == narrow_payload(pixels) + narrow_bytes(c),
{
    let n = pixels.len() as int;
    let more = pixels.push(c);
    let left = narrow_payload(more);
    let right = narrow_payload(pixels) + narrow_bytes(c);
    assert(left.len() == right.len());
    assert forall|k: int| 0 <= k < left.len() implies left[k] == right[k] by {
        if k < 3 * n {
            assert(k / 3 < n);
            assert(more[k / 3] == pixels[k / 3]);
        } else {
            assert(k / 3 == n);
            assert(more[n] == c);
            assert(right[k] == narrow_bytes(c)[k - 3 * n]);
            assert(k % 3 == k - 3 * n);
        }
    }
    assert(left =~= right);
}

/// The wide payload grows by one pixel's bytes with each pixel.
pub proof fn lemma_wide_push(pixels: Seq<RGB>, c: RGB)
    ensures
        wide_payload(pixels.push(c)) == wide_payload(pixels) + wide_bytes(c),
{
    let n = pixels.len() as int;
    let more = pixels.push(c);
    let left = wide_payload(more);
    let right = wide_payload(pixels) + wide_bytes(c);
    assert(left.len() == right.len());
    assert forall|k: int| 0 <= k < left.len() implies left[k] == right[k] by {
        if k < 6 * n {
            assert(k / 6 < n);
            assert(more[k / 6] == pixels[k / 6]);
        } else {
            assert(k / 6 == n);
            assert(more[n] == c);
            let r = k - 6 * n;
            assert(right[k] == wide_bytes(c)[r]);
            assert(k % 6 == r);
            assert(k % 2 == r % 2);
        }
    }
    assert(left =~= right);
}

/// The pixels in the binary format: one byte per channel while the largest
/// channel value fits a byte, two otherwise.
pub open spec fn binary_payload(pixels: Seq<RGB>, depth: nat) -> Seq<u8> {
    if depth < 256 {
        narrow_payload(pixels)
    } else {
        wide_payload(pixels)
    }
}

/// The pixels in the textual format: one line per pixel, its three
/// channels in decimal with one space between them.
pub open spec fn ascii_payload(pixels: Seq<RGB>) -> Seq<u8>
    decreases pixels.len(),
{
    if pixels.len() == 0 {
        Seq::empty()
    } else {
        let c = pixels.last();
        ascii_payload(pixels.drop_last()) + decimal(c.red as nat) + seq![32u8] + decimal(
            c.green as nat,
        ) + seq![32u8] + decimal(c.blue as nat) + seq![10u8]
    }
}

/// Appends the header of format `format` to `out`.
fn push_header(out: &mut Vec<u8>, format: u8, width: u32, height: u32, depth: u16)
    ensures
        final(out)@ == old(out)@ + header(format, width as nat, height as nat, depth as nat),
{
    out.push(80);
    out.push(format);
    out.push(10);
    push_decimal(out, width);
    out.push(32);
    push_decimal(out, height);
    out.push(32);
    push_decimal(out, depth as u32);
    out.push(10);
    assert(out@ =~= old(out)@ + header(format, width as nat, height as nat, depth as nat));
}

/// A canvas in a few words: its type, `height by width` and its depth.
pub open spec fn summary(height: nat, width: nat, depth: nat) -> Seq<u8> {
    seq![80u8, 80, 77, 73, 109, 103, 32, 123, 32] + decimal(height) + seq![32u8, 98, 121, 32]
        + decimal(width) + seq![44u8, 32, 100, 101, 112, 116, 104, 61] + decimal(depth) + seq![
        32u8,
        125,
    ]
}

impl PPMImg {
    /// The canvas in a few words, in ASCII: `PPMImg { 3 by 4, depth=255 }`
    /// for one of three rows and four columns.
    pub fn describe(&self) -> (text: Vec<u8>)
        ensures
            text@ == summary(self.height as nat, self.width as nat, self.depth as nat),
    {
        let mut out: Vec<u8> = vec![80u8, 80, 77, 73, 109, 103, 32, 123, 32];
        push_decimal(&mut out, self.height);
        out.push(32);
        out.push(98);
        out.push(121);
        out.push(32);
        push_decimal(&mut out, self.width);
        out.push(44);
        out.push(32);
        out.push(100);
        out.push(101);
        out.push(112);
        out.push(116);
        out.push(104);
        out.push(61);
        push_decimal(&mut out, self.depth as u32);
        out.push(32);
        out.push(125);
        assert(out@ =~= summary(self.height as nat, self.width as nat, self.depth as nat));
        out
    }

    /// The canvas in the binary pixel-dump format.
    pub fn write_binary(&self) -> (bytes: Vec<u8>)
        ensures
            bytes@ == header(54, self.width as nat, self.height as nat, self.depth as nat)
                + binary_payload(self.data@, self.depth as nat),
    {
        let mut out: Vec<u8> = Vec::new();
        push_header(&mut out, 54, self.width, self.height, self.depth);
        let ghost head = out@;
        let n = self.data.len();
        let mut i: usize = 0;
        assert(narrow_payload(self.data@.subrange(0, 0)) =~= Seq::empty());
        assert(wide_payload(self.data@.subrange(0, 0)) =~= Seq::empty());
        if self.depth < 256 {
            while i < n
                invariant
                    i <= n,
                    n == self.data@.len(),
                    out@ == head + narrow_payload(self.data@.subrange(0, i as int)),
                decreases n - i,
            {
                let t = self.data[i];
                out.push((t.red % 256) as u8);
                out.push((t.green % 256) as u8);
                out.push((t.blue % 256) as u8);
                proof {
                    let done = self.data@.subrange(0, i as int);
                    lemma_narrow_push(done, t);
                    assert(self.data@.subrange(0, i + 1) =~= done.push(t));
                    assert(out@ =~= head + (narrow_payload(done) + narrow_bytes(t)));
                }
                i = i + 1;
            }
        } else {
            while i < n
                invariant
                    i <= n,
                    n == self.data@.len(),
                    out@ == head + wide_payload(self.data@.subrange(0, i as int)),
                decreases n - i,
            {
                let t = self.data[i];
                out.push((t.red / 256) as u8);
                out.push((t.red % 256) as u8);
                out.push((t.green / 256) as u8);
                out.push((t.green % 256) as u8);
                out.push((t.blue / 256) as u8);
                out.push((t.blue % 256) as u8);
                proof {
                    let done = self.data@.subrange(0, i as int);
                    lemma_wide_push(done, t);
                    assert(self.data@.subrange(0, i + 1) =~= done.push(t));
                    assert(out@ =~= head + (wide_payload(done) + wide_bytes(t)));
                }
                i = i + 1;
            }
        }
        assert(self.data@.subrange(0, n as int) =~= self.data@);
        out
    }

    /// The canvas in the textual pixel-dump format.
    pub fn write_ascii(&self) -> (bytes: Vec<u8>)
        ensures
            bytes@ == header(51, self.width as nat, self.height as nat, self.depth as nat)
                + ascii_payload(self.data@),
    {
        let mut out: Vec<u8> = Vec::new();
        push_header(&mut out, 51, self.width, self.height, self.depth);
        let ghost head = out@;
        let n = self.data.len();
        let mut i: usize = 0;
        assert(ascii_payload(self.data@.subrange(0, 0)) =~= Seq::empty());
        while i < n
            invariant
                i <= n,
                n == self.data@.len(),
                out@ == head + ascii_payload(self.data@.subrange(0, i as int)),
            decreases n - i,
        {
            let t = self.data[i];
            let ghost done = self.data@.subrange(0, i as int);
            push_decimal(&mut out, t.red as u32);
            out.push(32);
            push_decimal(&mut out, t.green as u32);
            out.push(32);
            push_decimal(&mut out, t.blue as u32);
            out.push(10);
            i = i + 1;
            proof {
                let now = self.data@.subrange(0, i as int);
                assert(now.drop_last() =~= done);
                assert(now.last() == t);
                assert(out@ =~= head + ascii_payload(now));
            }
        }
        assert(self.data@.subrange(0, n as int) =~= self.data@);
        out
    }
}

/// The pixels that a payload of one byte per channel holds.
pub open spec fn narrow_pixels(bytes: Seq<u8>) -> Seq<RGB> {
    Seq::new(
        bytes.len() / 3,
        |k: int|
            RGB {
                red: bytes[3 * k] as u16,
                green: bytes[3 * k + 1] as u16,
                blue: bytes[3 * k + 2] as u16,
            },
    )
}

/// The pixels that a payload of two bytes per channel holds.
pub open spec fn wide_pixels(bytes: Seq<u8>) -> Seq<RGB> {
    Seq::new(
        bytes.len() / 6,
        |k: int|
            RGB {
                red: (bytes[6 * k] * 256 + bytes[6 * k + 1]) as u16,
                green: (bytes[6 * k + 2] * 256 + bytes[6 * k + 3]) as u16,
                blue: (bytes[6 * k + 4] * 256 + bytes[6 * k + 5]) as u16,
            },
    )
}

/// The pixels that a binary payload holds, read at the given largest
/// channel value; nothing where the payload ends inside a pixel.
pub open spec fn binary_pixels(bytes: Seq<u8>, depth: nat) -> Option<Seq<RGB>> {
    if depth < 256 {
        if bytes.len() % 3 == 0 {
            Some(narrow_pixels(bytes))
        } else {
            None
        }
    } else {
        if bytes.len() % 6 == 0 {
            Some(wide_pixels(bytes))
        } else {
            None
        }
    }
}

/// Every channel of every pixel is at most `depth`.
pub open spec fn within_depth(pixels: Seq<RGB>, depth: nat) -> bool {
    forall|i: int|
        0 <= i < pixels.len() ==> (#[trigger] pixels[i]).red <= depth && pixels[i].green <= depth
            && pixels[i].blue <= depth
}

/// Reading back what was written gives the same pixels, provided that
/// no channel exceeds the largest channel value when that fits a byte.
pub proof fn lemma_binary_round_trip(pixels: Seq<RGB>, depth: nat)
    requires
        depth < 256 ==> within_depth(pixels, depth),
    ensures
        binary_pixels(binary_payload(pixels, depth), depth) == Some(pixels),
{
    let bytes = binary_payload(pixels, depth);
    if depth < 256 {
        assert(bytes.len() == 3 * pixels.len());
        assert forall|k: int| 0 <= k < pixels.len() implies narrow_pixels(bytes)[k] == pixels[k] by {
            assert((3 * k) / 3 == k && (3 * k + 1) / 3 == k && (3 * k + 2) / 3 == k);
            let c = pixels[k];
            assert(c.red <= depth);
        }
        assert(narrow_pixels(bytes) =~= pixels);
    } else {
        assert(bytes.len() == 6 * pixels.len());
        assert forall|k: int| 0 <= k < pixels.len() implies wide_pixels(bytes)[k] == pixels[k] by {
            assert((6 * k) / 6 == k && (6 * k + 1) / 6 == k && (6 * k + 2) / 6 == k);
            assert((6 * k + 3) / 6 == k && (6 * k + 4) / 6 == k && (6 * k + 5) / 6 == k);
        }
        assert(wide_pixels(bytes) =~= pixels);
    }
}

/// Reads the pixels of a binary payload written at the given largest
/// channel value; `None` where the payload ends inside a pixel.
pub fn read_binary_payload(bytes: &[u8], depth: u16) -> (r: Option<Vec<RGB>>)
    ensures
        match r {
            Some(pixels) => binary_pixels(bytes@, depth as nat) == Some(pixels@),
            None => binary_pixels(bytes@, depth as nat) is None,
        },
{
    let unit: usize = if depth < 256 { 3 } else { 6 };
    if bytes.len() % unit != 0 {
        return None;
    }
    let len: usize = bytes.len();
    let n: usize = len / unit;
    proof {
        vstd::arithmetic::div_mod::lemma_fundamental_div_mod(bytes@.len() as int, unit as int);
    }
    let mut pixels: Vec<RGB> = Vec::new();
    let mut k: usize = 0;
    while k < n
        invariant
            k <= n,
            len == bytes@.len(),
            depth < 256 ==> bytes@.len() == 3 * n,
            depth >= 256 ==> bytes@.len() == 6 * n,
            unit == (if depth < 256 { 3usize } else { 6usize }),
            pixels@.len() == k,
            forall|j: int|
                0 <= j < k ==> pixels@[j] == (if depth < 256 {
                    narrow_pixels(bytes@)[j]
                } else {
                    wide_pixels(bytes@)[j]
                }),
        decreases n - k,
    {
        let pixel = if depth < 256 {
            RGB {
                red: bytes[3 * k] as u16,
                green: bytes[3 * k + 1] as u16,
                blue: bytes[3 * k + 2] as u16,
            }
        } else {
            RGB {
                red: (bytes[6 * k] as u16) * 256 + (bytes[6 * k + 1] as u16),
                green: (bytes[6 * k + 2] as u16) * 256 + (bytes[6 * k + 3] as u16),
                blue: (bytes[6 * k + 4] as u16) * 256 + (bytes[6 * k + 5] as u16),
            }
        };
        pixels.push(pixel);
        k = k + 1;
    }
    proof {
        if depth < 256 {
            assert(pixels@ =~= narrow_pixels(bytes@));
        } else {
            assert(pixels@ =~= wide_pixels(bytes@));
        }
    }
    Some(pixels)
}

} // verus!
