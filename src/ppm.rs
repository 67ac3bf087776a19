use vstd::prelude::*;

use crate::cursor::{ByteCursor, PpmError};

verus! {

/// One pixel: a red, a green and a blue channel, one byte each.
#[derive(Clone, Copy, Debug, PartialEq, Eq, Structural)]
pub struct Pixel {
    pub r: u8,
    pub g: u8,
    pub b: u8,
}

/// A decoded picture: `pixels[row][column]`, row 0 being the first row
/// stored in the file.
pub struct Image {
    pub width: u32,
    pub height: u32,
    pub pixels: Vec<Vec<Pixel>>,
}

impl Image {
    /// `height` rows of `width` pixels each.
    pub open spec fn wf(&self) -> bool {
        &&& self.pixels@.len() == self.height
        &&& forall|r: int| 0 <= r < self.height ==> #[trigger] self.pixels@[r]@.len() == self.width
    }
}

/// Space, tab or newline.
pub open spec fn is_ws(b: u8) -> bool {
    b == 32 || b == 9 || b == 10
}

/// An ASCII decimal digit.
pub open spec fn is_digit(b: u8) -> bool {
    48 <= b <= 57
}

/// The first index at or after `p` that does not hold whitespace.
pub open spec fn skip_ws(s: Seq<u8>, p: int) -> int
    decreases s.len() - p,
{
    if 0 <= p < s.len() && is_ws(s[p]) {
        skip_ws(s, p + 1)
    } else {
        p
    }
}

/// The first index at or after `p` that does not hold a digit.
pub open spec fn digits_end(s: Seq<u8>, p: int) -> int
    decreases s.len() - p,
{
    if 0 <= p < s.len() && is_digit(s[p]) {
        digits_end(s, p + 1)
    } else {
        p
    }
}

/// The number that a run of decimal digits writes.
pub open spec fn decimal_value(d: Seq<u8>) -> nat
    decreases d.len(),
{
    if d.len() == 0 {
        0
    } else {
        decimal_value(d.drop_last()) * 10 + (d.last() - 48) as nat
    }
}

/// Reading one header number from position `p` of `s`: whitespace is skipped,
/// then digits are taken up to a whitespace byte, which is left unread. On
/// success, the number and the index of that whitespace byte.
pub open spec fn token_result(s: Seq<u8>, p: int) -> Result<(u32, int), PpmError> {
    let q = skip_ws(s, p);
    let e = digits_end(s, q);
    if e >= s.len() {
        Err(PpmError::IoError)
    } else if !is_ws(s[e]) {
        Err(PpmError::MalformedToken)
    } else if e == q || decimal_value(s.subrange(q, e)) > u32::MAX {
        Err(PpmError::MalformedToken)
    } else {
        Ok((decimal_value(s.subrange(q, e)) as u32, e))
    }
}

/// Reading the header from position `p` of `s`: the two bytes `P6`, then
/// width, height and maximum channel value as [`token_result`] reads them, then
/// one separator byte that is skipped unread. On success, the width, the height
/// and the index of the first pixel byte.
pub open spec fn header_result(s: Seq<u8>, p: int) -> Result<(u32, u32, int), PpmError> {
    if p + 2 > s.len() {
        Err(PpmError::IoError)
    } else if s[p] != 80 || s[p + 1] != 54 {
        Err(PpmError::InvalidMagic)
    } else {
        match token_result(s, p + 2) {
            Err(e) => Err(e),
            Ok((w, p1)) => match token_result(s, p1) {
                Err(e) => Err(e),
                Ok((h, p2)) => match token_result(s, p2) {
                    Err(e) => Err(e),
                    Ok((_m, p3)) => Ok((w, h, p3 + 1)),
                },
            },
        }
    }
}

/// Decoding from position `p` of `s`: the header, then three bytes for each of
/// the `width * height` pixels. On success, the width, the height and the index
/// of the first pixel byte.
pub open spec fn decode_result(s: Seq<u8>, p: int) -> Result<(u32, u32, int), PpmError> {
    match header_result(s, p) {
        Err(e) => Err(e),
        Ok((w, h, start)) => if start + 3 * (w * h) <= s.len() {
            Ok((w, h, start))
        } else {
            Err(PpmError::IoError)
        },
    }
}

/// The pixel whose red, green and blue bytes stand at `off`, `off + 1` and `off + 2`.
pub open spec fn pixel_at(s: Seq<u8>, off: int) -> Pixel {
    Pixel { r: s[off], g: s[off + 1], b: s[off + 2] }
}

/// `img` is well formed and holds, row after row, the pixels stored in `s`
/// from index `start` on.
pub open spec fn holds_pixels(img: Image, s: Seq<u8>, start: int) -> bool {
    &&& img.wf()
    &&& forall|r: int, c: int|
        0 <= r < img.height && 0 <= c < img.width ==> #[trigger] img.pixels@[r]@[c] == pixel_at(
            s,
            start + 3 * (r * img.width + c),
        )
}

/// A header number ends before the end of the buffer.
proof fn lemma_token_in_bounds(s: Seq<u8>, p: int)
    requires
        token_result(s, p) is Ok,
    ensures
        token_result(s, p)->Ok_0.1 < s.len(),
{
}

/// One more digit at the end of a run multiplies its value by ten and adds the digit.
proof fn lemma_decimal_push(s: Seq<u8>, q: int, e: int)
    requires
        0 <= q <= e < s.len(),
    ensures
        decimal_value(s.subrange(q, e + 1)) == decimal_value(s.subrange(q, e)) * 10 + (s[e] - 48) as nat,
{
    assert(s.subrange(q, e + 1).drop_last() =~= s.subrange(q, e));
}

/// Reads one unsigned decimal header number: skips spaces, tabs and newlines,
/// takes the digits that follow, and leaves the cursor on the whitespace byte
/// that ends them.
pub fn read_num(cursor: &mut ByteCursor) -> (r: Result<u32, PpmError>)
    ensures
        final(cursor).data() == old(cursor).data(),
        match r {
            Ok(v) => token_result(old(cursor).data(), old(cursor).pos())
                == Ok::<(u32, int), PpmError>((v, final(cursor).pos())),
            Err(e) => token_result(old(cursor).data(), old(cursor).pos()) == Err::<(u32, int), PpmError>(e),
        },
{
    let ghost s = cursor.data();
    let ghost p = cursor.pos();
    proof {
        cursor.lemma_pos_nonneg();
    }
    // whitespace
    loop
        invariant
            s == old(cursor).data(),
            p == old(cursor).pos(),
            cursor.data() == s,
            0 <= p <= cursor.pos(),
            skip_ws(s, p) == skip_ws(s, cursor.pos()),
        ensures
            cursor.data() == s,
            skip_ws(s, p) == skip_ws(s, cursor.pos()),
            cursor.pos() < s.len(),
            !is_ws(s[cursor.pos()]),
        decreases s.len() - cursor.pos(),
    {
        match cursor.read_byte() {
            Err(e) => {
                return Err(e);
            },
            Ok(c) => {
                if !(c == 32u8 || c == 9u8 || c == 10u8) {
                    match cursor.seek_relative(-1) {
                        Err(e) => {
                            return Err(e);
                        },
                        Ok(_) => {},
                    }
                    break;
                }
            },
        }
    }
    let start = cursor.position();
    let ghost q = cursor.pos();
    // digits
    let mut acc: u64 = 0;
    let mut too_big: bool = false;
    loop
        invariant
            s == old(cursor).data(),
            p == old(cursor).pos(),
            cursor.data() == s,
            skip_ws(s, p) == q,
            0 <= q <= cursor.pos() <= s.len(),
            digits_end(s, q) == digits_end(s, cursor.pos()),
            start == q,
            too_big == (decimal_value(s.subrange(q, cursor.pos())) > u32::MAX),
            !too_big ==> acc == decimal_value(s.subrange(q, cursor.pos())),
        ensures
            cursor.data() == s,
            cursor.pos() < s.len(),
            is_ws(s[cursor.pos()]),
            q <= cursor.pos(),
            digits_end(s, q) == cursor.pos(),
            too_big == (decimal_value(s.subrange(q, cursor.pos())) > u32::MAX),
            !too_big ==> acc == decimal_value(s.subrange(q, cursor.pos())),
        decreases s.len() - cursor.pos(),
    {
        let ghost at = cursor.pos();
        match cursor.read_byte() {
            Err(e) => {
                return Err(e);
            },
            Ok(c) => {
                if 48u8 <= c && c <= 57u8 {
                    proof {
                        lemma_decimal_push(s, q, at);
                    }
                    if !too_big {
                        let next: u64 = acc * 10 + (c - 48u8) as u64;
                        if next > u32::MAX as u64 {
                            too_big = true;
                        } else {
                            acc = next;
                        }
                    }
                } else if c == 32u8 || c == 9u8 || c == 10u8 {
                    match cursor.seek_relative(-1) {
                        Err(e) => {
                            return Err(e);
                        },
                        Ok(_) => {},
                    }
                    break;
                } else {
                    return Err(PpmError::MalformedToken);
                }
            },
        }
    }
    if cursor.position() == start || too_big {
        return Err(PpmError::MalformedToken);
    }
    Ok(acc as u32)
}

/// Decodes a binary PPM image from the cursor's position: the magic bytes
/// `P6`, the width, height and maximum channel value as decimal numbers
/// separated by whitespace, one separator byte, then three bytes (red, green,
/// blue) per pixel.
///
/// Pixel bytes are taken in the order the format stores them: row after row,
/// and within a row from left to right, so that `pixels[r][c]` is the pixel
/// at `3 * (r * width + c)` bytes past the header. The maximum channel value
/// is read but not checked against the bytes.
///
/// Decoding stops at the first failure, and no image is returned then.
pub fn decode_ppm_image(cursor: &mut ByteCursor) -> (r: Result<Image, PpmError>)
    ensures
        final(cursor).data() == old(cursor).data(),
        match r {
            Ok(img) => match decode_result(old(cursor).data(), old(cursor).pos()) {
                Ok((w, h, start)) => img.width == w && img.height == h
                    && holds_pixels(img, old(cursor).data(), start)
                    && final(cursor).pos() == start + 3 * (w * h),
                Err(_) => false,
            },
            Err(e) => decode_result(old(cursor).data(), old(cursor).pos())
                == Err::<(u32, u32, int), PpmError>(e)
                && (e == PpmError::InvalidMagic ==> final(cursor).pos() == old(cursor).pos() + 2),
        },
{
    let ghost s = cursor.data();
    let ghost p = cursor.pos();
    proof {
        cursor.lemma_pos_nonneg();
    }
    let magic = match cursor.read_exact(2) {
        Err(e) => {
            return Err(e);
        },
        Ok(m) => m,
    };
    if !(magic[0] == 80u8 && magic[1] == 54u8) {
        return Err(PpmError::InvalidMagic);
    }
    let w = match read_num(cursor) {
        Err(e) => {
            return Err(e);
        },
        Ok(v) => v,
    };
    let h = match read_num(cursor) {
        Err(e) => {
            return Err(e);
        },
        Ok(v) => v,
    };
    let ghost p3 = cursor.pos();
    let _max_value = match read_num(cursor) {
        Err(e) => {
            return Err(e);
        },
        Ok(v) => v,
    };
    proof {
        lemma_token_in_bounds(s, p3);
        cursor.lemma_pos_nonneg();
    }
    match cursor.seek_relative(1) {
        Err(e) => {
            return Err(e);
        },
        Ok(_) => {},
    }
    let ghost start = cursor.pos();
    assert(header_result(s, p) == Ok::<(u32, u32, int), PpmError>((w, h, start)));
    let mut pixels: Vec<Vec<Pixel>> = Vec::new();
    let mut row_i: u32 = 0;
    while row_i < h
        invariant
            s == old(cursor).data(),
            p == old(cursor).pos(),
            cursor.data() == s,
            header_result(s, p) == Ok::<(u32, u32, int), PpmError>((w, h, start)),
            0 <= start,
            row_i <= h,
            cursor.pos() == start + 3 * (row_i * w),
            cursor.pos() <= s.len(),
            pixels@.len() == row_i,
            forall|r: int| 0 <= r < row_i ==> #[trigger] pixels@[r]@.len() == w,
            forall|r: int, c: int|
                0 <= r < row_i && 0 <= c < w ==> #[trigger] pixels@[r]@[c] == pixel_at(
                    s,
                    start + 3 * (r * w + c),
                ),
        decreases h - row_i,
    {
        let mut row: Vec<Pixel> = Vec::new();
        let mut col: u32 = 0;
        while col < w
            invariant
                s == old(cursor).data(),
                p == old(cursor).pos(),
                cursor.data() == s,
                header_result(s, p) == Ok::<(u32, u32, int), PpmError>((w, h, start)),
                0 <= start,
                row_i < h,
                col <= w,
                cursor.pos() == start + 3 * (row_i * w + col),
                cursor.pos() <= s.len(),
                row@.len() == col,
                forall|c: int| 0 <= c < col ==> #[trigger] row@[c] == pixel_at(
                    s,
                    start + 3 * (row_i * w + c),
                ),
            decreases w - col,
        {
            let rgb = match cursor.read_exact(3) {
                Err(e) => {
                    proof {
                        assert(row_i * w + col + 1 <= w * h) by (nonlinear_arith)
                            requires
                                row_i < h,
                                col < w,
                        ;
                    }
                    return Err(e);
                },
                Ok(b) => b,
            };
            row.push(Pixel { r: rgb[0], g: rgb[1], b: rgb[2] });
            col = col + 1;
        }
        proof {
            assert((row_i + 1) * w == row_i * w + w) by (nonlinear_arith);
        }
        pixels.push(row);
        row_i = row_i + 1;
    }
    proof {
        assert(h * w == w * h) by (nonlinear_arith);
    }
    Ok(Image { width: w, height: h, pixels })
}

} // verus!
