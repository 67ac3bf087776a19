use vstd::prelude::*;

use vstd::arithmetic::div_mod::lemma_fundamental_div_mod_converse;

use crate::cursor::PpmError;
use crate::ppm::{decimal_value, decode_result, header_result, digits_end, holds_pixels, is_digit, pixel_at, is_ws, skip_ws, token_result, Image, Pixel};

verus! {

/// Every byte of `t` is a space, a tab or a newline.
pub open spec fn all_ws(t: Seq<u8>) -> bool {
    forall|i: int| 0 <= i < t.len() ==> #[trigger] is_ws(t[i])
}

/// A header number as the format writes it: one or more decimal digits whose
/// value fits in a `u32`.
pub open spec fn is_numeral(d: Seq<u8>) -> bool {
    &&& d.len() > 0
    &&& forall|i: int| 0 <= i < d.len() ==> #[trigger] is_digit(d[i])
    &&& decimal_value(d) <= u32::MAX
}

/// A buffer laid out as a binary PPM file: `P6`, then width, height and
/// maximum channel value, each after its own run of separators, then one
/// separator byte and the pixel bytes.
pub open spec fn ppm_layout(
    sep1: Seq<u8>,
    width: Seq<u8>,
    sep2: Seq<u8>,
    height: Seq<u8>,
    sep3: Seq<u8>,
    max_value: Seq<u8>,
    last: u8,
    body: Seq<u8>,
) -> Seq<u8> {
    seq![80u8, 54u8] + sep1 + width + sep2 + height + sep3 + max_value + seq![last] + body
}

/// Skipping whitespace stops at the first byte that is not whitespace.
proof fn lemma_skip_run(s: Seq<u8>, p: int, k: int)
    requires
        0 <= p,
        0 <= k,
        p + k < s.len(),
        forall|i: int| p <= i < p + k ==> #[trigger] is_ws(s[i]),
        !is_ws(s[p + k]),
    ensures
        skip_ws(s, p) == p + k,
    decreases k,
{
    if k > 0 {
        lemma_skip_run(s, p + 1, k - 1);
    }
}

/// Taking digits stops at the first byte that is not a digit.
proof fn lemma_digit_run(s: Seq<u8>, q: int, n: int)
    requires
        0 <= q,
        0 <= n,
        q + n < s.len(),
        forall|i: int| q <= i < q + n ==> #[trigger] is_digit(s[i]),
        !is_digit(s[q + n]),
    ensures
        digits_end(s, q) == q + n,
    decreases n,
{
    if n > 0 {
        lemma_digit_run(s, q + 1, n - 1);
    }
}

/// A header number written after a run of separators and followed by a
/// separator reads as its value, and leaves the cursor on that separator.
proof fn lemma_token_reads(s: Seq<u8>, p: int, sep: Seq<u8>, d: Seq<u8>)
    requires
        0 <= p,
        p + sep.len() + d.len() < s.len(),
        all_ws(sep),
        is_numeral(d),
        s.subrange(p, p + sep.len()) == sep,
        s.subrange(p + sep.len(), p + sep.len() + d.len()) == d,
        is_ws(s[p + sep.len() + d.len()]),
    ensures
        token_result(s, p) == Ok::<(u32, int), PpmError>(
            (decimal_value(d) as u32, p + sep.len() + d.len()),
        ),
{
    let q = p + sep.len();
    let e = q + d.len();
    assert forall|i: int| p <= i < q implies #[trigger] is_ws(s[i]) by {
        assert(s[i] == s.subrange(p, q)[i - p]);
    }
    assert(s[q] == d[0]);
    assert(is_digit(d[0]));
    lemma_skip_run(s, p, sep.len() as int);
    assert forall|i: int| q <= i < e implies #[trigger] is_digit(s[i]) by {
        assert(s[i] == s.subrange(q, e)[i - q]);
        assert(is_digit(d[i - q]));
    }
    lemma_digit_run(s, q, d.len() as int);
}

/// Offset of the first pixel byte in [`ppm_layout`].
pub open spec fn layout_header_len(
    sep1: Seq<u8>,
    width: Seq<u8>,
    sep2: Seq<u8>,
    height: Seq<u8>,
    sep3: Seq<u8>,
    max_value: Seq<u8>,
) -> int {
    2int + sep1.len() + width.len() + sep2.len() + height.len() + sep3.len() + max_value.len() + 1
}

/// The header of [`ppm_layout`] reads as the numbers it writes, whatever
/// follows it.
proof fn lemma_layout_header(
    sep1: Seq<u8>,
    width: Seq<u8>,
    sep2: Seq<u8>,
    height: Seq<u8>,
    sep3: Seq<u8>,
    max_value: Seq<u8>,
    last: u8,
    body: Seq<u8>,
)
    requires
        sep1.len() > 0 && all_ws(sep1),
        sep2.len() > 0 && all_ws(sep2),
        sep3.len() > 0 && all_ws(sep3),
        is_numeral(width),
        is_numeral(height),
        is_numeral(max_value),
        is_ws(last),
    ensures
        ({
            let buf = ppm_layout(sep1, width, sep2, height, sep3, max_value, last, body);
            let start = layout_header_len(sep1, width, sep2, height, sep3, max_value);
            &&& header_result(buf, 0) == Ok::<(u32, u32, int), PpmError>(
                (decimal_value(width) as u32, decimal_value(height) as u32, start),
            )
            &&& buf.len() == start + body.len()
            &&& buf.subrange(start, buf.len() as int) == body
        }),
{
    let buf = ppm_layout(sep1, width, sep2, height, sep3, max_value, last, body);
    let p1 = 2int;
    let q1 = p1 + sep1.len();
    let p2 = q1 + width.len();
    let q2 = p2 + sep2.len();
    let p3 = q2 + height.len();
    let q3 = p3 + sep3.len();
    let e3 = q3 + max_value.len();
    let start = e3 + 1;
    assert(buf.len() == start + body.len());
    assert(buf.subrange(p1, q1) =~= sep1);
    assert(buf.subrange(q1, p2) =~= width);
    assert(buf.subrange(p2, q2) =~= sep2);
    assert(buf.subrange(q2, p3) =~= height);
    assert(buf.subrange(p3, q3) =~= sep3);
    assert(buf.subrange(q3, e3) =~= max_value);
    assert(buf.subrange(start, buf.len() as int) =~= body);
    assert(buf[p2] == sep2[0]);
    assert(buf[p3] == sep3[0]);
    assert(buf[e3] == last);
    assert(is_ws(sep2[0]));
    assert(is_ws(sep3[0]));
    lemma_token_reads(buf, p1, sep1, width);
    lemma_token_reads(buf, p2, sep2, height);
    lemma_token_reads(buf, p3, sep3, max_value);
    assert(buf[0] == 80u8 && buf[1] == 54u8);
}

/// A buffer laid out as the format asks, whose pixel block holds exactly
/// three bytes for each of the `width * height` pixels, decodes: to the width
/// and height that its header writes, with the pixels read from the bytes
/// that follow the header. Any image that the decoder hands back for it has
/// `height` rows of `width` pixels each.
pub proof fn lemma_well_formed_decodes(
    sep1: Seq<u8>,
    width: Seq<u8>,
    sep2: Seq<u8>,
    height: Seq<u8>,
    sep3: Seq<u8>,
    max_value: Seq<u8>,
    last: u8,
    body: Seq<u8>,
)
    requires
        sep1.len() > 0 && all_ws(sep1),
        sep2.len() > 0 && all_ws(sep2),
        sep3.len() > 0 && all_ws(sep3),
        is_numeral(width),
        is_numeral(height),
        is_numeral(max_value),
        is_ws(last),
        body.len() == 3 * (decimal_value(width) * decimal_value(height)),
    ensures
        ({
            let buf = ppm_layout(sep1, width, sep2, height, sep3, max_value, last, body);
            let start = layout_header_len(sep1, width, sep2, height, sep3, max_value);
            &&& decode_result(buf, 0) == Ok::<(u32, u32, int), PpmError>(
                (decimal_value(width) as u32, decimal_value(height) as u32, start),
            )
            &&& buf.subrange(start, buf.len() as int) == body
            &&& forall|img: Image|
                holds_pixels(img, buf, start) && img.width == decimal_value(width)
                    && img.height == decimal_value(height) ==> img.pixels@.len() == decimal_value(height)
                    && forall|r: int|
                    0 <= r < img.height ==> #[trigger] img.pixels@[r]@.len() == decimal_value(width)
        }),
{
    lemma_layout_header(sep1, width, sep2, height, sep3, max_value, last, body);
}

/// A buffer whose header is laid out as the format asks but whose pixel block
/// holds fewer than three bytes for each of the `width * height` pixels fails
/// to decode, for want of bytes.
pub proof fn lemma_truncated_fails(
    sep1: Seq<u8>,
    width: Seq<u8>,
    sep2: Seq<u8>,
    height: Seq<u8>,
    sep3: Seq<u8>,
    max_value: Seq<u8>,
    last: u8,
    body: Seq<u8>,
)
    requires
        sep1.len() > 0 && all_ws(sep1),
        sep2.len() > 0 && all_ws(sep2),
        sep3.len() > 0 && all_ws(sep3),
        is_numeral(width),
        is_numeral(height),
        is_numeral(max_value),
        is_ws(last),
        body.len() < 3 * (decimal_value(width) * decimal_value(height)),
    ensures
        decode_result(ppm_layout(sep1, width, sep2, height, sep3, max_value, last, body), 0)
            == Err::<(u32, u32, int), PpmError>(PpmError::IoError),
{
    lemma_layout_header(sep1, width, sep2, height, sep3, max_value, last, body);
}

/// A buffer that does not start with the bytes `P6` fails to decode as having
/// the wrong magic number.
pub proof fn lemma_wrong_magic_fails(s: Seq<u8>)
    requires
        s.len() >= 2,
        !(s[0] == 80u8 && s[1] == 54u8),
    ensures
        decode_result(s, 0) == Err::<(u32, u32, int), PpmError>(PpmError::InvalidMagic),
{
}

/// A header number that holds a byte which is neither a digit nor whitespace
/// (a letter, say) after its leading digits is refused as malformed.
pub proof fn lemma_stray_byte_fails(s: Seq<u8>, p: int, sep: Seq<u8>, digits: Seq<u8>)
    requires
        0 <= p,
        p + sep.len() + digits.len() < s.len(),
        all_ws(sep),
        forall|i: int| 0 <= i < digits.len() ==> #[trigger] is_digit(digits[i]),
        s.subrange(p, p + sep.len()) == sep,
        s.subrange(p + sep.len(), p + sep.len() + digits.len()) == digits,
        !is_digit(s[p + sep.len() + digits.len()]),
        !is_ws(s[p + sep.len() + digits.len()]),
    ensures
        token_result(s, p) == Err::<(u32, int), PpmError>(PpmError::MalformedToken),
{
    let q = p + sep.len();
    let e = q + digits.len();
    assert forall|i: int| p <= i < q implies #[trigger] is_ws(s[i]) by {
        assert(s[i] == s.subrange(p, q)[i - p]);
    }
    assert forall|i: int| q <= i < e implies #[trigger] is_digit(s[i]) by {
        assert(s[i] == s.subrange(q, e)[i - q]);
        assert(is_digit(digits[i - q]));
    }
    if digits.len() > 0 {
        assert(is_digit(s[q]));
    }
    lemma_skip_run(s, p, sep.len() as int);
    lemma_digit_run(s, q, digits.len() as int);
}

/// The first header number holding a stray byte makes the whole decode fail
/// as malformed.
pub proof fn lemma_stray_byte_in_width_fails(sep: Seq<u8>, digits: Seq<u8>, stray: u8, rest: Seq<u8>)
    requires
        all_ws(sep),
        forall|i: int| 0 <= i < digits.len() ==> #[trigger] is_digit(digits[i]),
        !is_digit(stray),
        !is_ws(stray),
    ensures
        decode_result(seq![80u8, 54u8] + sep + digits + seq![stray] + rest, 0)
            == Err::<(u32, u32, int), PpmError>(PpmError::MalformedToken),
{
    let s = seq![80u8, 54u8] + sep + digits + seq![stray] + rest;
    let q = 2int + sep.len();
    let e = q + digits.len();
    assert(s.subrange(2, q) =~= sep);
    assert(s.subrange(q, e) =~= digits);
    assert(s[e] == stray);
    lemma_stray_byte_fails(s, 2, sep, digits);
}

/// The pixel at row `r`, column `c` of a `w` by `h` grid has all three of its
/// bytes inside a block of `3 * (w * h)` bytes.
proof fn lemma_pixel_in_block(r: int, c: int, w: int, h: int)
    requires
        0 <= r < h,
        0 <= c < w,
    ensures
        0 <= 3 * (r * w + c),
        3 * (r * w + c) + 3 <= 3 * (w * h),
{
    assert(0 <= r * w) by (nonlinear_arith)
        requires
            0 <= r,
            0 <= w,
    ;
    assert((r + 1) * w <= h * w) by (nonlinear_arith)
        requires
            r + 1 <= h,
            0 <= w,
    ;
    assert((r + 1) * w == r * w + w) by (nonlinear_arith);
    assert(h * w == w * h) by (nonlinear_arith);
}

/// Two buffers that hold the same pixel block, each after its own header,
/// hold the same pixel at each row and column.
proof fn lemma_same_pixel(
    a: Seq<u8>,
    start_a: int,
    b: Seq<u8>,
    start_b: int,
    body: Seq<u8>,
    r: int,
    c: int,
    w: int,
    h: int,
)
    requires
        0 <= start_a <= a.len(),
        0 <= start_b <= b.len(),
        a.subrange(start_a, a.len() as int) == body,
        b.subrange(start_b, b.len() as int) == body,
        body.len() == 3 * (w * h),
        0 <= r < h,
        0 <= c < w,
    ensures
        pixel_at(a, start_a + 3 * (r * w + c)) == pixel_at(b, start_b + 3 * (r * w + c)),
{
    let o = 3 * (r * w + c);
    lemma_pixel_in_block(r, c, w, h);
    assert(a[start_a + o] == body[o]);
    assert(a[start_a + o + 1] == body[o + 1]);
    assert(a[start_a + o + 2] == body[o + 2]);
    assert(b[start_b + o] == body[o]);
    assert(b[start_b + o + 1] == body[o + 1]);
    assert(b[start_b + o + 2] == body[o + 2]);
}

/// Header numbers separated by any runs of spaces, tabs and newlines decode
/// as they do when each is separated by one space: the same width and height,
/// and the same image.
pub proof fn lemma_separators_do_not_matter(
    sep1: Seq<u8>,
    width: Seq<u8>,
    sep2: Seq<u8>,
    height: Seq<u8>,
    sep3: Seq<u8>,
    max_value: Seq<u8>,
    last: u8,
    body: Seq<u8>,
)
    requires
        sep1.len() > 0 && all_ws(sep1),
        sep2.len() > 0 && all_ws(sep2),
        sep3.len() > 0 && all_ws(sep3),
        is_numeral(width),
        is_numeral(height),
        is_numeral(max_value),
        is_ws(last),
        body.len() == 3 * (decimal_value(width) * decimal_value(height)),
    ensures
        ({
            let space = seq![32u8];
            let mixed = ppm_layout(sep1, width, sep2, height, sep3, max_value, last, body);
            let plain = ppm_layout(space, width, space, height, space, max_value, 32u8, body);
            let start_mixed = layout_header_len(sep1, width, sep2, height, sep3, max_value);
            let start_plain = layout_header_len(space, width, space, height, space, max_value);
            let w = decimal_value(width) as u32;
            let h = decimal_value(height) as u32;
            &&& decode_result(mixed, 0) == Ok::<(u32, u32, int), PpmError>((w, h, start_mixed))
            &&& decode_result(plain, 0) == Ok::<(u32, u32, int), PpmError>((w, h, start_plain))
            &&& forall|img: Image|
                img.width == w && img.height == h ==> (holds_pixels(img, mixed, start_mixed)
                    <==> holds_pixels(img, plain, start_plain))
        }),
{
    let space = seq![32u8];
    let mixed = ppm_layout(sep1, width, sep2, height, sep3, max_value, last, body);
    let plain = ppm_layout(space, width, space, height, space, max_value, 32u8, body);
    let start_mixed = layout_header_len(sep1, width, sep2, height, sep3, max_value);
    let start_plain = layout_header_len(space, width, space, height, space, max_value);
    let w = decimal_value(width) as u32;
    let h = decimal_value(height) as u32;
    assert(all_ws(space));
    lemma_well_formed_decodes(sep1, width, sep2, height, sep3, max_value, last, body);
    lemma_well_formed_decodes(space, width, space, height, space, max_value, 32u8, body);
    assert forall|img: Image| img.width == w && img.height == h implies (holds_pixels(
        img,
        mixed,
        start_mixed,
    ) <==> holds_pixels(img, plain, start_plain)) by {
        if holds_pixels(img, mixed, start_mixed) {
            assert forall|r: int, c: int| 0 <= r < img.height && 0 <= c < img.width implies #[trigger] img.pixels@[r]@[c]
                == pixel_at(plain, start_plain + 3 * (r * img.width + c)) by {
                assert(img.pixels@[r]@[c] == pixel_at(mixed, start_mixed + 3 * (r * img.width + c)));
                lemma_same_pixel(mixed, start_mixed, plain, start_plain, body, r, c, w as int, h as int);
            }
        }
        if holds_pixels(img, plain, start_plain) {
            assert forall|r: int, c: int| 0 <= r < img.height && 0 <= c < img.width implies #[trigger] img.pixels@[r]@[c]
                == pixel_at(mixed, start_mixed + 3 * (r * img.width + c)) by {
                assert(img.pixels@[r]@[c] == pixel_at(plain, start_plain + 3 * (r * img.width + c)));
                lemma_same_pixel(mixed, start_mixed, plain, start_plain, body, r, c, w as int, h as int);
            }
        }
    }
}

/// The decimal digits of `n`, most significant first, with no leading zero.
pub open spec fn decimal_digits(n: nat) -> Seq<u8>
    decreases n,
{
    if n < 10 {
        seq![(48 + n) as u8]
    } else {
        decimal_digits(n / 10).push((48 + n % 10) as u8)
    }
}

/// Channel `k` of a pixel: red for 0, green for 1, blue otherwise.
pub open spec fn channel(px: Pixel, k: int) -> u8 {
    if k == 0 {
        px.r
    } else if k == 1 {
        px.g
    } else {
        px.b
    }
}

/// The pixel block of `img`: its rows one after the other, each pixel as its
/// red, green and blue bytes.
pub open spec fn image_body(img: Image) -> Seq<u8> {
    Seq::new(
        (3 * (img.width * img.height)) as nat,
        |i: int| channel(img.pixels@[(i / 3) / (img.width as int)]@[(i / 3) % (img.width as int)], i % 3),
    )
}

/// `img` written as a binary PPM file: `P6`, width, height and 255 each after
/// one space, a newline, then the pixel block.
pub open spec fn encode_image(img: Image) -> Seq<u8> {
    let space = seq![32u8];
    ppm_layout(
        space,
        decimal_digits(img.width as nat),
        space,
        decimal_digits(img.height as nat),
        space,
        decimal_digits(255),
        10u8,
        image_body(img),
    )
}

/// Offset of the first pixel byte in [`encode_image`].
pub open spec fn encoded_header_len(img: Image) -> int {
    let space = seq![32u8];
    layout_header_len(
        space,
        decimal_digits(img.width as nat),
        space,
        decimal_digits(img.height as nat),
        space,
        decimal_digits(255),
    )
}

/// The digits of a number that fits in a `u32` are a header number of that
/// value.
proof fn lemma_decimal_digits(n: nat)
    ensures
        decimal_digits(n).len() > 0,
        forall|i: int| 0 <= i < decimal_digits(n).len() ==> #[trigger] is_digit(decimal_digits(n)[i]),
        decimal_value(decimal_digits(n)) == n,
    decreases n,
{
    let d = decimal_digits(n);
    if n < 10 {
        assert(d.drop_last() =~= Seq::<u8>::empty());
        assert(decimal_value(d.drop_last()) == 0);
        assert(d.last() == (48 + n) as u8);
    } else {
        lemma_decimal_digits(n / 10);
        assert(d.drop_last() =~= decimal_digits(n / 10));
        assert(d.last() == (48 + n % 10) as u8);
        assert(n == (n / 10) * 10 + n % 10);
        assert forall|i: int| 0 <= i < d.len() implies #[trigger] is_digit(d[i]) by {
            if i < d.len() - 1 {
                assert(d[i] == decimal_digits(n / 10)[i]);
            }
        }
    }
}

/// Encoding a well-formed image as a binary PPM file and decoding that file
/// gives back its width, its height and every channel of every pixel.
pub proof fn lemma_round_trip(img: Image)
    requires
        img.wf(),
    ensures
        decode_result(encode_image(img), 0) == Ok::<(u32, u32, int), PpmError>(
            (img.width, img.height, encoded_header_len(img)),
        ),
        holds_pixels(img, encode_image(img), encoded_header_len(img)),
        forall|decoded: Image|
            holds_pixels(decoded, encode_image(img), encoded_header_len(img))
                && decoded.width == img.width && decoded.height == img.height
                ==> forall|r: int, c: int|
                0 <= r < img.height && 0 <= c < img.width ==> #[trigger] decoded.pixels@[r]@[c]
                    == img.pixels@[r]@[c],
{
    let space = seq![32u8];
    let w = img.width as int;
    let h = img.height as int;
    let buf = encode_image(img);
    let start = encoded_header_len(img);
    let body = image_body(img);
    lemma_decimal_digits(img.width as nat);
    lemma_decimal_digits(img.height as nat);
    lemma_decimal_digits(255);
    assert(all_ws(space));
    lemma_well_formed_decodes(
        space,
        decimal_digits(img.width as nat),
        space,
        decimal_digits(img.height as nat),
        space,
        decimal_digits(255),
        10u8,
        body,
    );
    assert forall|r: int, c: int| 0 <= r < h && 0 <= c < w implies #[trigger] img.pixels@[r]@[c]
        == pixel_at(buf, start + 3 * (r * w + c)) by {
        let k = r * w + c;
        let o = 3 * k;
        lemma_pixel_in_block(r, c, w, h);
        lemma_fundamental_div_mod_converse(k, w, r, c);
        lemma_fundamental_div_mod_converse(o, 3, k, 0);
        lemma_fundamental_div_mod_converse(o + 1, 3, k, 1);
        lemma_fundamental_div_mod_converse(o + 2, 3, k, 2);
        assert(buf[start + o] == body[o]);
        assert(buf[start + o + 1] == body[o + 1]);
        assert(buf[start + o + 2] == body[o + 2]);
    }
}

} // verus!
