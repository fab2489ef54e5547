//! From light to bytes: tone mapping, and the image that the pixels are
//! written into.

use vstd::prelude::*;
use crate::interval::Interval;
use crate::scalar::{
    fsqrt, fsqrt_spec, is_sqrt_floor, lemma_sqrt_exists, lemma_sqrt_floor_unique, sqrt_floor, UNIT,
};
use crate::utils::{byte_of, to_byte};
use crate::vec3::Vec3;

verus! {

/// The brightest a channel may be before it is scaled to a byte.
pub const CHANNEL_MAX: i64 = 99_900;

/// An image of three bytes for each pixel: an `RgbImage` of the `image`
/// crate.
#[verifier::external_body]
pub struct Frame {
    inner: image::RgbImage,
}

/// The pixels of an image: the three bytes at each column and row.
pub uninterp spec fn frame_pixels(img: Frame) -> Map<(int, int), (u8, u8, u8)>;

/// The width and the height that an image was made with.
pub uninterp spec fn frame_size(img: Frame) -> (nat, nat);

/// The three bytes of the pixel in column `x` of row `y` among the bytes
/// of an image that is `width` pixels wide, row after row.
pub open spec fn raw_pixel(bytes: Seq<u8>, width: int, x: int, y: int) -> (u8, u8, u8) {
    (
        bytes[3 * (y * width + x)],
        bytes[3 * (y * width + x) + 1],
        bytes[3 * (y * width + x) + 2],
    )
}

/// `ImageBuffer::new` of the `image` crate: an image of the given width and
/// height in which every byte is zero. The crate panics where three bytes
/// for each pixel are more than a vector can hold, so the contract asks for
/// fewer.
#[verifier::external_body]
fn frame_new(width: u32, height: u32) -> (img: Frame)
    requires
        3 * (width * height) <= isize::MAX,
    ensures
        frame_size(img) == (width as nat, height as nat),
        forall|x: int, y: int|
            0 <= x < width && 0 <= y < height ==> frame_pixels(img).contains_pair(
                (x, y),
                (0u8, 0u8, 0u8),
            ),
{
    Frame { inner: image::RgbImage::new(width, height) }
}

/// `ImageBuffer::from_raw` of the `image` crate, for exactly three bytes for
/// each pixel: the image of the given width and height whose pixels are
/// the bytes, row after row. The crate gives nothing for too few bytes,
/// which the contract does not admit.
#[verifier::external_body]
fn frame_from_raw(width: u32, height: u32, bytes: Vec<u8>) -> (img: Option<Frame>)
    requires
        bytes@.len() == 3 * (width * height),
    ensures
        img.is_some(),
        frame_size(img.unwrap()) == (width as nat, height as nat),
        forall|x: int, y: int|
            0 <= x < width && 0 <= y < height ==> frame_pixels(img.unwrap()).contains_pair(
                (x, y),
                #[trigger] raw_pixel(bytes@, width as int, x, y),
            ),
{
    image::RgbImage::from_raw(width, height, bytes).map(|inner| Frame { inner })
}

/// `ImageBuffer::dimensions` of the `image` crate: the width and the height
/// that the image was made with.
#[verifier::external_body]
fn frame_dimensions(img: &Frame) -> (d: (u32, u32))
    ensures
        d.0 == frame_size(*img).0,
        d.1 == frame_size(*img).1,
{
    img.inner.dimensions()
}

/// `ImageBuffer::put_pixel` of the `image` crate: the pixel in column `x`
/// of row `y` becomes the three bytes; every other pixel and the size stay
/// as they are. The crate panics for a pixel outside the image, so the
/// contract asks for one inside.
#[verifier::external_body]
fn frame_put(img: &mut Frame, x: u32, y: u32, red: u8, green: u8, blue: u8)
    requires
        x < frame_size(*old(img)).0,
        y < frame_size(*old(img)).1,
    ensures
        frame_size(*final(img)) == frame_size(*old(img)),
        frame_pixels(*final(img)) == frame_pixels(*old(img)).insert(
            (x as int, y as int),
            (red, green, blue),
        ),
{
    img.inner.put_pixel(x, y, image::Rgb([red, green, blue]));
}

/// `ImageBuffer::get_pixel` of the `image` crate: the three bytes of the
/// pixel in column `x` of row `y`. The crate panics for a pixel outside the
/// image, so the contract asks for one inside.
#[verifier::external_body]
fn frame_get(img: &Frame, x: u32, y: u32) -> (p: (u8, u8, u8))
    requires
        x < frame_size(*img).0,
        y < frame_size(*img).1,
    ensures
        frame_pixels(*img).contains_pair((x as int, y as int), p),
{
    let p = img.inner.get_pixel(x, y);
    (p.0[0], p.0[1], p.0[2])
}

/// `ImageBuffer::into_raw` of the `image` crate: the bytes of the image,
/// row after row, three for each pixel.
#[verifier::external_body]
fn frame_into_raw(img: Frame) -> (bytes: Vec<u8>)
    ensures
        bytes@.len() == 3 * (frame_size(img).0 * frame_size(img).1),
        forall|x: int, y: int|
            0 <= x < frame_size(img).0 && 0 <= y < frame_size(img).1 ==> frame_pixels(
                img,
            ).contains_pair((x, y), #[trigger] raw_pixel(bytes@, frame_size(img).0 as int, x, y)),
{
    img.inner.into_raw()
}

impl Frame {
    /// A black image of the given width and height, or nothing where that
    /// is more than can be held.
    pub fn new(width: u32, height: u32) -> (r: Option<Frame>)
        ensures
            r.is_some() == (3 * (width * height) <= isize::MAX),
            r.is_some() ==> frame_size(r.unwrap()) == (width as nat, height as nat) && forall|
                x: int,
                y: int,
            |
                0 <= x < width && 0 <= y < height ==> frame_pixels(r.unwrap()).contains_pair(
                    (x, y),
                    (0u8, 0u8, 0u8),
                ),
    {
        assert(0 <= width * height <= 0xffff_ffff * 0xffff_ffff) by (nonlinear_arith)
            requires
                0 <= width <= 0xffff_ffff,
                0 <= height <= 0xffff_ffff,
        ;
        let bytes: u128 = 3 * ((width as u128) * (height as u128));
        if bytes <= isize::MAX as u128 {
            Some(frame_new(width, height))
        } else {
            None
        }
    }

    /// The image of the given width and height whose pixels are the bytes,
    /// row after row, three for each pixel; nothing where the bytes are not
    /// exactly as many as that.
    pub fn from_raw(width: u32, height: u32, bytes: Vec<u8>) -> (r: Option<Frame>)
        ensures
            r.is_some() == (bytes@.len() == 3 * (width * height)),
            r.is_some() ==> frame_size(r.unwrap()) == (width as nat, height as nat) && forall|
                x: int,
                y: int,
            |
                0 <= x < width && 0 <= y < height ==> frame_pixels(r.unwrap()).contains_pair(
                    (x, y),
                    #[trigger] raw_pixel(bytes@, width as int, x, y),
                ),
    {
        assert(0 <= width * height <= 0xffff_ffff * 0xffff_ffff) by (nonlinear_arith)
            requires
                0 <= width <= 0xffff_ffff,
                0 <= height <= 0xffff_ffff,
        ;
        let wanted: u128 = 3 * ((width as u128) * (height as u128));
        if bytes.len() as u128 == wanted {
            frame_from_raw(width, height, bytes)
        } else {
            None
        }
    }

    pub fn width(&self) -> (w: u32)
        ensures
            w == frame_size(*self).0,
    {
        frame_dimensions(self).0
    }

    pub fn height(&self) -> (h: u32)
        ensures
            h == frame_size(*self).1,
    {
        frame_dimensions(self).1
    }

    /// The three bytes of the pixel in column `x` of row `y`, or nothing for
    /// a pixel outside the image.
    pub fn get(&self, x: u32, y: u32) -> (p: Option<(u8, u8, u8)>)
        ensures
            p.is_some() == (x < frame_size(*self).0 && y < frame_size(*self).1),
            p.is_some() ==> frame_pixels(*self).contains_pair((x as int, y as int), p.unwrap()),
    {
        let d = frame_dimensions(self);
        if x < d.0 && y < d.1 {
            Some(frame_get(self, x, y))
        } else {
            None
        }
    }

    /// The bytes of the image, row after row, three for each pixel.
    pub fn into_bytes(self) -> (bytes: Vec<u8>)
        ensures
            bytes@.len() == 3 * (frame_size(self).0 * frame_size(self).1),
            forall|x: int, y: int|
                0 <= x < frame_size(self).0 && 0 <= y < frame_size(self).1 ==> frame_pixels(
                    self,
                ).contains_pair(
                    (x, y),
                    #[trigger] raw_pixel(bytes@, frame_size(self).0 as int, x, y),
                ),
    {
        frame_into_raw(self)
    }
}

/// Gamma 2: the square root of a channel, and 0 for anything that is not
/// positive.
pub fn linear_to_gamma(linear_component: i64) -> (r: i64)
    ensures
        r == fsqrt_spec(linear_component as int),
        r >= 0,
{
    if linear_component > 0 {
        fsqrt(linear_component)
    } else {
        0
    }
}

/// The byte of a channel of light: the channel after gamma 2, brought into
/// `[0, 0.999]` and scaled by 256.
pub open spec fn channel_byte(c: int) -> int {
    byte_of((Interval { tmin: 0, tmax: CHANNEL_MAX }).clamp_spec(fsqrt_spec(c)), 256)
}

/// No light is written as the byte 0, more light is never written as a
/// smaller byte than less light, and a tenth of the full light is written
/// as the byte 80.
pub proof fn lemma_channel_byte_grows(a: int, b: int)
    requires
        a <= b,
    ensures
        channel_byte(a) <= channel_byte(b),
        a <= 0 ==> channel_byte(a) == 0,
        channel_byte(UNIT / 10) == 80,
{
    let u = UNIT as int;
    let whole = Interval { tmin: 0, tmax: CHANNEL_MAX };
    let (ra, rb) = (fsqrt_spec(a), fsqrt_spec(b));
    if a > 0 {
        assert(0 < a * u <= b * u) by (nonlinear_arith)
            requires
                0 < a <= b,
                u > 0,
        ;
        lemma_sqrt_exists(a * u);
        lemma_sqrt_exists(b * u);
        assert(ra <= rb) by (nonlinear_arith)
            requires
                ra >= 0,
                rb >= 0,
                ra * ra <= a * u,
                b * u < (rb + 1) * (rb + 1),
                a * u <= b * u,
        ;
    } else if b > 0 {
        assert(b * u > 0) by (nonlinear_arith)
            requires
                b > 0,
                u > 0,
        ;
        lemma_sqrt_exists(b * u);
    }
    let (ca, cb) = (whole.clamp_spec(ra), whole.clamp_spec(rb));
    assert(256 * ca <= 256 * cb);
    vstd::arithmetic::div_mod::lemma_div_is_ordered(256 * ca, 256 * cb, u);
    // a tenth
    assert((UNIT / 10) * u == 1_000_000_000);
    lemma_sqrt_exists(1_000_000_000);
    assert(is_sqrt_floor(1_000_000_000, 31_622)) by (nonlinear_arith);
    lemma_sqrt_floor_unique(1_000_000_000, sqrt_floor(1_000_000_000), 31_622);
}

/// The three bytes of a colour of light.
pub open spec fn pixel_bytes(c: Vec3) -> (u8, u8, u8) {
    (channel_byte(c.x as int) as u8, channel_byte(c.y as int) as u8, channel_byte(c.z as int) as u8)
}

/// Computes [`channel_byte`].
pub fn encode_channel(c: i64) -> (b: u8)
    ensures
        b == channel_byte(c as int),
{
    let interval: Interval = Interval::new(0, CHANNEL_MAX);
    to_byte(interval.clamp(linear_to_gamma(c)), 256)
}

/// Writes the colour into the pixel in column `i` of row `j`.
pub fn write_color(pixel_color: Vec3, img: &mut Frame, i: usize, j: usize)
    requires
        i < frame_size(*old(img)).0,
        j < frame_size(*old(img)).1,
    ensures
        frame_size(*final(img)) == frame_size(*old(img)),
        frame_pixels(*final(img)) == frame_pixels(*old(img)).insert(
            (i as int, j as int),
            pixel_bytes(pixel_color),
        ),
{
    let d = frame_dimensions(img);
    frame_put(
        img,
        i as u32,
        j as u32,
        encode_channel(pixel_color.x),
        encode_channel(pixel_color.y),
        encode_channel(pixel_color.z),
    );
}

/// What an image holds after the first `n` colours of `buff` were written
/// into the columns from `x_min` on of the rows from `y_min` on, `across`
/// in a row.
pub open spec fn flushed(
    pixels: Map<(int, int), (u8, u8, u8)>,
    buff: Seq<Vec3>,
    x_min: int,
    y_min: int,
    across: int,
    n: int,
) -> Map<(int, int), (u8, u8, u8)>
    decreases n,
{
    if n <= 0 || across <= 0 {
        pixels
    } else {
        flushed(pixels, buff, x_min, y_min, across, n - 1).insert(
            (x_min + (n - 1) % across, y_min + (n - 1) / across),
            pixel_bytes(buff[n - 1]),
        )
    }
}

/// Copies a finished tile into the image: the colours of `buff`, row by
/// row, into the columns `x_min..x_max` of the rows `y_min..y_max`. Nothing
/// is written, and `false` returned, where the tile does not lie in the
/// image or `buff` does not hold one colour for each of its pixels.
pub fn flush_tile(
    buff: &Vec<Vec3>,
    x_min: u32,
    x_max: u32,
    y_min: u32,
    y_max: u32,
    img: &mut Frame,
) -> (done: bool)
    ensures
        frame_size(*final(img)) == frame_size(*old(img)),
        done == (x_min <= x_max <= frame_size(*old(img)).0 && y_min <= y_max <= frame_size(
            *old(img),
        ).1 && buff@.len() == (x_max - x_min) * (y_max - y_min)),
        !done ==> frame_pixels(*final(img)) == frame_pixels(*old(img)),
        done ==> frame_pixels(*final(img)) == flushed(
            frame_pixels(*old(img)),
            buff@,
            x_min as int,
            y_min as int,
            x_max - x_min,
            buff@.len() as int,
        ),
{
    let d = frame_dimensions(img);
    if !(x_min <= x_max && x_max <= d.0 && y_min <= y_max && y_max <= d.1) {
        return false;
    }
    let across: u32 = x_max - x_min;
    let down: u32 = y_max - y_min;
    assert(0 <= across * down <= 0xffff_ffff * 0xffff_ffff) by (nonlinear_arith)
        requires
            0 <= across <= 0xffff_ffff,
            0 <= down <= 0xffff_ffff,
    ;
    if buff.len() as u128 != (across as u128) * (down as u128) {
        return false;
    }
    let ghost before = frame_pixels(*img);
    proof {
        if buff@.len() > 0 {
            assert(across > 0 && down > 0) by (nonlinear_arith)
                requires
                    across * down > 0,
                    across >= 0,
                    down >= 0,
            ;
        }
    }
    let mut n: usize = 0;
    let mut i: u32 = x_min;
    let mut j: u32 = y_min;
    while n < buff.len()
        invariant
            x_min <= x_max <= frame_size(*img).0,
            y_min <= y_max <= frame_size(*img).1,
            across == x_max - x_min,
            down == y_max - y_min,
            buff@.len() == across * down,
            frame_size(*img) == frame_size(*old(img)),
            n <= buff@.len(),
            n < buff@.len() ==> x_min <= i < x_max && y_min <= j < y_max,
            n < buff@.len() ==> n == across * (j - y_min) + (i - x_min),
            frame_pixels(*img) == flushed(before, buff@, x_min as int, y_min as int, across as int, n as int),
        decreases buff@.len() - n,
    {
        proof {
            crate::camera::lemma_row_major(across as int, (j - y_min) as int, (i - x_min) as int);
        }
        write_color(buff[n], img, i as usize, j as usize);
        n = n + 1;
        if i + 1 < x_max {
            i = i + 1;
        } else {
            proof {
                assert(across * (j - y_min) + across == across * (j + 1 - y_min))
                    by (nonlinear_arith);
                if n < buff@.len() {
                    assert(j + 1 < y_max) by (nonlinear_arith)
                        requires
                            across * (j + 1 - y_min) < across * down,
                            across > 0,
                            down == y_max - y_min,
                    ;
                }
            }
            i = x_min;
            if j + 1 < y_max {
                j = j + 1;
            }
        }
    }
    true
}

/// After a buffer was copied into the image, the pixel in column `x_min +
/// n % across` of row `y_min + n / across` holds the bytes of colour
/// number `n` of the buffer, for every `n` below the number of colours
/// that were copied.
pub proof fn lemma_flushed_pixel(
    pixels: Map<(int, int), (u8, u8, u8)>,
    buff: Seq<Vec3>,
    x_min: int,
    y_min: int,
    across: int,
    count: int,
    n: int,
)
    requires
        across > 0,
        0 <= n < count,
    ensures
        flushed(pixels, buff, x_min, y_min, across, count).contains_pair(
            (x_min + n % across, y_min + n / across),
            pixel_bytes(buff[n]),
        ),
    decreases count,
{
    if n < count - 1 {
        lemma_flushed_pixel(pixels, buff, x_min, y_min, across, count - 1, n);
        let last = count - 1;
        assert((x_min + last % across, y_min + last / across) != (
            x_min + n % across,
            y_min + n / across,
        )) by {
            vstd::arithmetic::div_mod::lemma_fundamental_div_mod(last, across);
            vstd::arithmetic::div_mod::lemma_fundamental_div_mod(n, across);
        }
    }
}

/// Copying a buffer into the image leaves every pixel outside the tile as
/// it was: every pixel that is not in one of the columns `x_min..x_min +
/// across` of the rows from `y_min` on.
pub proof fn lemma_flushed_elsewhere(
    pixels: Map<(int, int), (u8, u8, u8)>,
    buff: Seq<Vec3>,
    x_min: int,
    y_min: int,
    across: int,
    count: int,
    x: int,
    y: int,
)
    requires
        across > 0,
        count >= 0,
        !(x_min <= x < x_min + across && y_min <= y && (y - y_min) * across + (x - x_min)
            < count),
    ensures
        flushed(pixels, buff, x_min, y_min, across, count).contains_key((x, y))
            == pixels.contains_key((x, y)),
        flushed(pixels, buff, x_min, y_min, across, count)[(x, y)] == pixels[(x, y)],
    decreases count,
{
    if count > 0 {
        let last = count - 1;
        vstd::arithmetic::div_mod::lemma_fundamental_div_mod(last, across);
        assert((last / across) * across == across * (last / across)) by (nonlinear_arith);
        assert(0 <= last % across < across);
        assert(last / across >= 0) by (nonlinear_arith)
            requires
                last == across * (last / across) + last % across,
                last >= 0,
                0 <= last % across < across,
                across > 0,
        ;
        assert((x, y) != (x_min + last % across, y_min + last / across));
        lemma_flushed_elsewhere(pixels, buff, x_min, y_min, across, count - 1, x, y);
    }
}

} // verus!
