//! Turning raster images into JPEG `data:` URIs: size limits, cropping,
//! down-scaling of large images, JPEG encoding and Base64.
use vstd::prelude::*;
use std::io::Cursor;
use base64::Engine;

verus! {

broadcast use vstd::string::group_string_axioms;

/// Largest width or height of an emitted image, in pixels.
pub const MAX_IMAGE_SIDE: u32 = 1200;

/// Smallest width and height, in pixels, of an embedded page image.
pub const MIN_PAGE_IMAGE_SIDE: u32 = 50;

/// Smallest width and height, in pixels, of a rasterized region.
pub const MIN_REGION_SIDE: u32 = 10;

/// Longest input that Base64 encoding accepts here: its encoded length,
/// four characters per started group of three bytes, must fit in a `usize`.
pub open spec fn base64_fits(n: nat) -> bool {
    4 * (n / 3 + 1) <= usize::MAX
}

/// The character of the standard Base64 alphabet for a 6-bit value.
pub open spec fn base64_digit(v: u8) -> char {
    if v < 26 {
        (('A' as u8) + v) as char
    } else if v < 52 {
        (('a' as u8) + (v - 26)) as char
    } else if v < 62 {
        (('0' as u8) + (v - 52)) as char
    } else if v == 62 {
        '+'
    } else {
        '/'
    }
}

/// Standard Base64 (RFC 4648, section 4) with `=` padding.
pub open spec fn base64_standard(b: Seq<u8>) -> Seq<char>
    decreases b.len(),
{
    if b.len() == 0 {
        Seq::empty()
    } else if b.len() == 1 {
        seq![base64_digit(b[0] >> 2), base64_digit((b[0] & 3) << 4), '=', '=']
    } else if b.len() == 2 {
        seq![
            base64_digit(b[0] >> 2),
            base64_digit(((b[0] & 3) << 4) | (b[1] >> 4)),
            base64_digit((b[1] & 15) << 2),
            '=',
        ]
    } else {
        seq![
            base64_digit(b[0] >> 2),
            base64_digit(((b[0] & 3) << 4) | (b[1] >> 4)),
            base64_digit(((b[1] & 15) << 2) | (b[2] >> 6)),
            base64_digit(b[2] & 63),
        ] + base64_standard(b.skip(3))
    }
}

/// No Base64 digit is the padding character.
proof fn lemma_base64_digit_not_pad(v: u8)
    ensures
        base64_digit(v) != '=',
{
    if v < 26 {
        assert((('A' as u8) + v) as char == (65 + v) as char);
    } else if v < 52 {
        assert((('a' as u8) + (v - 26)) as char == (97 + v - 26) as char);
    } else if v < 62 {
        assert((('0' as u8) + (v - 52)) as char == (48 + v - 52) as char);
    }
}

/// Base64 turns every started group of three bytes into four characters,
/// and ends in `=` exactly when the byte count is not a multiple of three.
pub proof fn lemma_base64_length(b: Seq<u8>)
    ensures
        base64_standard(b).len() == 4 * ((b.len() + 2) / 3),
        b.len() % 3 != 0 ==> base64_standard(b).last() == '=',
        b.len() % 3 == 0 && b.len() > 0 ==> base64_standard(b).last() != '=',
    decreases b.len(),
{
    if b.len() > 3 {
        lemma_base64_length(b.skip(3));
        assert(b.skip(3).len() == b.len() - 3);
    } else if b.len() == 3 {
        assert(base64_standard(b.skip(3)) =~= Seq::<char>::empty());
        lemma_base64_digit_not_pad(b[2] & 63);
    }
}

/// Encodes `bytes` with `base64::engine::general_purpose::STANDARD`, the
/// standard alphabet with padding; the contract claims the output is
/// exactly `base64_standard(bytes)`. `encode` panics when the encoded
/// length overflows a `usize`, which `requires` rules out.
#[verifier::external_body]
fn encode_base64(bytes: &[u8]) -> (s: String)
    requires
        base64_fits(bytes@.len()),
    ensures
        s@ == base64_standard(bytes@),
{
    base64::engine::general_purpose::STANDARD.encode(bytes)
}

/// The JPEG file that the `image` crate writes for an 8-bit RGB image of
/// the given size, or `None` when encoding fails.
pub uninterp spec fn jpeg_file(width: u32, height: u32, rgb: Seq<u8>) -> Option<Seq<u8>>;

/// Writes the RGB image through `DynamicImage::write_to` with
/// `ImageFormat::Jpeg`. The contract names the outcome `jpeg_file` of the
/// image's size and pixels and claims nothing more of the bytes.
#[verifier::external_body]
fn encode_jpeg(width: u32, height: u32, rgb: &Vec<u8>) -> (out: Option<Vec<u8>>)
    requires
        rgb@.len() == width * height * 3,
    ensures
        match out {
            Some(v) => jpeg_file(width, height, rgb@) == Some(v@),
            None => jpeg_file(width, height, rgb@) is None,
        },
{
    let img = image::RgbImage::from_raw(width, height, rgb.clone())?;
    let mut buf = Cursor::new(Vec::<u8>::new());
    image::DynamicImage::ImageRgb8(img).write_to(&mut buf, image::ImageFormat::Jpeg).ok()?;
    Some(buf.into_inner())
}

/// Width, height and RGB pixels of the thumbnail that the `image` crate
/// makes of an image to fit within `cap` by `cap` pixels.
pub uninterp spec fn thumbnail_image(width: u32, height: u32, rgb: Seq<u8>, cap: u32) -> (
    u32,
    u32,
    Seq<u8>,
);

/// Scales the RGB image down with `DynamicImage::thumbnail(cap, cap)`. The
/// contract names the result `thumbnail_image` of the size, pixels and
/// bound, and claims what the source shows of its shape: both sides at
/// least one pixel and at most `cap`, three bytes per pixel. It leaves the
/// exact scaled size and the pixels unstated (they come from
/// floating-point resizing).
#[verifier::external_body]
fn thumbnail_rgb(width: u32, height: u32, rgb: &Vec<u8>, cap: u32) -> (out: (u32, u32, Vec<u8>))
    requires
        width > 0,
        height > 0,
        cap > 0,
        rgb@.len() == width * height * 3,
    ensures
        (out.0, out.1, out.2@) == thumbnail_image(width, height, rgb@, cap),
        0 < out.0 <= cap,
        0 < out.1 <= cap,
        out.2@.len() == out.0 * out.1 * 3,
{
    let img = image::RgbImage::from_raw(width, height, rgb.clone()).unwrap();
    let thumb = image::DynamicImage::ImageRgb8(img).thumbnail(cap, cap).to_rgb8();
    let (w, h) = (thumb.width(), thumb.height());
    (w, h, thumb.into_raw())
}

/// The pixels of the `cw` by `ch` window at (`x`, `y`) of a `width`-wide
/// RGB image, row by row.
pub open spec fn cropped(rgb: Seq<u8>, width: int, x: int, y: int, cw: int, ch: int) -> Seq<u8> {
    Seq::new(
        (cw * ch * 3) as nat,
        |i: int| rgb[((y + i / (cw * 3)) * width + x) * 3 + i % (cw * 3)],
    )
}

/// Cuts a window out of the RGB image with `image::imageops::crop_imm`
/// and `to_image`; the window lies inside the image, so the result is
/// exactly the window's pixels.
#[verifier::external_body]
fn crop_rgb(width: u32, height: u32, rgb: &Vec<u8>, x: u32, y: u32, cw: u32, ch: u32) -> (out: Vec<u8>)
    requires
        rgb@.len() == width * height * 3,
        x + cw <= width,
        y + ch <= height,
    ensures
        out@ == cropped(rgb@, width as int, x as int, y as int, cw as int, ch as int),
{
    let img = image::RgbImage::from_raw(width, height, rgb.clone()).unwrap();
    image::imageops::crop_imm(&img, x, y, cw, ch).to_image().into_raw()
}

pub open spec fn data_uri_prefix() -> Seq<char> {
    "data:image/jpeg;base64,"@
}

/// Size and pixels of the image that gets encoded: the image itself, or its
/// thumbnail when a side exceeds `MAX_IMAGE_SIDE`.
pub open spec fn capped_image(width: u32, height: u32, rgb: Seq<u8>) -> (u32, u32, Seq<u8>) {
    if width > MAX_IMAGE_SIDE || height > MAX_IMAGE_SIDE {
        thumbnail_image(width, height, rgb, MAX_IMAGE_SIDE)
    } else {
        (width, height, rgb)
    }
}

/// The `data:` URI of a JPEG file: the prefix and its bytes in Base64;
/// `None` when there is no file or it is too long to encode.
pub open spec fn jpeg_uri(jpeg: Option<Seq<u8>>) -> Option<Seq<char>> {
    match jpeg {
        Some(j) => if base64_fits(j.len()) {
            Some(data_uri_prefix() + base64_standard(j))
        } else {
            None
        },
        None => None,
    }
}

/// The `data:` URI of an image: its capped version as JPEG, in Base64;
/// `None` when encoding fails or the JPEG is too long to encode.
pub open spec fn image_data_uri(width: u32, height: u32, rgb: Seq<u8>) -> Option<Seq<char>> {
    let c = capped_image(width, height, rgb);
    jpeg_uri(jpeg_file(c.0, c.1, c.2))
}

/// The bytes of an optional buffer.
pub open spec fn bytes_of(v: Option<Vec<u8>>) -> Option<Seq<u8>> {
    match v {
        Some(b) => Some(b@),
        None => None,
    }
}

/// The `data:` URI of an encoded JPEG file, as `jpeg_uri` says.
pub fn jpeg_data_uri(jpeg: Option<Vec<u8>>) -> (out: Option<String>)
    ensures
        match out {
            Some(s) => jpeg_uri(bytes_of(jpeg)) == Some(s@),
            None => jpeg_uri(bytes_of(jpeg)) is None,
        },
{
    match jpeg {
        Some(j) => {
            if j.len() / 3 >= usize::MAX / 4 {
                return None;
            }
            let b64 = encode_base64(j.as_slice());
            let mut s = String::from_str("data:image/jpeg;base64,");
            s.append(b64.as_str());
            Some(s)
        },
        None => None,
    }
}

/// Encodes an RGB image as a JPEG `data:` URI, scaling it down first when
/// a side exceeds `MAX_IMAGE_SIDE`; the image encoded never has a side
/// longer than `MAX_IMAGE_SIDE`.
pub fn encode_data_uri(width: u32, height: u32, rgb: &Vec<u8>) -> (out: Option<String>)
    requires
        width > 0,
        height > 0,
        rgb@.len() == width * height * 3,
    ensures
        0 < capped_image(width, height, rgb@).0 <= MAX_IMAGE_SIDE,
        0 < capped_image(width, height, rgb@).1 <= MAX_IMAGE_SIDE,
        match out {
            Some(s) => image_data_uri(width, height, rgb@) == Some(s@),
            None => image_data_uri(width, height, rgb@) is None,
        },
{
    let jpeg = if width > MAX_IMAGE_SIDE || height > MAX_IMAGE_SIDE {
        let (w, h, px) = thumbnail_rgb(width, height, rgb, MAX_IMAGE_SIDE);
        encode_jpeg(w, h, &px)
    } else {
        encode_jpeg(width, height, rgb)
    };
    jpeg_data_uri(jpeg)
}

/// The `data:` URI of an image embedded in a page, when both its sides are
/// at least `MIN_PAGE_IMAGE_SIDE` pixels.
pub fn page_image_data_uri(width: u32, height: u32, rgb: &Vec<u8>) -> (out: Option<String>)
    requires
        rgb@.len() == width * height * 3,
    ensures
        width < MIN_PAGE_IMAGE_SIDE || height < MIN_PAGE_IMAGE_SIDE ==> out is None,
        width >= MIN_PAGE_IMAGE_SIDE && height >= MIN_PAGE_IMAGE_SIDE ==> match out {
            Some(s) => image_data_uri(width, height, rgb@) == Some(s@),
            None => image_data_uri(width, height, rgb@) is None,
        },
        width >= MIN_PAGE_IMAGE_SIDE && height >= MIN_PAGE_IMAGE_SIDE ==> {
            &&& 0 < capped_image(width, height, rgb@).0 <= MAX_IMAGE_SIDE
            &&& 0 < capped_image(width, height, rgb@).1 <= MAX_IMAGE_SIDE
        },
{
    if width < MIN_PAGE_IMAGE_SIDE || height < MIN_PAGE_IMAGE_SIDE {
        return None;
    }
    encode_data_uri(width, height, rgb)
}

/// The window of a region clipped to the image: the corner moved inside the
/// image and the size cut to what remains to the right and below it.
pub open spec fn clipped_window(img_w: u32, img_h: u32, x: u32, y: u32, w: u32, h: u32) -> (
    u32,
    u32,
    u32,
    u32,
) {
    let cx = if x < img_w {
        x
    } else {
        img_w
    };
    let cy = if y < img_h {
        y
    } else {
        img_h
    };
    let cw = if w < img_w - cx {
        w
    } else {
        (img_w - cx) as u32
    };
    let ch = if h < img_h - cy {
        h
    } else {
        (img_h - cy) as u32
    };
    (cx, cy, cw, ch)
}

/// The clipped window lies inside the image; its top row is `y`, or the
/// image's bottom edge when `y` lies below it, and its left column is `x`,
/// or the right edge when `x` lies past it; its size is the asked size cut
/// to what remains of the image. Rows depend only on `y` and `h`, columns
/// only on `x` and `w`.
pub proof fn lemma_clipped_window(img_w: u32, img_h: u32, x: u32, y: u32, w: u32, h: u32)
    ensures
        ({
            let (cx, cy, cw, ch) = clipped_window(img_w, img_h, x, y, w, h);
            &&& x <= img_w ==> cx == x
            &&& x > img_w ==> cx == img_w
            &&& y <= img_h ==> cy == y
            &&& y > img_h ==> cy == img_h
            &&& cx + cw <= img_w
            &&& cy + ch <= img_h
            &&& cw <= w
            &&& ch <= h
            &&& x + w <= img_w ==> cw == w
            &&& x + w > img_w ==> cx + cw == img_w
            &&& y + h <= img_h ==> ch == h
            &&& y + h > img_h ==> cy + ch == img_h
        }),
        forall|x2: u32, w2: u32|
            #![trigger clipped_window(img_w, img_h, x2, y, w2, h)]
            clipped_window(img_w, img_h, x2, y, w2, h).1 == clipped_window(img_w, img_h, x, y, w, h).1
                && clipped_window(img_w, img_h, x2, y, w2, h).3 == clipped_window(
                img_w,
                img_h,
                x,
                y,
                w,
                h,
            ).3,
        forall|y2: u32, h2: u32|
            #![trigger clipped_window(img_w, img_h, x, y2, w, h2)]
            clipped_window(img_w, img_h, x, y2, w, h2).0 == clipped_window(img_w, img_h, x, y, w, h).0
                && clipped_window(img_w, img_h, x, y2, w, h2).2 == clipped_window(
                img_w,
                img_h,
                x,
                y,
                w,
                h,
            ).2,
{
}

/// Pixel `(i, j)` of a cropped window, channel `ch3`, is pixel
/// `(x + i, y + j)` of the image, same channel: the window's rows are the
/// image rows from `y` down, its columns those from `x` on.
pub proof fn lemma_cropped_pixel(
    rgb: Seq<u8>,
    width: int,
    x: int,
    y: int,
    cw: int,
    ch: int,
    i: int,
    j: int,
    ch3: int,
)
    requires
        0 <= i < cw,
        0 <= j < ch,
        0 <= ch3 < 3,
    ensures
        cropped(rgb, width, x, y, cw, ch).len() == cw * ch * 3,
        (j * cw + i) * 3 + ch3 < cw * ch * 3,
        cropped(rgb, width, x, y, cw, ch)[(j * cw + i) * 3 + ch3] == rgb[((y + j) * width + (x + i))
            * 3 + ch3],
{
    let k = (j * cw + i) * 3 + ch3;
    let d = cw * 3;
    assert(k == j * d + (i * 3 + ch3)) by (nonlinear_arith)
        requires
            k == (j * cw + i) * 3 + ch3,
            d == cw * 3,
    ;
    assert(0 <= i * 3 + ch3 < d);
    vstd::arithmetic::div_mod::lemma_fundamental_div_mod_converse(k, d, j, i * 3 + ch3);
    assert(cw * ch * 3 >= 0 && k < cw * ch * 3) by (nonlinear_arith)
        requires
            0 <= i < cw,
            0 <= j < ch,
            0 <= ch3 < 3,
            k == (j * cw + i) * 3 + ch3,
    ;
    assert(((y + k / d) * width + x) * 3 + k % d == ((y + j) * width + (x + i)) * 3 + ch3) by (
    nonlinear_arith)
        requires
            k / d == j,
            k % d == i * 3 + ch3,
    ;
}

/// The `data:` URI of a region of a rendered page: the window is clipped to
/// the image and must keep both sides at least `MIN_REGION_SIDE` pixels.
pub fn region_data_uri(
    img_w: u32,
    img_h: u32,
    rgb: &Vec<u8>,
    x: u32,
    y: u32,
    w: u32,
    h: u32,
) -> (out: Option<String>)
    requires
        rgb@.len() == img_w * img_h * 3,
    ensures
        ({
            let (cx, cy, cw, ch) = clipped_window(img_w, img_h, x, y, w, h);
            if cw < MIN_REGION_SIDE || ch < MIN_REGION_SIDE {
                out is None
            } else {
                let px = cropped(rgb@, img_w as int, cx as int, cy as int, cw as int, ch as int);
                &&& match out {
                    Some(s) => image_data_uri(cw, ch, px) == Some(s@),
                    None => image_data_uri(cw, ch, px) is None,
                }
                &&& 0 < capped_image(cw, ch, px).0 <= MAX_IMAGE_SIDE
                &&& 0 < capped_image(cw, ch, px).1 <= MAX_IMAGE_SIDE
            }
        }),
{
    let cx = if x < img_w {
        x
    } else {
        img_w
    };
    let cy = if y < img_h {
        y
    } else {
        img_h
    };
    let cw = if w < img_w - cx {
        w
    } else {
        img_w - cx
    };
    let ch = if h < img_h - cy {
        h
    } else {
        img_h - cy
    };
    if cw < MIN_REGION_SIDE || ch < MIN_REGION_SIDE {
        return None;
    }
    let px = crop_rgb(img_w, img_h, rgb, cx, cy, cw, ch);
    encode_data_uri(cw, ch, &px)
}

} // verus!
