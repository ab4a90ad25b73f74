//! Small images as clips: a PNG inside a data URL, so that an image travels as text.

use vstd::prelude::*;
use vstd::string::*;
use image::{DynamicImage, ImageFormat, RgbaImage};
use image::imageops::FilterType;
use crate::base64::{b64, b64_bytes, b64_decode, b64_encode, b64_is_read_back};
use crate::text::{
    begins, chars_of, find, find_text, lemma_find_text, occurs_at, part, starts_with, string_of,
};

verus! {

/// Longest side that an image is sent with.
pub const MAX_DIM: u32 = 1600;

/// Largest PNG that is sent.
pub const MAX_PNG_BYTES: usize = 700_000;

/// What a PNG data URL begins with.
pub const PREFIX: &'static str = "data:image/png;base64,";

/// RGBA pixels, four bytes each, row by row.
pub struct Pixels {
    pub width: u32,
    pub height: u32,
    pub rgba: Vec<u8>,
}

/// Whether a clip is an image.
pub open spec fn image_url(s: Seq<char>) -> bool {
    begins(s, "data:image/"@)
}

/// Whether a clip is an image.
pub fn is_image(s: &str) -> (r: bool)
    ensures
        r == image_url(s@),
{
    starts_with(&chars_of(s), &chars_of("data:image/"))
}

// ---- Outside calls ----

/// The PNG that the image crate writes for RGBA pixels; none when it refuses.
pub uninterp spec fn png_encoding(width: nat, height: nat, rgba: Seq<u8>) -> Option<Seq<u8>>;

/// The width, height and pixels that the image crate makes of an image when it is fitted into a
/// square of a given side with the triangle filter.
pub uninterp spec fn image_resized(width: nat, height: nat, rgba: Seq<u8>, side: nat) -> (
    nat,
    nat,
    Seq<u8>,
);

/// The width, height and RGBA pixels that the image crate reads from the bytes of an image file;
/// none when it refuses.
pub uninterp spec fn image_decoded(bytes: Seq<u8>) -> Option<(nat, nat, Seq<u8>)>;

/// The bytes of an optional byte vector.
pub open spec fn opt_bytes(v: Option<Vec<u8>>) -> Option<Seq<u8>> {
    match v {
        Some(b) => Some(b@),
        None => None,
    }
}

/// The values of optional pixels.
pub open spec fn opt_pixels(p: Option<Pixels>) -> Option<(nat, nat, Seq<u8>)> {
    match p {
        Some(q) => Some((q.width as nat, q.height as nat, q.rgba@)),
        None => None,
    }
}

/// `DynamicImage::write_to` with the PNG format: what it writes depends on the pixels alone. The
/// buffer has exactly the length that the dimensions need, as the encoder demands.
#[verifier::external_body]
fn encode_png(p: &Pixels) -> (r: Option<Vec<u8>>)
    requires
        p.rgba@.len() == 4 * p.width * p.height,
    ensures
        opt_bytes(r) == png_encoding(p.width as nat, p.height as nat, p.rgba@),
{
    let image = DynamicImage::ImageRgba8(RgbaImage::from_raw(p.width, p.height, p.rgba.clone())?);
    let mut png = Vec::new();
    image.write_to(&mut std::io::Cursor::new(&mut png), ImageFormat::Png).ok()?;
    Some(png)
}

/// `DynamicImage::resize` with the triangle filter, on an image that does not fit into the square:
/// the result depends on the pixels and the side alone, fits into the square, and has four bytes
/// for each pixel. The intermediate image must be countable.
#[verifier::external_body]
fn resize(p: &Pixels, side: u32) -> (r: Pixels)
    requires
        p.width > side || p.height > side,
        4 * p.width * p.height <= p.rgba@.len(),
        4 * p.width * side <= usize::MAX,
        side > 0,
    ensures
        (r.width as nat, r.height as nat, r.rgba@) == image_resized(
            p.width as nat,
            p.height as nat,
            p.rgba@,
            side as nat,
        ),
        r.width <= side,
        r.height <= side,
        r.rgba@.len() == 4 * r.width * r.height,
{
    let image = DynamicImage::ImageRgba8(
        RgbaImage::from_raw(p.width, p.height, p.rgba.clone()).unwrap(),
    );
    let out = image.resize(side, side, FilterType::Triangle).to_rgba8();
    Pixels { width: out.width(), height: out.height(), rgba: out.into_raw() }
}

/// `image::load_from_memory`, as RGBA pixels: the result depends on the bytes alone. PNG keeps
/// every pixel, so that the PNG of an image that is neither empty nor larger than clips may be is
/// read back as the same pixels.
#[verifier::external_body]
fn decode_image(bytes: &[u8]) -> (r: Option<Pixels>)
    ensures
        opt_pixels(r) == image_decoded(bytes@),
        forall|w: nat, h: nat, px: Seq<u8>|
            0 < w <= MAX_DIM && 0 < h <= MAX_DIM && px.len() == 4 * w * h && #[trigger] png_encoding(
                w,
                h,
                px,
            ) == Some(bytes@) ==> opt_pixels(r) == Some((w, h, px)),
{
    let rgba = image::load_from_memory(bytes).ok()?.to_rgba8();
    Some(Pixels { width: rgba.width(), height: rgba.height(), rgba: rgba.into_raw() })
}

// ---- Data URLs ----

/// The data URL of a PNG, unless it is too large to send.
pub open spec fn png_url(png: Seq<u8>) -> Option<Seq<char>> {
    if png.len() > MAX_PNG_BYTES {
        None
    } else {
        Some(PREFIX@ + b64(png))
    }
}

/// The data URL of a PNG, unless it is too large to send.
pub fn png_data_url(png: &[u8]) -> (r: Option<String>)
    ensures
        crate::url::opt_text(r) == png_url(png@),
{
    if png.len() > MAX_PNG_BYTES {
        return None;
    }
    let mut s = String::new();
    s.append(PREFIX);
    s.append(b64_encode(png).as_str());
    assert(s@ =~= PREFIX@ + b64(png@));
    Some(s)
}

/// The larger of two sides.
pub open spec fn longest(w: nat, h: nat) -> nat {
    if w > h {
        w
    } else {
        h
    }
}

/// The data URL of RGBA pixels: scaled down if a side is too long, and none if there are too few
/// bytes for the dimensions, the encoder refuses, or the PNG is too large.
pub open spec fn pixels_url(w: nat, h: nat, rgba: Seq<u8>) -> Option<Seq<char>> {
    if rgba.len() < 4 * w * h {
        None
    } else {
        let (w2, h2, px) = if longest(w, h) > MAX_DIM {
            image_resized(w, h, rgba, MAX_DIM as nat)
        } else {
            (w, h, rgba)
        };
        match png_encoding(w2, h2, px) {
            Some(png) => png_url(png),
            None => None,
        }
    }
}

/// Encode RGBA pixels as a PNG data URL, scaled down and capped in size. There may be more bytes
/// than the dimensions need only where the image is scaled down.
pub fn rgba_to_data_url(w: u32, h: u32, rgba: &[u8]) -> (r: Option<String>)
    requires
        rgba@.len() > 4 * w * h ==> longest(w as nat, h as nat) > MAX_DIM,
        4 * w * MAX_DIM <= usize::MAX,
    ensures
        crate::url::opt_text(r) == pixels_url(w as nat, h as nat, rgba@),
{
    proof {
        assert(4 * (w as int) * (h as int) <= 4 * 0xFFFF_FFFF * 0xFFFF_FFFF) by (nonlinear_arith)
            requires
                0 <= w <= 0xFFFF_FFFF,
                0 <= h <= 0xFFFF_FFFF,
        ;
    }
    let need: u128 = 4 * (w as u128) * (h as u128);
    if (rgba.len() as u128) < need {
        return None;
    }
    let all = crate::bytes::bytes_part(rgba, 0, rgba.len());
    assert(all@ =~= rgba@);
    let given = Pixels { width: w, height: h, rgba: all };
    let p = if w > MAX_DIM || h > MAX_DIM {
        resize(&given, MAX_DIM)
    } else {
        given
    };
    match encode_png(&p) {
        Some(png) => png_data_url(&png),
        None => None,
    }
}

/// The bytes inside a data URL: the Base64 text between the first `base64,` and the next one.
pub open spec fn url_bytes(url: Seq<char>) -> Option<Seq<u8>> {
    match find_text(url, "base64,"@) {
        Some(i) => {
            let rest = url.skip(i + "base64,"@.len());
            match find_text(rest, "base64,"@) {
                Some(j) => b64_bytes(rest.take(j)),
                None => b64_bytes(rest),
            }
        },
        None => None,
    }
}

/// The bytes inside a data URL.
pub fn data_url_bytes(url: &str) -> (r: Option<Vec<u8>>)
    ensures
        opt_bytes(r) == url_bytes(url@),
{
    let u = chars_of(url);
    let mark = chars_of("base64,");
    match find(&u, &mark) {
        Some(i) => {
            let len: usize = u.len();
            let rest = part(&u, i + mark.len(), len);
            assert(rest@ =~= url@.skip(i + "base64,"@.len()));
            let end: usize = match find(&rest, &mark) {
                Some(j) => j,
                None => rest.len(),
            };
            let body = part(&rest, 0, end);
            proof {
                match find_text(rest@, "base64,"@) {
                    Some(j) => {
                        assert(body@ =~= rest@.take(j));
                    },
                    None => {
                        assert(body@ =~= rest@);
                    },
                }
            }
            b64_decode(string_of(&body).as_str())
        },
        None => None,
    }
}

/// Decode an image data URL to its pixels. The data URL of an image that was not scaled down gives
/// back the very pixels it was made from.
pub fn data_url_to_rgba(url: &str) -> (r: Option<Pixels>)
    ensures
        opt_pixels(r) == (match url_bytes(url@) {
            Some(b) => image_decoded(b),
            None => None,
        }),
        forall|w: nat, h: nat, px: Seq<u8>|
            0 < w <= MAX_DIM && 0 < h <= MAX_DIM && px.len() == 4 * w * h && #[trigger] pixels_url(
                w,
                h,
                px,
            ) == Some(url@) ==> opt_pixels(r) == Some((w, h, px)),
{
    proof {
        assert forall|w: nat, h: nat, px: Seq<u8>|
            0 < w <= MAX_DIM && 0 < h <= MAX_DIM && px.len() == 4 * w * h && #[trigger] pixels_url(
                w,
                h,
                px,
            ) == Some(url@) implies url_bytes(url@) == png_encoding(w, h, px) by {
            png_url_is_read_back(png_encoding(w, h, px)->0);
        }
    }
    match data_url_bytes(url) {
        Some(bytes) => decode_image(&bytes),
        None => None,
    }
}

// ---- Laws ----

proof fn lemma_b64_has_no_comma(d: Seq<u8>)
    ensures
        !b64(d).contains(','),
    decreases d.len(),
{
    if d.len() >= 3 {
        lemma_b64_has_no_comma(d.skip(3));
    }
}

/// The data URL of a PNG holds the PNG.
pub proof fn png_url_is_read_back(png: Seq<u8>)
    ensures
        png_url(png) matches Some(u) ==> image_url(u) && url_bytes(u) == Some(png),
{
    if png_url(png) is Some {
        reveal_strlit("data:image/png;base64,");
        reveal_strlit("data:image/");
        reveal_strlit("base64,");
        let u = PREFIX@ + b64(png);
        let mark = "base64,"@;
        let body = b64(png);
        assert(u.subrange(0, 11) =~= "data:image/"@);
        lemma_find_text(u, mark);
        lemma_b64_has_no_comma(png);
        assert(u.subrange(15, 22) =~= mark);
        assert(occurs_at(u, mark, 15));
        assert forall|j: int| 0 <= j < 15 implies !occurs_at(u, mark, j) by {
            assert(u.subrange(j, j + 7)[0] == u[j]);
            assert(u.subrange(j, j + 7)[6] == u[j + 6]);
        }
        assert(find_text(u, mark) == Some(15int));
        let rest = u.skip(22);
        assert(rest =~= body);
        lemma_find_text(rest, mark);
        assert forall|j: int| !occurs_at(rest, mark, j) by {
            if occurs_at(rest, mark, j) {
                assert(rest.subrange(j, j + 7)[6] == rest[j + 6]);
                assert(body.contains(','));
            }
        }
        b64_is_read_back(png);
    }
}

proof fn lemma_comma_ends(p: Seq<char>, front: Seq<char>, body: Seq<char>, j: int)
    requires
        p.len() > 0,
        p.last() == ',',
        forall|i: int| 0 <= i < p.len() - 1 ==> #[trigger] p[i] != ',',
        forall|i: int| 0 <= i < front.len() ==> #[trigger] front[i] != ',',
        0 <= j < front.len(),
    ensures
        !occurs_at(front + p + body, p, j),
{
    let u = front + p + body;
    let m = p.len() as int;
    if occurs_at(u, p, j) {
        assert(u.subrange(j, j + m)[m - 1] == u[j + m - 1]);
        let k = j + m - 1;
        if k < front.len() {
            assert(u[k] == front[k]);
        } else {
            assert(u[k] == p[k - front.len()]);
        }
    }
}

proof fn lemma_found_at(s: Seq<char>, p: Seq<char>, n: int)
    requires
        0 <= n,
        occurs_at(s, p, n),
        forall|j: int| 0 <= j < n ==> !occurs_at(s, p, j),
    ensures
        find_text(s, p) == Some(n),
{
    lemma_find_text(s, p);
}

proof fn lemma_first_found(p: Seq<char>, front: Seq<char>, body: Seq<char>)
    requires
        p.len() > 0,
        p.last() == ',',
        forall|i: int| 0 <= i < p.len() - 1 ==> #[trigger] p[i] != ',',
        forall|i: int| 0 <= i < front.len() ==> #[trigger] front[i] != ',',
    ensures
        find_text(front + p + body, p) == Some(front.len() as int),
{
    let u = front + p + body;
    let n = front.len() as int;
    assert(occurs_at(u, p, n)) by {
        assert(u.subrange(n, n + p.len()) =~= p);
    }
    assert forall|j: int| 0 <= j < n implies !occurs_at(u, p, j) by {
        lemma_comma_ends(p, front, body, j);
    }
    lemma_found_at(u, p, n);
}

proof fn lemma_mark_shape()
    ensures
        "base64,"@.len() == 7,
        "base64,"@.last() == ',',
        forall|i: int| 0 <= i < 6 ==> #[trigger] "base64,"@[i] != ',',
{
    reveal_strlit("base64,");
    let mark = "base64,"@;
    assert forall|i: int| 0 <= i < 6 implies #[trigger] mark[i] != ',' by {
        assert(i == 0 || i == 1 || i == 2 || i == 3 || i == 4 || i == 5);
    }
}

proof fn lemma_mark_found(front: Seq<char>, body: Seq<char>)
    requires
        forall|i: int| 0 <= i < front.len() ==> #[trigger] front[i] != ',',
    ensures
        find_text(front + "base64,"@ + body, "base64,"@) == Some(front.len() as int),
{
    lemma_mark_shape();
    lemma_first_found("base64,"@, front, body);
}

proof fn lemma_no_mark(body: Seq<char>)
    requires
        !body.contains(','),
    ensures
        find_text(body, "base64,"@) is None,
{
    reveal_strlit("base64,");
    let mark = "base64,"@;
    lemma_find_text(body, mark);
    assert forall|j: int| !occurs_at(body, mark, j) by {
        if occurs_at(body, mark, j) {
            assert(body.subrange(j, j + 7)[6] == body[j + 6]);
            assert(body.contains(','));
        }
    }
}

/// The bytes of a data URL are those behind `base64,`, whatever kind of image stands before it.
pub proof fn data_urls_are_read_back(front: Seq<char>, d: Seq<u8>)
    requires
        forall|i: int| 0 <= i < front.len() ==> #[trigger] front[i] != ',',
    ensures
        url_bytes(front + "base64,"@ + b64(d)) == Some(d),
{
    let body = b64(d);
    let u = front + "base64,"@ + body;
    lemma_b64_has_no_comma(d);
    lemma_mark_found(front, body);
    lemma_no_mark(body);
    assert(u.skip(front.len() as int + "base64,"@.len()) =~= body);
    b64_is_read_back(d);
}

/// A clip is an image exactly if it begins as the data URL of one.
pub proof fn images_begin_as_such(s: Seq<char>)
    ensures
        image_url(s) <==> exists|rest: Seq<char>| s == #[trigger] ("data:image/"@ + rest),
{
    let p = "data:image/"@;
    if image_url(s) {
        assert(s =~= p + s.skip(p.len() as int));
    }
    if exists|rest: Seq<char>| s == #[trigger] (p + rest) {
        let rest = choose|rest: Seq<char>| s == #[trigger] (p + rest);
        assert(s.subrange(0, p.len() as int) =~= p);
    }
}

/// An image is scaled down only if a side is longer than 1600, is sent only if its PNG has at most
/// 700000 bytes, and is not sent if pixels are missing.
pub proof fn images_are_capped(w: nat, h: nat, rgba: Seq<u8>)
    ensures
        rgba.len() < 4 * w * h ==> pixels_url(w, h, rgba) is None,
        rgba.len() >= 4 * w * h && w <= 1600 && h <= 1600 ==> pixels_url(w, h, rgba) == (match png_encoding(
            w,
            h,
            rgba,
        ) {
            Some(png) => png_url(png),
            None => None,
        }),
        rgba.len() >= 4 * w * h && (w > 1600 || h > 1600) ==> ({
            let (w2, h2, px) = image_resized(w, h, rgba, 1600);
            pixels_url(w, h, rgba) == (match png_encoding(w2, h2, px) {
                Some(png) => png_url(png),
                None => None,
            })
        }),
        forall|png: Seq<u8>| #[trigger] png_url(png) is Some <==> png.len() <= 700000,
{
}

} // verus!
