//! QR codes of links, as text for a terminal and as pixels for a window.

use vstd::prelude::*;
use vstd::string::*;
use vstd::utf8::*;
use qrcode::render::unicode::Dense1x2;
use qrcode::{Color, QrCode};
use crate::url::opt_text;

verus! {

/// The modules of a QR code, row by row: `true` is dark.
pub struct QrModules {
    pub width: usize,
    pub dark: Vec<bool>,
}

/// The width and the modules of the QR code of bytes; none when they do not fit.
pub uninterp spec fn qr_modules_of(data: Seq<u8>) -> Option<(nat, Seq<bool>)>;

/// The QR code of bytes drawn with Unicode half blocks inside a quiet zone; none when they do not
/// fit.
pub uninterp spec fn qr_unicode_of(data: Seq<u8>) -> Option<Seq<char>>;

/// `QrCode::new` and its `width` and `to_colors`: the code depends on the bytes alone, is square,
/// and has at most 177 modules a side, the width of the largest version.
#[verifier::external_body]
fn qr_modules(data: &[u8]) -> (r: Option<QrModules>)
    ensures
        qr_modules_of(data@) == (match r {
            Some(m) => Some((m.width as nat, m.dark@)),
            None => None,
        }),
        r matches Some(m) ==> m.dark@.len() == m.width * m.width && m.width <= 177,
{
    let code = QrCode::new(data).ok()?;
    let dark = code.to_colors().into_iter().map(|c| c == Color::Dark).collect();
    Some(QrModules { width: code.width(), dark })
}

/// `QrCode::render` with Unicode half blocks and a quiet zone: the text depends on the bytes alone.
#[verifier::external_body]
fn qr_unicode(data: &[u8]) -> (r: Option<String>)
    ensures
        opt_text(r) == qr_unicode_of(data@),
{
    let code = QrCode::new(data).ok()?;
    Some(code.render::<Dense1x2>().quiet_zone(true).build())
}

/// Draw the QR code of a link for a terminal.
pub fn render_qr(url: &str) -> (r: Option<String>)
    ensures
        opt_text(r) == qr_unicode_of(encode_utf8(url@)),
{
    qr_unicode(url.as_bytes())
}

/// Pixels for each module.
pub const SCALE: usize = 6;

/// Width of the light border, in modules.
pub const QUIET: usize = 4;

/// A square picture: `true` is black.
pub struct QrImage {
    pub dim: usize,
    pub black: Vec<bool>,
}

/// Whether the pixel in column `x` and row `y` is black: it lies in a dark module.
pub open spec fn is_black(width: int, dark: Seq<bool>, x: int, y: int) -> bool {
    let mx = x / 6 - 4;
    let my = y / 6 - 4;
    0 <= mx < width && 0 <= my < width && dark[my * width + mx]
}

/// Draw modules as pixels, with a light border round them.
pub fn qr_pixels(m: &QrModules) -> (r: QrImage)
    requires
        m.dark@.len() == m.width * m.width,
        m.width <= 177,
    ensures
        r.dim == (m.width + 8) * 6,
        r.black@.len() == r.dim * r.dim,
        forall|x: int, y: int|
            #![trigger r.black@[y * r.dim + x]]
            0 <= x < r.dim && 0 <= y < r.dim ==> r.black@[y * r.dim + x] == is_black(
                m.width as int,
                m.dark@,
                x,
                y,
            ),
{
    let w: usize = m.width;
    let dim: usize = (w + QUIET * 2) * SCALE;
    let mut black: Vec<bool> = Vec::new();
    let mut y: usize = 0;
    while y < dim
        invariant
            w == m.width,
            m.dark@.len() == w * w,
            w <= 177,
            dim == (w + 8) * 6,
            y <= dim,
            black@.len() == y * dim,
            forall|a: int, b: int|
                #![trigger black@[b * dim + a]]
                0 <= a < dim && 0 <= b < y ==> black@[b * dim + a] == is_black(
                    w as int,
                    m.dark@,
                    a,
                    b,
                ),
        decreases dim - y,
    {
        let mut x: usize = 0;
        let ghost done = black@;
        while x < dim
            invariant
                w == m.width,
                m.dark@.len() == w * w,
                w <= 177,
                dim == (w + 8) * 6,
                y < dim,
                x <= dim,
                done.len() == y * dim,
                black@.len() == y * dim + x,
                forall|i: int| 0 <= i < done.len() ==> black@[i] == done[i],
                forall|a: int|
                    #![trigger black@[y * dim + a]]
                    0 <= a < x ==> black@[y * dim + a] == is_black(
                        w as int,
                        m.dark@,
                        a,
                        y as int,
                    ),
            decreases dim - x,
        {
            let mx: usize = x / SCALE;
            let my: usize = y / SCALE;
            let inside: bool = mx >= QUIET && mx < w + QUIET && my >= QUIET && my < w + QUIET;
            let b: bool = if inside {
                let (cx, cy): (usize, usize) = (mx - QUIET, my - QUIET);
                proof {
                    lemma_cell(w as int, cx as int, cy as int);
                }
                m.dark[cy * w + cx]
            } else {
                false
            };
            black.push(b);
            assert(b == is_black(w as int, m.dark@, x as int, y as int));
            x = x + 1;
        }
        proof {
            assert((y + 1) * dim == y * dim + dim) by (nonlinear_arith);
            assert forall|a: int, b: int|
                #![trigger black@[b * dim + a]]
                0 <= a < dim && 0 <= b < y + 1 implies black@[b * dim + a] == is_black(
                w as int,
                m.dark@,
                a,
                b,
            ) by {
                if b < y {
                    lemma_earlier_row(dim as int, a, b, y as int);
                    assert(done[b * dim + a] == black@[b * dim + a]);
                }
            }
        }
        y = y + 1;
    }
    QrImage { dim, black }
}

proof fn lemma_cell(w: int, x: int, y: int)
    requires
        0 <= x < w <= 177,
        0 <= y < w,
    ensures
        0 <= y * w + x < w * w <= 177 * 177,
        0 <= y * w <= 177 * 177,
{
    assert(y * w + x < w * w) by (nonlinear_arith)
        requires
            0 <= x < w,
            0 <= y < w,
    ;
    assert(0 <= y * w <= 177 * 177) by (nonlinear_arith)
        requires
            0 <= y < w <= 177,
    ;
    assert(w * w <= 177 * 177) by (nonlinear_arith)
        requires
            0 <= w <= 177,
    ;
}

proof fn lemma_earlier_row(dim: int, x: int, b: int, y: int)
    requires
        0 <= x < dim,
        0 <= b < y,
    ensures
        0 <= b * dim + x < y * dim,
{
    assert(b * dim + x < y * dim) by (nonlinear_arith)
        requires
            0 <= x < dim,
            0 <= b < y,
    ;
    assert(0 <= b * dim) by (nonlinear_arith)
        requires
            0 <= b,
            0 <= dim,
    ;
}

/// The picture of a link's QR code.
pub fn qr_image(url: &str) -> (r: Option<QrImage>)
    ensures
        match qr_modules_of(encode_utf8(url@)) {
            Some((w, dark)) => {
                &&& r matches Some(i) && i.dim == (w + 8) * 6 && i.black@.len() == i.dim * i.dim
                &&& forall|x: int, y: int|
                    #![trigger is_black(w as int, dark, x, y)]
                    0 <= x < r->0.dim && 0 <= y < r->0.dim ==> r->0.black@[y * r->0.dim + x]
                        == is_black(w as int, dark, x, y)
            },
            None => r is None,
        },
{
    match qr_modules(url.as_bytes()) {
        Some(m) => {
            let i = qr_pixels(&m);
            Some(i)
        },
        None => None,
    }
}

// ---- Laws ----

/// Every module is a square of six by six pixels in its colour, behind a border of four modules.
pub proof fn modules_are_squares(width: int, dark: Seq<bool>, mx: int, my: int, dx: int, dy: int)
    requires
        0 <= mx < width,
        0 <= my < width,
        0 <= dx < 6,
        0 <= dy < 6,
    ensures
        is_black(width, dark, 6 * (mx + 4) + dx, 6 * (my + 4) + dy) == dark[my * width + mx],
{
}

/// The border is light: four modules of six pixels on every side.
pub proof fn the_border_is_light(width: int, dark: Seq<bool>, x: int, y: int)
    requires
        width >= 0,
        x < 24 || y < 24 || x >= 6 * (width + 4) || y >= 6 * (width + 4),
    ensures
        !is_black(width, dark, x, y),
{
}

} // verus!
