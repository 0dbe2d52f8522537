//! The code that phones scan to connect.

use vstd::prelude::*;

verus! {

/// Light modules around the code, on each side.
pub const QUIET: usize = 2;

/// Longest text that is handed to the encoder, in bytes. No code holds as much.
pub const MAX_INPUT: usize = 65536;

/// An error of the encoder.
#[verifier::external_type_specification]
#[verifier::external_body]
pub struct ExQrError(qrcode::types::QrError);

/// The code of some bytes at medium error correction, in the smallest size that
/// holds them: the modules on a side, and which modules are dark, row by row.
/// Nothing where no code holds them.
pub uninterp spec fn qr_code(data: Seq<u8>) -> Option<(nat, Seq<bool>)>;

/// Calls `qrcode::QrCode::new`, and `width` and `to_colors` on the code.
///
/// The result is a function of the bytes. A code is square, its side is one more
/// than a multiple of four and between 21 and 177 modules. Which modules are dark,
/// and which bytes have a code, is left unsaid.
#[verifier::external_body]
fn encode(data: &[u8]) -> (r: Result<(usize, Vec<bool>), qrcode::types::QrError>)
    requires
        data@.len() <= MAX_INPUT,
    ensures
        match r {
            Ok((width, dark)) => {
                &&& qr_code(data@) == Some((width as nat, dark@))
                &&& 21 <= width <= 177
                &&& width % 4 == 1
                &&& dark.len() == width * width
            },
            Err(e) => qr_code(data@) is None,
        },
{
    let code = qrcode::QrCode::new(data)?;
    let dark = code.to_colors().into_iter().map(|c| c == qrcode::Color::Dark).collect();
    Ok((code.width(), dark))
}

/// A square picture of dark and light pixels, row by row.
pub struct QrImage {
    pub side: usize,
    pub dark: Vec<bool>,
}

/// Why there is no picture.
#[derive(Clone, Copy, Debug, PartialEq, Eq, Structural)]
pub enum QrFailure {
    /// The text is longer than `MAX_INPUT`.
    TooLong,
    /// No code holds the text.
    NotEncodable,
}

/// Whether the pixel in column `x` and row `y` of the picture is dark: it lies
/// inside the quiet zone, on a dark module.
pub open spec fn dark_at(width: int, modules: Seq<bool>, x: int, y: int) -> bool {
    &&& QUIET <= x < QUIET + width
    &&& QUIET <= y < QUIET + width
    &&& modules[(y - QUIET) * width + (x - QUIET)]
}

/// The pixels of a code with its quiet zone.
pub open spec fn picture(width: int, modules: Seq<bool>) -> Seq<bool> {
    let side = width + 2 * QUIET;
    Seq::new((side * side) as nat, |p: int| dark_at(width, modules, p % side, p / side))
}

proof fn pixel_position(side: int, x: int, y: int)
    requires
        0 <= x < side,
        0 <= y < side,
    ensures
        0 <= y * side + x < side * side,
        (y * side + x) % side == x,
        (y * side + x) / side == y,
{
    vstd::arithmetic::div_mod::lemma_fundamental_div_mod_converse(y * side + x, side, y, x);
    assert(y * side + x < side * side) by (nonlinear_arith)
        requires
            0 <= x < side,
            0 <= y < side,
    ;
    assert(0 <= y * side) by (nonlinear_arith)
        requires
            0 <= x < side,
            0 <= y < side,
    ;
}

/// Whether a pixel is dark.
fn is_dark(width: usize, modules: &Vec<bool>, x: usize, y: usize) -> (r: bool)
    requires
        modules.len() == width * width,
        x < width + 2 * QUIET,
        y < width + 2 * QUIET,
        width + 2 * QUIET <= usize::MAX,
    ensures
        r == dark_at(width as int, modules@, x as int, y as int),
{
    if x < QUIET || y < QUIET || x - QUIET >= width || y - QUIET >= width {
        return false;
    }
    proof {
        pixel_position(width as int, x - QUIET, y - QUIET);
        assert((y - QUIET) * width <= width * width) by (nonlinear_arith)
            requires
                0 <= y - QUIET < width,
        ;
    }
    modules[(y - QUIET) * width + (x - QUIET)]
}

/// Draws the modules of a code with a quiet zone around them.
pub fn draw(width: usize, modules: &Vec<bool>) -> (image: QrImage)
    requires
        modules.len() == width * width,
        (width + 2 * QUIET) * (width + 2 * QUIET) <= usize::MAX,
    ensures
        image.side == width + 2 * QUIET,
        image.dark@ == picture(width as int, modules@),
{
    assert(width + 2 * QUIET <= (width + 2 * QUIET) * (width + 2 * QUIET)) by (nonlinear_arith);
    let side: usize = width + 2 * QUIET;
    let ghost want = picture(width as int, modules@);
    let mut dark: Vec<bool> = Vec::new();
    let mut y: usize = 0;
    while y < side
        invariant
            y <= side,
            side == width + 2 * QUIET,
            modules.len() == width * width,
            want == picture(width as int, modules@),
            dark@ == want.take(y * side),
            0 <= y * side <= side * side,
        decreases side - y,
    {
        let mut x: usize = 0;
        assert(y * side + 0 == y * side);
        while x < side
            invariant
                x <= side,
                y < side,
                side == width + 2 * QUIET,
                modules.len() == width * width,
                want == picture(width as int, modules@),
                dark@ == want.take(y * side + x),
                0 <= y * side + x <= side * side,
            decreases side - x,
        {
            proof {
                pixel_position(side as int, x as int, y as int);
            }
            dark.push(is_dark(width, modules, x, y));
            assert(dark@ =~= want.take(y * side + x + 1));
            x = x + 1;
        }
        y = y + 1;
        assert(y * side == (y - 1) * side + side) by (nonlinear_arith)
            requires
                y >= 1,
        ;
    }
    assert(dark@ =~= want);
    QrImage { side, dark }
}

/// The picture of the code of a text.
pub fn qr_image(url: &str) -> (image: Result<QrImage, QrFailure>)
    ensures
        match image {
            Ok(i) => {
                &&& vstd::utf8::encode_utf8(url@).len() <= MAX_INPUT
                &&& qr_code(vstd::utf8::encode_utf8(url@)) matches Some((width, modules))
                &&& i.side == width + 2 * QUIET
                &&& i.dark@ == picture(width as int, modules)
            },
            Err(QrFailure::TooLong) => vstd::utf8::encode_utf8(url@).len() > MAX_INPUT,
            Err(QrFailure::NotEncodable) => vstd::utf8::encode_utf8(url@).len() <= MAX_INPUT && qr_code(vstd::utf8::encode_utf8(url@)) is None,
        },
{
    let bytes: &[u8] = url.as_bytes();
    if bytes.len() > MAX_INPUT {
        return Err(QrFailure::TooLong);
    }
    match encode(bytes) {
        Ok((width, modules)) => {
            assert((width + 2 * QUIET) * (width + 2 * QUIET) <= 181 * 181) by (nonlinear_arith)
                requires
                    width <= 177,
            ;
            Ok(draw(width, &modules))
        },
        Err(e) => Err(QrFailure::NotEncodable),
    }
}

/// The quiet zone is light, and inside it every module keeps its color.
pub proof fn picture_keeps_the_modules(width: int, modules: Seq<bool>, x: int, y: int)
    requires
        0 <= x < width + 2 * QUIET,
        0 <= y < width + 2 * QUIET,
        modules.len() == width * width,
    ensures
        ({
            let side = width + 2 * QUIET;
            let pixel = picture(width, modules)[y * side + x];
            let inside = QUIET <= x < QUIET + width && QUIET <= y < QUIET + width;
            &&& !inside ==> !pixel
            &&& inside ==> pixel == modules[(y - QUIET) * width + (x - QUIET)]
        }),
{
    pixel_position(width + 2 * QUIET, x, y);
}

} // verus!
