//! Scrolling spectrogram: one column per frame, one row per semitone band.

use vstd::prelude::*;

use crate::dsp::cqt::N_BANDS;
use crate::ieee::Real32;

verus! {

pub const COLS: usize = 480;

/// Pixels of the picture.
pub const PIXELS: usize = 29280;

/// The steps of the color map lie at 0.35, 0.62, 0.85 and 1, as IEEE 754 patterns.
pub const HEAT_1: u32 = 0x3eb3_3333;

pub const HEAT_2: u32 = 0x3f1e_b852;

pub const HEAT_3: u32 = 0x3f59_999a;

pub const HEAT_4: u32 = 0x3f80_0000;

/// The picture. `P` is the caller's color.
pub struct Spectrogram<P> {
    /// Row-major pixels, row 0 = highest band (top of image).
    pub pixels: Vec<P>,
}

/// `after` is `before` scrolled left by one column, with `column` at the right end;
/// the top row is the highest band.
pub open spec fn scrolled<P>(before: Seq<P>, after: Seq<P>, column: Seq<P>) -> bool {
    forall|row: int, col: int|
        0 <= row < N_BANDS && 0 <= col < COLS ==> #[trigger] color_at(after, row, col) == if col + 1 < COLS {
            color_at(before, row, col + 1)
        } else {
            column[N_BANDS - 1 - row]
        }
}

/// `column` holds the colors of the bands of a frame, all alike where it is silent.
pub open spec fn shaded<P, S: Fn(Real32) -> P>(
    shade: S,
    quiet: P,
    audible: bool,
    bands: Seq<Real32>,
    column: Seq<P>,
) -> bool {
    &&& column.len() == bands.len()
    &&& forall|k: int|
        0 <= k < bands.len() ==> if audible {
            call_ensures(shade, (bands[k],), #[trigger] column[k])
        } else {
            column[k] == quiet
        }
}

/// The color in a row and a column.
pub open spec fn color_at<P>(pixels: Seq<P>, row: int, col: int) -> P {
    pixels[row * COLS + col]
}

impl<P: Copy> Spectrogram<P> {
    /// Every pixel is there.
    pub open spec fn well_formed(&self) -> bool {
        self.pixels.len() == PIXELS
    }

    /// A picture of one color.
    pub fn new(floor: P) -> (r: Self)
        ensures
            r.well_formed(),
            r.pixels@ == Seq::new(PIXELS as nat, |k: int| floor),
    {
        let mut pixels: Vec<P> = Vec::with_capacity(PIXELS);
        let mut k: usize = 0;
        while k < PIXELS
            invariant
                k <= PIXELS,
                pixels@ == Seq::new(k as nat, |j: int| floor),
            decreases PIXELS - k,
        {
            pixels.push(floor);
            k = k + 1;
            assert(pixels@ =~= Seq::new(k as nat, |j: int| floor));
        }
        Spectrogram { pixels }
    }

    /// Appends one column (scrolls left); the top row is the highest pitch. `shade` gives
    /// the color of a band. Silent frames draw the color `quiet` so pauses read as gaps.
    pub fn push<S: Fn(Real32) -> P>(&mut self, bands: &Vec<Real32>, audible: bool, quiet: P, shade: S)
        requires
            old(self).well_formed(),
            bands.len() == N_BANDS,
            forall|b: Real32| call_requires(shade, (b,)),
        ensures
            final(self).well_formed(),
            exists|column: Seq<P>| #[trigger]
                shaded(shade, quiet, audible, bands@, column) && scrolled(
                    old(self).pixels@,
                    final(self).pixels@,
                    column,
                ),
    {
        let mut column: Vec<P> = Vec::new();
        let mut i: usize = 0;
        while i < bands.len()
            invariant
                i <= bands.len(),
                column.len() == i,
                forall|b: Real32| call_requires(shade, (b,)),
                forall|k: int|
                    0 <= k < i ==> if audible {
                        call_ensures(shade, (bands[k],), #[trigger] column[k])
                    } else {
                        column[k] == quiet
                    },
            decreases bands.len() - i,
        {
            let color: P = if audible { shade(bands[i]) } else { quiet };
            column.push(color);
            i = i + 1;
        }
        assert(shaded(shade, quiet, audible, bands@, column@));
        self.scroll(&column);
    }

    /// Appends one column; `column` holds the color of each band.
    fn scroll(&mut self, column: &Vec<P>)
        requires
            old(self).well_formed(),
            column.len() == N_BANDS,
        ensures
            final(self).well_formed(),
            scrolled(old(self).pixels@, final(self).pixels@, column@),
    {
        let mut pixels: Vec<P> = Vec::with_capacity(PIXELS);
        let mut row: usize = 0;
        while row < N_BANDS
            invariant
                row <= N_BANDS == column.len(),
                self.pixels.len() == PIXELS,
                pixels.len() == row * COLS,
                forall|r: int, c: int|
                    #![trigger pixels[r * COLS + c]]
                    0 <= r < row && 0 <= c < COLS ==> pixels[r * COLS + c] == if c + 1 < COLS {
                        self.pixels[r * COLS + c + 1]
                    } else {
                        column[N_BANDS - 1 - r]
                    },
            decreases N_BANDS - row,
        {
            let mut col: usize = 0;
            let ghost above = pixels@;
            while col < COLS
                invariant
                    row < N_BANDS == column.len(),
                    col <= COLS,
                    self.pixels.len() == PIXELS,
                    above.len() == row * COLS,
                    pixels.len() == row * COLS + col,
                    forall|k: int| 0 <= k < above.len() ==> pixels[k] == #[trigger] above[k],
                    forall|c: int|
                        #![trigger pixels[row * COLS + c]]
                        0 <= c < col ==> pixels[row * COLS + c] == if c + 1 < COLS {
                            self.pixels[row * COLS + c + 1]
                        } else {
                            column[N_BANDS - 1 - row]
                        },
                decreases COLS - col,
            {
                let next: P = if col + 1 < COLS {
                    self.pixels[row * COLS + col + 1]
                } else {
                    column[N_BANDS - 1 - row]
                };
                pixels.push(next);
                col = col + 1;
            }
            proof {
                assert forall|r: int, c: int|
                    #![trigger pixels[r * COLS + c]]
                    0 <= r < row + 1 && 0 <= c < COLS implies pixels[r * COLS + c] == if c + 1 < COLS {
                    self.pixels[r * COLS + c + 1]
                } else {
                    column[N_BANDS - 1 - r]
                } by {
                    if r < row {
                        assert(0 <= r * COLS + c < above.len());
                        assert(pixels[r * COLS + c] == above[r * COLS + c]);
                    }
                }
            }
            row = row + 1;
        }
        let ghost before = self.pixels@;
        self.pixels = pixels;
        proof {
            assert forall|r: int, c: int|
                0 <= r < N_BANDS && 0 <= c < COLS implies #[trigger] color_at(self.pixels@, r, c) == if c + 1 < COLS {
                color_at(before, r, c + 1)
            } else {
                column[N_BANDS - 1 - r]
            } by {
                assert(self.pixels[r * COLS + c] == color_at(self.pixels@, r, c));
            }
        }
    }
}

/// A column that was pushed some frames ago stands that many columns from the
/// right. `pictures` holds the picture before each push and after the last.
pub proof fn columns_scroll_left<P>(pictures: Seq<Seq<P>>, columns: Seq<Seq<P>>, n: int, ago: int, row: int)
    requires
        pictures.len() == columns.len() + 1,
        forall|i: int|
            0 <= i < columns.len() ==> scrolled(#[trigger] pictures[i], pictures[i + 1], columns[i]),
        0 <= ago < n <= columns.len(),
        ago < COLS,
        0 <= row < N_BANDS,
    ensures
        color_at(pictures[n], row, COLS - 1 - ago) == columns[n - 1 - ago][N_BANDS - 1 - row],
    decreases ago,
{
    assert(scrolled(pictures[n - 1], pictures[n - 1 + 1], columns[n - 1]));
    if ago > 0 {
        columns_scroll_left(pictures, columns, n - 1, ago - 1, row);
    }
}

/// The step of the color map in which a heat lies; past the last where it lies in
/// none.
pub open spec fn heat_step_of(t: Real32) -> int {
    if t.at_most(Real32 { bits: HEAT_1 }) {
        0
    } else if t.at_most(Real32 { bits: HEAT_2 }) {
        1
    } else if t.at_most(Real32 { bits: HEAT_3 }) {
        2
    } else if t.at_most(Real32 { bits: HEAT_4 }) {
        3
    } else {
        4
    }
}

/// The step of the color map in which a heat lies.
pub fn heat_step(t: &Real32) -> (step: usize)
    ensures
        step == heat_step_of(*t),
{
    if t.less_or_equal(&Real32::from_bits(HEAT_1)) {
        0
    } else if t.less_or_equal(&Real32::from_bits(HEAT_2)) {
        1
    } else if t.less_or_equal(&Real32::from_bits(HEAT_3)) {
        2
    } else if t.less_or_equal(&Real32::from_bits(HEAT_4)) {
        3
    } else {
        4
    }
}

} // verus!
