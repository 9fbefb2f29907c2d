//! The Braille framebuffer renderer: a viewport of `w` by `h` glyphs, each
//! encoding a 2-wide, 4-tall block of pixels on top of the base codepoint
//! U+2800, and a camera over the world with pan and zoom.

use vstd::prelude::*;

verus! {

use crate::CellOffset;
use crate::ScreenSize;
use crate::WorldOffset;
use crate::cell::Cell;
use crate::cell::wf_at;
use crate::cellbuf::CellBuf;
use crate::world::World;

/// The blank Braille pattern; dot values are OR-ed onto it.
pub const BRAILLE_EMPTY: u32 = 0x2800;

/// The dot value of the pixel at `(px, py)` within a glyph's 2x4 block.
pub open spec fn dot_hex(px: int, py: int) -> u32 {
    if px == 0 {
        if py == 0 {
            0x1
        } else if py == 1 {
            0x2
        } else if py == 2 {
            0x4
        } else {
            0x40
        }
    } else {
        if py == 0 {
            0x8
        } else if py == 1 {
            0x10
        } else if py == 2 {
            0x20
        } else {
            0x80
        }
    }
}

/// The contribution of the pixel at `(px, py)` of a glyph's block to its
/// dot bits.
pub open spec fn dot_of(cb: Seq<bool>, w: int, gx: int, gy: int, px: int, py: int) -> int {
    if cb[(gy * 4 + py) * (2 * w) + gx * 2 + px] {
        dot_hex(px, py) as int
    } else {
        0
    }
}

/// The dot bits of the glyph at column `gx`, row `gy`, over a cell buffer
/// of width `2 * w` pixels: the sum of the dot values of its lit pixels.
pub open spec fn glyph_bits(cb: Seq<bool>, w: int, gx: int, gy: int) -> int {
    dot_of(cb, w, gx, gy, 0, 0) + dot_of(cb, w, gx, gy, 1, 0) + dot_of(cb, w, gx, gy, 0, 1)
        + dot_of(cb, w, gx, gy, 1, 1) + dot_of(cb, w, gx, gy, 0, 2) + dot_of(cb, w, gx, gy, 1, 2)
        + dot_of(cb, w, gx, gy, 0, 3) + dot_of(cb, w, gx, gy, 1, 3)
}

/// Relies on char::from_u32: every value in the Braille block is a valid
/// Unicode scalar, and the character converts back to the value it was
/// made from.
#[verifier::external_body]
fn braille_char(v: u32) -> (c: char)
    requires
        0x2800 <= v <= 0x28FF,
    ensures
        c as u32 == v,
{
    match char::from_u32(v) {
        Some(c) => c,
        None => ' ',
    }
}

/// Relies on String::push: appends exactly the given character.
#[verifier::external_body]
fn push_char(s: &mut String, c: char)
    ensures
        final(s)@ == old(s)@.push(c),
{
    s.push(c);
}

/// A viewport camera: a pixel buffer, the Braille codepoints derived from
/// it, and the rendered text, plus the world offset and zoom of the view.
pub struct Camera {
    /// The cell buffer: one flag per screen pixel, row-major, `2 * w` wide
    /// and `4 * h` tall.
    pub cb: Vec<bool>,
    /// The frame buffer: the rendered text.
    pub fb: String,
    /// One codepoint per glyph, row-major.
    pub cp: Vec<u32>,
    /// Width of the framebuffer in glyphs.
    pub w: ScreenSize,
    /// Height of the framebuffer in glyphs.
    pub h: ScreenSize,
    /// Horizontal world offset of the view from the origin.
    pub x: WorldOffset,
    /// Vertical world offset of the view from the origin.
    pub y: WorldOffset,
    /// World scale: each screen pixel covers `2^scale` world cells on a
    /// side.
    pub scale: u8,
}

impl Camera {
    /// The camera invariant: buffer sizes match the glyph dimensions.
    pub open spec fn wf(&self) -> bool {
        &&& 1 <= self.w
        &&& 1 <= self.h
        &&& (self.w as int) * (self.h as int) <= 0x0100_0000
        &&& self.cb@.len() == 8 * ((self.w as int) * (self.h as int))
        &&& self.cp@.len() == (self.w as int) * (self.h as int)
        &&& self.scale <= 62
    }

    /// The pixel buffer.
    pub open spec fn pixels(&self) -> Seq<bool> {
        self.cb@
    }

    /// The viewport dimensions in glyphs.
    pub open spec fn dims(&self) -> (int, int) {
        (self.w as int, self.h as int)
    }

    /// The view state: offset and scale.
    pub open spec fn view_state(&self) -> (int, int, int) {
        (self.x as int, self.y as int, self.scale as int)
    }

    /// Create a camera `w` glyphs wide and `h` glyphs tall, all pixels
    /// clear.
    pub fn new(w: u16, h: u16) -> (r: Self)
        requires
            1 <= w,
            1 <= h,
            (w as int) * (h as int) <= 0x0100_0000,
        ensures
            r.wf(),
            r.dims() == (w as int, h as int),
            r.view_state() == (0int, 0int, 0int),
            forall|i: int| 0 <= i < r.pixels().len() ==> !r.pixels()[i],
    {
        let cells: usize = (w as usize) * (h as usize);
        let cb = fill_bools(8 * cells);
        let cp = fill_u32(cells, BRAILLE_EMPTY);
        let mut cam = Camera { cb, fb: String::new(), cp, w, h, x: 0, y: 0, scale: 0 };
        let _ = cam.render();
        cam
    }

    pub fn width(&self) -> (r: ScreenSize)
        ensures
            r as int == self.dims().0,
    {
        self.w
    }

    pub fn height(&self) -> (r: ScreenSize)
        ensures
            r as int == self.dims().1,
    {
        self.h
    }

    /// Pan one pixel left: the view offset moves by one pixel's worth of
    /// world cells, saturating at the edge of the coordinate range.
    pub fn move_left(&mut self)
        requires
            old(self).wf(),
        ensures
            final(self).wf(),
            ({
                let dx = vstd::arithmetic::power2::pow2(old(self).scale as nat) as int;
                *final(self) == (Camera {
                    x: if old(self).x + dx <= i128::MAX {
                        (old(self).x + dx) as i128
                    } else {
                        i128::MAX
                    },
                    ..*old(self)
                })
            }),
    {
        proof {
            crate::world::lemma_shift_pow2(self.scale as u64);
        }
        let dx = (1u64 << (self.scale as u64)) as i128;
        if self.x <= i128::MAX - dx {
            self.x = self.x + dx;
        } else {
            self.x = i128::MAX;
        }
    }

    /// Pan one pixel right.
    pub fn move_right(&mut self)
        requires
            old(self).wf(),
        ensures
            final(self).wf(),
            ({
                let dx = vstd::arithmetic::power2::pow2(old(self).scale as nat) as int;
                *final(self) == (Camera {
                    x: if old(self).x - dx >= i128::MIN {
                        (old(self).x - dx) as i128
                    } else {
                        i128::MIN
                    },
                    ..*old(self)
                })
            }),
    {
        proof {
            crate::world::lemma_shift_pow2(self.scale as u64);
        }
        let dx = (1u64 << (self.scale as u64)) as i128;
        if self.x >= i128::MIN + dx {
            self.x = self.x - dx;
        } else {
            self.x = i128::MIN;
        }
    }

    /// Pan one pixel up.
    pub fn move_up(&mut self)
        requires
            old(self).wf(),
        ensures
            final(self).wf(),
            ({
                let dy = vstd::arithmetic::power2::pow2(old(self).scale as nat) as int;
                *final(self) == (Camera {
                    y: if old(self).y + dy <= i128::MAX {
                        (old(self).y + dy) as i128
                    } else {
                        i128::MAX
                    },
                    ..*old(self)
                })
            }),
    {
        proof {
            crate::world::lemma_shift_pow2(self.scale as u64);
        }
        let dy = (1u64 << (self.scale as u64)) as i128;
        if self.y <= i128::MAX - dy {
            self.y = self.y + dy;
        } else {
            self.y = i128::MAX;
        }
    }

    /// Pan one pixel down.
    pub fn move_down(&mut self)
        requires
            old(self).wf(),
        ensures
            final(self).wf(),
            ({
                let dy = vstd::arithmetic::power2::pow2(old(self).scale as nat) as int;
                *final(self) == (Camera {
                    y: if old(self).y - dy >= i128::MIN {
                        (old(self).y - dy) as i128
                    } else {
                        i128::MIN
                    },
                    ..*old(self)
                })
            }),
    {
        proof {
            crate::world::lemma_shift_pow2(self.scale as u64);
        }
        let dy = (1u64 << (self.scale as u64)) as i128;
        if self.y >= i128::MIN + dy {
            self.y = self.y - dy;
        } else {
            self.y = i128::MIN;
        }
    }

    /// Zoom in one power-of-two step, stopping at cell scale.
    pub fn zoom_in(&mut self)
        requires
            old(self).wf(),
        ensures
            final(self).wf(),
            final(self).scale == if old(self).scale > 0 {
                old(self).scale - 1
            } else {
                0
            },
            *final(self) == (Camera { scale: final(self).scale, ..*old(self) }),
    {
        if self.scale > 0 {
            self.scale = self.scale - 1;
        }
    }

    /// Zoom out one power-of-two step, stopping at the widest supported
    /// scale.
    pub fn zoom_out(&mut self)
        requires
            old(self).wf(),
        ensures
            final(self).wf(),
            final(self).scale == if old(self).scale < 62 {
                old(self).scale + 1
            } else {
                62
            },
            *final(self) == (Camera { scale: final(self).scale, ..*old(self) }),
    {
        if self.scale < 62 {
            self.scale = self.scale + 1;
        }
    }

    /// Resize the viewport; all pixels are cleared.
    pub fn resize(&mut self, w: ScreenSize, h: ScreenSize)
        requires
            old(self).wf(),
            1 <= w,
            1 <= h,
            (w as int) * (h as int) <= 0x0100_0000,
        ensures
            final(self).wf(),
            final(self).dims() == (w as int, h as int),
            final(self).view_state() == old(self).view_state(),
            forall|i: int| 0 <= i < final(self).pixels().len() ==> !final(self).pixels()[i],
    {
        let cells: usize = (w as usize) * (h as usize);
        self.w = w;
        self.h = h;
        self.cb = fill_bools(8 * cells);
        self.cp = fill_u32(cells, BRAILLE_EMPTY);
    }

    /// Reset every pixel of the cell buffer.
    pub fn reset(&mut self)
        requires
            old(self).wf(),
        ensures
            final(self).wf(),
            final(self).dims() == old(self).dims(),
            final(self).view_state() == old(self).view_state(),
            forall|i: int| 0 <= i < final(self).pixels().len() ==> !final(self).pixels()[i],
    {
        let n = self.cb.len();
        self.cb = fill_bools(n);
    }

    /// Turn on the pixel at `(x, y)` of the cell buffer; coordinates
    /// outside the viewport are ignored.
    pub fn draw_pixel(&mut self, x: CellOffset, y: CellOffset)
        requires
            old(self).wf(),
        ensures
            final(self).wf(),
            final(self).dims() == old(self).dims(),
            final(self).view_state() == old(self).view_state(),
            ({
                let w = old(self).dims().0;
                let h = old(self).dims().1;
                if 0 <= x < 2 * w && 0 <= y < 4 * h {
                    final(self).pixels() == old(self).pixels().update(
                        (y as int) * (2 * w) + x as int,
                        true,
                    )
                } else {
                    final(self).pixels() == old(self).pixels()
                }
            }),
    {
        if x < 0 || y < 0 {
            return;
        }
        let xi = x as usize;
        let yi = y as usize;
        let wid = 2 * (self.w as usize);
        let hei = 4 * (self.h as usize);
        if xi >= wid || yi >= hei {
            return;
        }
        proof {
            assert((yi as int) * (wid as int) + (xi as int) < 8 * ((self.w as int) * (
            self.h as int))) by (nonlinear_arith)
                requires
                    (yi as int) < 4 * (self.h as int),
                    (xi as int) < wid as int,
                    wid as int == 2 * (self.w as int),
                    self.w >= 1,
                    self.h >= 1,
            ;
        }
        let i = yi * wid + xi;
        self.cb[i] = true;
    }

    /// Render the cell buffer: recompute every glyph's codepoint and
    /// rebuild the frame buffer text. The output is a pure function of the
    /// pixels and the dimensions: `h` lines of `w` Braille characters,
    /// each line ended by a newline.
    #[verifier::loop_isolation(false)]
    pub fn render(&mut self) -> (r: &str)
        requires
            old(self).wf(),
        ensures
            final(self).wf(),
            final(self).pixels() == old(self).pixels(),
            final(self).dims() == old(self).dims(),
            final(self).view_state() == old(self).view_state(),
            ({
                let w = old(self).dims().0;
                let h = old(self).dims().1;
                &&& r@.len() == h * (w + 1)
                &&& (forall|row: int, col: int|
                    0 <= row < h && 0 <= col < w ==> (#[trigger] r@[row * (w + 1) + col]) as u32
                        == BRAILLE_EMPTY + glyph_bits(old(self).pixels(), w, col, row))
                &&& (forall|row: int|
                    0 <= row < h ==> (#[trigger] r@[row * (w + 1) + w]) as u32 == 10)
            }),
    {
        let w = self.w as usize;
        let h = self.h as usize;
        let wid = 2 * w;
        let mut fb = String::new();
        let mut row: usize = 0;
        while row < h
            invariant
                self.wf(),
                self.cb@ == old(self).cb@,
                self.w == old(self).w,
                self.h == old(self).h,
                self.x == old(self).x,
                self.y == old(self).y,
                self.scale == old(self).scale,
                self.fb == old(self).fb,
                w == self.w as int,
                h == self.h as int,
                wid == 2 * w,
                0 <= row <= h,
                fb@.len() == row * (w + 1),
                forall|r2: int, c2: int|
                    0 <= r2 < row && 0 <= c2 < w ==> (#[trigger] fb@[r2 * (w as int + 1) + c2])
                        as u32 == BRAILLE_EMPTY + glyph_bits(self.cb@, w as int, c2, r2),
                forall|r2: int|
                    0 <= r2 < row ==> (#[trigger] fb@[r2 * (w as int + 1) + w as int]) as u32
                        == 10,
            decreases h - row,
        {
            let mut col: usize = 0;
            while col < w
                invariant
                    self.wf(),
                    self.cb@ == old(self).cb@,
                    self.w == old(self).w,
                    self.h == old(self).h,
                    self.x == old(self).x,
                    self.y == old(self).y,
                    self.scale == old(self).scale,
                    self.fb == old(self).fb,
                    w == self.w as int,
                    h == self.h as int,
                    wid == 2 * w,
                    0 <= row < h,
                    0 <= col <= w,
                    fb@.len() == row * (w + 1) + col,
                    forall|r2: int, c2: int|
                        0 <= r2 < row && 0 <= c2 < w ==> (#[trigger] fb@[r2 * (w as int + 1) + c2])
                            as u32 == BRAILLE_EMPTY + glyph_bits(self.cb@, w as int, c2, r2),
                    forall|r2: int|
                        0 <= r2 < row ==> (#[trigger] fb@[r2 * (w as int + 1) + w as int]) as u32
                            == 10,
                    forall|c2: int|
                        0 <= c2 < col ==> (#[trigger] fb@[row * (w as int + 1) + c2]) as u32
                            == BRAILLE_EMPTY + glyph_bits(self.cb@, w as int, c2, row as int),
                decreases w - col,
            {
                let bits = self.glyph_at(col, row);
                proof {
                    lemma_grid_index(row as int, col as int, w as int, h as int);
                }
                let cp_index = row * w + col;
                self.cp[cp_index] = BRAILLE_EMPTY + bits;
                let c = braille_char(BRAILLE_EMPTY + bits);
                push_char(&mut fb, c);
                proof {
                    assert forall|r2: int, c2: int|
                        0 <= r2 < row && 0 <= c2 < w implies (#[trigger] fb@[r2 * (w as int + 1)
                        + c2]) as u32 == BRAILLE_EMPTY + glyph_bits(self.cb@, w as int, c2, r2) by {
                        lemma_grid_index(r2, c2, w as int + 1, h as int);
                        vstd::arithmetic::mul::lemma_mul_inequality(r2 + 1, row as int, w as int + 1);
                        vstd::arithmetic::mul::lemma_mul_is_distributive_add_other_way(
                            w as int + 1,
                            r2,
                            1,
                        );
                    }
                    assert forall|r2: int|
                        0 <= r2 < row implies (#[trigger] fb@[r2 * (w as int + 1) + w as int])
                        as u32 == 10 by {
                        vstd::arithmetic::mul::lemma_mul_inequality(r2 + 1, row as int, w as int + 1);
                        vstd::arithmetic::mul::lemma_mul_is_distributive_add_other_way(
                            w as int + 1,
                            r2,
                            1,
                        );
                    }
                }
                col += 1;
            }
            push_char(&mut fb, '\n');
            proof {
                assert(('\n') as u32 == 10);
                lemma_grid_index(row as int, w as int, w as int + 1, h as int);
                vstd::arithmetic::mul::lemma_mul_is_distributive_add_other_way(
                    w as int + 1,
                    row as int,
                    1,
                );
                assert forall|r2: int, c2: int|
                    0 <= r2 < row + 1 && 0 <= c2 < w implies (#[trigger] fb@[r2 * (w as int + 1)
                    + c2]) as u32 == BRAILLE_EMPTY + glyph_bits(self.cb@, w as int, c2, r2) by {
                    lemma_grid_index(r2, c2, w as int + 1, h as int);
                    if r2 < row {
                        vstd::arithmetic::mul::lemma_mul_inequality(r2 + 1, row as int, w as int + 1);
                        vstd::arithmetic::mul::lemma_mul_is_distributive_add_other_way(
                            w as int + 1,
                            r2,
                            1,
                        );
                    }
                }
                assert forall|r2: int|
                    0 <= r2 < row + 1 implies (#[trigger] fb@[r2 * (w as int + 1) + w as int])
                    as u32 == 10 by {
                    if r2 < row {
                        vstd::arithmetic::mul::lemma_mul_inequality(r2 + 1, row as int, w as int + 1);
                        vstd::arithmetic::mul::lemma_mul_is_distributive_add_other_way(
                            w as int + 1,
                            r2,
                            1,
                        );
                    }
                }
            }
            row += 1;
        }
        self.fb = fb;
        self.fb.as_str()
    }

    /// The dot bits of one glyph, read from the cell buffer.
    fn glyph_at(&self, gx: usize, gy: usize) -> (r: u32)
        requires
            self.wf(),
            gx < self.dims().0,
            gy < self.dims().1,
        ensures
            r == glyph_bits(self.pixels(), self.dims().0, gx as int, gy as int),
            r <= 0xFF,
    {
        let w = self.w as usize;
        let h = self.h as usize;
        let stride = 2 * w;
        proof {
            lemma_glyph_base(gx as int, gy as int, w as int, h as int);
            assert forall|py: int| 0 <= py < 4 implies #[trigger] (((gy as int) * 4 + py) * (2
                * (w as int))) == ((gy as int) * 4) * (2 * (w as int)) + py * (2 * (w as int)) by {
                vstd::arithmetic::mul::lemma_mul_is_distributive_add_other_way(
                    2 * (w as int),
                    (gy as int) * 4,
                    py,
                );
            }
        }
        let base = (gy * 4) * stride + gx * 2;
        let mut v: u32 = 0;
        if self.cb[base] {
            v = v + 1;
        }
        if self.cb[base + 1] {
            v = v + 8;
        }
        if self.cb[base + stride] {
            v = v + 2;
        }
        if self.cb[base + stride + 1] {
            v = v + 0x10;
        }
        if self.cb[base + 2 * stride] {
            v = v + 4;
        }
        if self.cb[base + 2 * stride + 1] {
            v = v + 0x20;
        }
        if self.cb[base + 3 * stride] {
            v = v + 0x40;
        }
        if self.cb[base + 3 * stride + 1] {
            v = v + 0x80;
        }
        v
    }
}

impl Camera {
    /// Turn on a square of pixels of side `s` whose top-left corner is at
    /// `(x, y)`.
    pub fn draw_square(&mut self, x: CellOffset, y: CellOffset, s: ScreenSize)
        requires
            old(self).wf(),
        ensures
            final(self).wf(),
            final(self).dims() == old(self).dims(),
            final(self).view_state() == old(self).view_state(),
            forall|px: int, py: int|
                0 <= px < 2 * old(self).dims().0 && 0 <= py < 4 * old(self).dims().1
                    ==> #[trigger] final(self).pixels()[py * (2 * old(self).dims().0) + px] == (
                if x <= px < x + s && y <= py < y + s {
                    true
                } else {
                    old(self).pixels()[py * (2 * old(self).dims().0) + px]
                }),
    {
        self.rect_set(x, y, s, true)
    }

    /// Clear a square of pixels of side `s` whose top-left corner is at
    /// `(x, y)`. Void subtrees clear rather than draw, so panning works.
    pub fn draw_clear_square(&mut self, x: CellOffset, y: CellOffset, s: ScreenSize)
        requires
            old(self).wf(),
        ensures
            final(self).wf(),
            final(self).dims() == old(self).dims(),
            final(self).view_state() == old(self).view_state(),
            forall|px: int, py: int|
                0 <= px < 2 * old(self).dims().0 && 0 <= py < 4 * old(self).dims().1
                    ==> #[trigger] final(self).pixels()[py * (2 * old(self).dims().0) + px] == (
                if x <= px < x + s && y <= py < y + s {
                    false
                } else {
                    old(self).pixels()[py * (2 * old(self).dims().0) + px]
                }),
    {
        self.rect_set(x, y, s, false)
    }

    /// Set the square of pixels of side `s` at `(x, y)` to `v`, clipped to
    /// the viewport.
    #[verifier::loop_isolation(false)]
    #[verifier::rlimit(60)]
    fn rect_set(&mut self, x: CellOffset, y: CellOffset, s: ScreenSize, v: bool)
        requires
            old(self).wf(),
        ensures
            final(self).wf(),
            final(self).dims() == old(self).dims(),
            final(self).view_state() == old(self).view_state(),
            forall|px: int, py: int|
                0 <= px < 2 * old(self).dims().0 && 0 <= py < 4 * old(self).dims().1
                    ==> #[trigger] final(self).pixels()[py * (2 * old(self).dims().0) + px] == (
                if x <= px < x + s && y <= py < y + s {
                    v
                } else {
                    old(self).pixels()[py * (2 * old(self).dims().0) + px]
                }),
    {
        let w32 = 2 * (self.w as i32);
        let h32 = 4 * (self.h as i32);
        let x32 = x as i32;
        let y32 = y as i32;
        let s32 = s as i32;
        let x_lo: i32 = if x32 < 0 {
            0
        } else {
            x32
        };
        let x_hi: i32 = if x32 + s32 < w32 {
            x32 + s32
        } else {
            w32
        };
        let y_lo: i32 = if y32 < 0 {
            0
        } else {
            y32
        };
        let y_hi: i32 = if y32 + s32 < h32 {
            y32 + s32
        } else {
            h32
        };
        let wid = w32 as usize;
        let mut py = y_lo;
        while py < y_hi
            invariant
                y_lo <= py <= y_hi || py == y_lo,
                self.wf(),
                self.w == old(self).w,
                self.h == old(self).h,
                self.x == old(self).x,
                self.y == old(self).y,
                self.scale == old(self).scale,
                forall|px2: int, py2: int|
                    0 <= px2 < 2 * old(self).dims().0 && 0 <= py2 < 4 * old(self).dims().1
                        ==> #[trigger] self.pixels()[py2 * (2 * old(self).dims().0) + px2] == (
                    if x <= px2 < x + s && y <= py2 < y + s && py2 < py {
                        v
                    } else {
                        old(self).pixels()[py2 * (2 * old(self).dims().0) + px2]
                    }),
            decreases y_hi - py,
        {
            let mut px = x_lo;
            while px < x_hi
                invariant
                    x_lo <= px <= x_hi || px == x_lo,
                    y_lo <= py < y_hi,
                    self.wf(),
                    self.w == old(self).w,
                    self.h == old(self).h,
                    self.x == old(self).x,
                    self.y == old(self).y,
                    self.scale == old(self).scale,
                    forall|px2: int, py2: int|
                        0 <= px2 < 2 * old(self).dims().0 && 0 <= py2 < 4 * old(self).dims().1
                            ==> #[trigger] self.pixels()[py2 * (2 * old(self).dims().0) + px2] == (
                        if x <= px2 < x + s && y <= py2 < y + s && (py2 < py || (py2 == py && px2
                            < px)) {
                            v
                        } else {
                            old(self).pixels()[py2 * (2 * old(self).dims().0) + px2]
                        }),
                decreases x_hi - px,
            {
                proof {
                    assert((py as int) * (2 * (self.w as int)) + px < 8 * ((self.w as int) * (
                    self.h as int)) && (py as int) * (2 * (self.w as int)) >= 0)
                        by (nonlinear_arith)
                        requires
                            0 <= py < 4 * (self.h as int),
                            0 <= px < 2 * (self.w as int),
                            self.w >= 1,
                            self.h >= 1,
                    ;
                }
                let ghost cb0 = self.pixels();
                proof {
                    assert forall|px2: int, py2: int|
                        0 <= px2 < 2 * old(self).dims().0 && 0 <= py2 < 4 * old(self).dims().1
                            implies #[trigger] cb0[py2 * (2 * old(self).dims().0) + px2] == (if x <= px2 < x
                        + s && y <= py2 < y + s && (py2 < py || (py2 == py && px2 < px)) {
                        v
                    } else {
                        old(self).pixels()[py2 * (2 * old(self).dims().0) + px2]
                    }) by {}
                }
                let i = (py as usize) * wid + (px as usize);
                self.cb[i] = v;
                proof {
                    assert(self.cb@ == cb0.update(i as int, v));
                    assert(x <= px < x + s && y <= py < y + s);
                    assert forall|px2: int, py2: int|
                        0 <= px2 < 2 * old(self).dims().0 && 0 <= py2 < 4 * old(self).dims().1
                            implies #[trigger] self.pixels()[py2 * (2 * old(self).dims().0) + px2]
                        == (if x <= px2 < x + s && y <= py2 < y + s && (py2 < py || (py2 == py
                        && px2 < px + 1)) {
                        v
                    } else {
                        old(self).pixels()[py2 * (2 * old(self).dims().0) + px2]
                    }) by {
                        let dw = old(self).dims().0;
                        let dh = old(self).dims().1;
                        assert(0 <= py2 * (2 * dw) + px2 < 8 * (dw * dh)) by (nonlinear_arith)
                            requires
                                0 <= px2 < 2 * dw,
                                0 <= py2 < 4 * dh,
                                dw >= 1,
                                dh >= 1,
                        ;
                        lemma_pixel_index_inj(
                            px2,
                            py2,
                            px as int,
                            py as int,
                            2 * dw,
                        );
                        let idx2 = py2 * (2 * dw) + px2;
                        assert(cb0[idx2] == (if x <= px2 < x + s && y <= py2 < y + s && (py2 < py
                            || (py2 == py && px2 < px)) {
                            v
                        } else {
                            old(self).pixels()[idx2]
                        }));
                    }
                }
                px += 1;
            }
            py += 1;
        }
    }

    /// Turn on the pixels the original outline pattern touches: the first
    /// `w` columns of the top and bottom pixel rows used per glyph row, and
    /// the first rows of the left and right glyph columns.
    #[verifier::loop_isolation(false)]
    pub fn draw_outline(&mut self)
        requires
            old(self).wf(),
        ensures
            final(self).wf(),
            final(self).dims() == old(self).dims(),
            final(self).view_state() == old(self).view_state(),
            forall|i: int|
                0 <= i < old(self).pixels().len() && old(self).pixels()[i]
                    ==> final(self).pixels()[i],
    {
        let w = self.w as usize;
        let h = self.h as usize;
        let wid = 2 * w;
        let mut gx: usize = 0;
        while gx < w
            invariant
                self.wf(),
                self.w == old(self).w,
                self.h == old(self).h,
                self.x == old(self).x,
                self.y == old(self).y,
                self.scale == old(self).scale,
                w == self.w as int,
                h == self.h as int,
                wid == 2 * w,
                forall|i: int|
                    0 <= i < old(self).pixels().len() && old(self).pixels()[i]
                        ==> self.pixels()[i],
            decreases w - gx,
        {
            proof {
                assert((h - 1) * (2 * (w as int)) + gx < 8 * ((w as int) * (h as int)))
                    by (nonlinear_arith)
                    requires
                        0 <= gx < (w as int),
                        1 <= (w as int),
                        1 <= (h as int),
                ;
            }
            self.cb[gx] = true;
            let j = (h - 1) * wid + gx;
            self.cb[j] = true;
            proof {
                assert forall|i: int|
                    0 <= i < old(self).pixels().len() && old(self).pixels()[i] implies
                    self.pixels()[i] by {}
            }
            gx += 1;
        }
        let mut gy: usize = 0;
        while gy < h
            invariant
                self.wf(),
                self.w == old(self).w,
                self.h == old(self).h,
                self.x == old(self).x,
                self.y == old(self).y,
                self.scale == old(self).scale,
                w == self.w as int,
                h == self.h as int,
                wid == 2 * w,
                forall|i: int|
                    0 <= i < old(self).pixels().len() && old(self).pixels()[i]
                        ==> self.pixels()[i],
            decreases h - gy,
        {
            proof {
                assert(gy * (2 * (w as int)) + (w - 1) < 8 * ((w as int) * (h as int)) && 0 <= gy
                    * (2 * (w as int))) by (nonlinear_arith)
                    requires
                        0 <= gy < (h as int),
                        1 <= (w as int),
                        1 <= (h as int),
                ;
            }
            let i = gy * wid;
            self.cb[i] = true;
            let j = gy * wid + (w - 1);
            self.cb[j] = true;
            proof {
                assert forall|i2: int|
                    0 <= i2 < old(self).pixels().len() && old(self).pixels()[i2] implies
                    self.pixels()[i2] by {}
            }
            gy += 1;
        }
    }

    /// Draw the world into the cell buffer: walk the tree from the root,
    /// painting live regions and clearing void ones, at the camera's offset
    /// and scale.
    pub fn draw(&mut self, world: &World)
        requires
            old(self).wf(),
            world.wf(),
        ensures
            final(self).wf(),
            final(self).dims() == old(self).dims(),
            final(self).view_state() == old(self).view_state(),
    {
        let root = world.root;
        let cell = world.buf.get(root);
        let n = world.depth;
        let scale = self.scale;
        let dx = shift_down(self.x, scale);
        let dy = shift_down(self.y, scale);
        draw_cell(self, &world.buf, cell, dx, dy, n, scale, Ghost(n as nat));
    }
}

/// The offset divided by the pixel scale, clamped to the pixel offset
/// range.
fn shift_down(v: WorldOffset, scale: u8) -> (r: CellOffset)
    requires
        scale <= 62,
{
    if v == i128::MIN {
        return -32768;
    }
    proof {
        crate::world::lemma_shift_pow2(scale as u64);
    }
    let pow = (1u64 << (scale as u64)) as i128;
    let d = v / pow;
    if d > 32767 {
        32767
    } else if d < -32768 {
        -32768
    } else {
        d as i16
    }
}

/// Draws a 4x4 rule value at pixel offset `(dx, dy)`, one pixel per cell,
/// per 2x2 block, or as one pixel, depending on the scale.
fn draw_rule(cam: &mut Camera, rule: u16, dx: CellOffset, dy: CellOffset, scale: u8)
    requires
        old(cam).wf(),
    ensures
        final(cam).wf(),
        final(cam).dims() == old(cam).dims(),
        final(cam).view_state() == old(cam).view_state(),
{
    if scale == 0 {
        let mut i: u16 = 0;
        while i < 16
            invariant
                cam.wf(),
                cam.dims() == old(cam).dims(),
                cam.view_state() == old(cam).view_state(),
            decreases 16 - i,
        {
            if (rule >> (15 - i)) & 1 == 1 {
                let px = (i % 4) as i16;
                let py = (i / 4) as i16;
                if dx <= i16::MAX - 3 && dy <= i16::MAX - 3 {
                    cam.draw_pixel(dx + px, dy + py);
                }
            }
            i += 1;
        }
    } else if scale == 1 {
        if dx <= i16::MAX - 1 && dy <= i16::MAX - 1 {
            if rule & 0b1100_1100_0000_0000 != 0 {
                cam.draw_pixel(dx, dy);
            }
            if rule & 0b0011_0011_0000_0000 != 0 {
                cam.draw_pixel(dx + 1, dy);
            }
            if rule & 0b0000_0000_1100_1100 != 0 {
                cam.draw_pixel(dx, dy + 1);
            }
            if rule & 0b0000_0000_0011_0011 != 0 {
                cam.draw_pixel(dx + 1, dy + 1);
            }
        }
    } else if scale == 2 {
        if rule != 0 {
            cam.draw_pixel(dx, dy);
        }
    }
}

/// Draws a leaf at pixel offset `(dx, dy)`.
fn draw_leaf(cam: &mut Camera, cell: Cell, dx: CellOffset, dy: CellOffset, scale: u8)
    requires
        old(cam).wf(),
        cell == crate::cell::void_cell() || cell.wf_leaf(),
    ensures
        final(cam).wf(),
        final(cam).dims() == old(cam).dims(),
        final(cam).view_state() == old(cam).view_state(),
{
    let (qnw, qne, qsw, qse) = cell.quadrants();
    if scale == 0 || scale == 1 || scale == 2 {
        let step: i16 = if scale == 0 {
            4
        } else if scale == 1 {
            2
        } else {
            1
        };
        if dx <= i16::MAX - step && dy <= i16::MAX - step {
            draw_rule(cam, qnw, dx, dy, scale);
            draw_rule(cam, qne, dx + step, dy, scale);
            draw_rule(cam, qsw, dx, dy + step, scale);
            draw_rule(cam, qse, dx + step, dy + step, scale);
        }
    } else if scale == 3 {
        if !(qnw == 0 && qne == 0 && qsw == 0 && qse == 0) {
            cam.draw_pixel(dx, dy);
        }
    }
}

/// Draw a level-`n` cell: void subtrees clear their square, leaves and
/// single pixels draw, and interior cells recurse into their children.
fn draw_cell(
    cam: &mut Camera,
    buf: &CellBuf,
    cell: Cell,
    dx: CellOffset,
    dy: CellOffset,
    n: u8,
    scale: u8,
    Ghost(level): Ghost<nat>,
)
    requires
        old(cam).wf(),
        buf.inv(),
        3 <= n <= 62,
        n as nat == level,
        wf_at(buf@, cell, level),
    ensures
        final(cam).wf(),
        final(cam).dims() == old(cam).dims(),
        final(cam).view_state() == old(cam).view_state(),
    decreases level,
{
    if scale > n {
        return;
    }
    let side: u16 = if n - scale >= 16 {
        u16::MAX
    } else {
        1u16 << ((n - scale) as u16)
    };
    if cell.is_void() {
        cam.draw_clear_square(dx, dy, side);
        return;
    }
    if side == 1 {
        cam.draw_pixel(dx, dy);
        return;
    }
    if n == 3 {
        draw_leaf(cam, cell, dx, dy, scale);
        return;
    }
    let half = side / 2;
    let step: i16 = if half > 32767 {
        32767
    } else {
        half as i16
    };
    let nw = buf.get(cell.nw);
    let ne = buf.get(cell.ne);
    let sw = buf.get(cell.sw);
    let se = buf.get(cell.se);
    if dx <= i16::MAX - step && dy <= i16::MAX - step {
        draw_cell(cam, buf, ne, dx, dy, n - 1, scale, Ghost((level - 1) as nat));
        draw_cell(cam, buf, nw, dx + step, dy, n - 1, scale, Ghost((level - 1) as nat));
        draw_cell(cam, buf, se, dx, dy + step, n - 1, scale, Ghost((level - 1) as nat));
        draw_cell(cam, buf, sw, dx + step, dy + step, n - 1, scale, Ghost((level - 1) as nat));
    }
}

/// Renderer purity: two rendered texts produced from the same pixels and
/// the same dimensions are identical, character for character. The
/// hypotheses are exactly what `render` ensures of its result.
pub proof fn lemma_render_pure(r1: Seq<char>, r2: Seq<char>, cb: Seq<bool>, w: int, h: int)
    requires
        w >= 1,
        h >= 1,
        r1.len() == h * (w + 1),
        r2.len() == h * (w + 1),
        forall|row: int, col: int|
            0 <= row < h && 0 <= col < w ==> (#[trigger] r1[row * (w + 1) + col]) as u32
                == BRAILLE_EMPTY + glyph_bits(cb, w, col, row),
        forall|row: int, col: int|
            0 <= row < h && 0 <= col < w ==> (#[trigger] r2[row * (w + 1) + col]) as u32
                == BRAILLE_EMPTY + glyph_bits(cb, w, col, row),
        forall|row: int| 0 <= row < h ==> (#[trigger] r1[row * (w + 1) + w]) as u32 == 10,
        forall|row: int| 0 <= row < h ==> (#[trigger] r2[row * (w + 1) + w]) as u32 == 10,
    ensures
        r1 =~= r2,
{
    assert forall|i: int| 0 <= i < r1.len() implies r1[i] == r2[i] by {
        let row = i / (w + 1);
        let col = i % (w + 1);
        vstd::arithmetic::div_mod::lemma_fundamental_div_mod(i, w + 1);
        vstd::arithmetic::div_mod::lemma_mod_bound(i, w + 1);
        assert(0 <= row < h) by (nonlinear_arith)
            requires
                i == (w + 1) * row + col,
                0 <= col < w + 1,
                0 <= i < h * (w + 1),
                w >= 1,
        ;
        assert(i == row * (w + 1) + col) by (nonlinear_arith)
            requires
                i == (w + 1) * row + col,
        ;
        if col < w {
            assert((r1[i] as u32) == (r2[i] as u32));
        } else {
            assert((r1[i] as u32) == 10 && (r2[i] as u32) == 10);
        }
        assert(r1[i] == r2[i]) by {
            crate::camera::lemma_char_code_inj(r1[i], r2[i]);
        }
    }
}

/// Characters with equal scalar values are equal.
proof fn lemma_char_code_inj(c1: char, c2: char)
    requires
        c1 as u32 == c2 as u32,
    ensures
        c1 == c2,
{
}

/// Distinct pixel coordinates have distinct flat indices.
proof fn lemma_pixel_index_inj(px2: int, py2: int, px: int, py: int, wid: int)
    requires
        0 <= px2 < wid,
        0 <= px < wid,
    ensures
        py2 * wid + px2 == py * wid + px ==> (px2 == px && py2 == py),
{
    if py2 * wid + px2 == py * wid + px {
        assert((py2 - py) * wid == px - px2) by (nonlinear_arith)
            requires
                py2 * wid + px2 == py * wid + px,
        ;
        if py2 != py {
            assert((py2 - py) * wid >= wid || (py2 - py) * wid <= -wid) by (nonlinear_arith)
                requires
                    py2 != py,
                    wid > 0,
            ;
        }
    }
}

/// The flat index of a glyph lies within a `width`-column grid of `h`
/// rows.
proof fn lemma_grid_index(row: int, col: int, width: int, h: int)
    requires
        0 <= row < h,
        0 <= col < width,
        width >= 1,
    ensures
        0 <= row * width + col < h * width,
        row * width + col < (row + 1) * width,

{
    vstd::arithmetic::mul::lemma_mul_inequality(row + 1, h, width);
    vstd::arithmetic::mul::lemma_mul_is_distributive_add_other_way(width, row, 1);
}

/// The pixel indices of a glyph's block lie within the cell buffer.
proof fn lemma_glyph_base(gx: int, gy: int, w: int, h: int)
    requires
        0 <= gx < w,
        0 <= gy < h,
        1 <= w,
    ensures
        0 <= (gy * 4) * (2 * w) + gx * 2,
        (gy * 4) * (2 * w) + gx * 2 + 3 * (2 * w) + 1 < 8 * (w * h),
        8 * w * h == 8 * (w * h),
        gy * 4 < 4 * h,
        h <= w * h,
{
    let stride = 2 * w;
    assert((gy * 4) * stride + 3 * stride + stride <= (4 * h) * stride) by (nonlinear_arith)
        requires
            0 <= gy,
            gy < h,
            stride >= 2,
    ;
    assert(gx * 2 + 1 < stride) by (nonlinear_arith)
        requires
            0 <= gx,
            gx < w,
            stride == 2 * w,
    ;
    assert((4 * h) * (2 * w) == 8 * (w * h)) by (nonlinear_arith);
    assert(8 * w * h == 8 * (w * h)) by (nonlinear_arith);
    assert((gy * 4) * (2 * w) >= 0) by (nonlinear_arith)
        requires
            gy >= 0,
            w >= 1,
    ;
    assert(h <= w * h) by (nonlinear_arith)
        requires
            w >= 1,
            h >= 0,
    ;
}

/// Fill a fresh vector with `n` cleared flags.
fn fill_bools(n: usize) -> (r: Vec<bool>)
    ensures
        r@.len() == n,
        forall|i: int| 0 <= i < n ==> !r@[i],
{
    let mut v: Vec<bool> = Vec::new();
    let mut i: usize = 0;
    while i < n
        invariant
            0 <= i <= n,
            v@.len() == i,
            forall|j: int| 0 <= j < i ==> !v@[j],
        decreases n - i,
    {
        v.push(false);
        i += 1;
    }
    v
}

/// Fill a fresh vector with `n` copies of `value`.
fn fill_u32(n: usize, value: u32) -> (r: Vec<u32>)
    ensures
        r@.len() == n,
        forall|i: int| 0 <= i < n ==> r@[i] == value,
{
    let mut v: Vec<u32> = Vec::new();
    let mut i: usize = 0;
    while i < n
        invariant
            0 <= i <= n,
            v@.len() == i,
            forall|j: int| 0 <= j < i ==> v@[j] == value,
        decreases n - i,
    {
        v.push(value);
        i += 1;
    }
    v
}

} // verus!
