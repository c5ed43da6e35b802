//! Graphics console: a text writer over a linear 32-bit pixel framebuffer.
//!
//! The writer owns the pixel buffer as plain memory; the driver around the
//! kernel copies it to the device. Glyphs come from a bitmap font of 256
//! characters, 8 pixels wide and 16 rows tall, one byte per row with the
//! leftmost pixel in the most significant bit.

use vstd::prelude::*;

verus! {

/// Width in pixels of a font glyph.
pub const FONT_WIDTH: usize = 8;

/// Height in pixels of a font glyph.
pub const FONT_HEIGHT: usize = 16;

/// Bytes of a complete 256-glyph font.
pub const FONT_SIZE: usize = 256 * 16;

/// Default text foreground color.
pub const DEFAULT_TEXT_FG: u32 = 0xAAAAAA;

/// Default text background color.
pub const DEFAULT_TEXT_BG: u32 = 0;

/// Useful information on the framebuffer often needed to properly plot
/// pixels.
#[derive(Clone, Copy, Debug, PartialEq, Eq, Structural)]
pub struct FramebufferInfo {
    /// Width of the framebuffer in pixels.
    pub width: usize,
    /// Height of the framebuffer in pixels.
    pub height: usize,
    /// The number of bytes to skip to go down a pixel.
    pub pitch: usize,
    /// The number of bits per pixel.
    pub bpp: usize,
}

impl FramebufferInfo {
    pub fn new(width: u64, height: u64, pitch: u64, bpp: u16) -> (r: Self)
        requires
            width <= usize::MAX,
            height <= usize::MAX,
            pitch <= usize::MAX,
        ensures
            r.width == width,
            r.height == height,
            r.pitch == pitch,
            r.bpp == bpp,
    {
        FramebufferInfo {
            width: width as usize,
            height: height as usize,
            pitch: pitch as usize,
            bpp: bpp as usize,
        }
    }

    /// Pixels per framebuffer row.
    pub open spec fn stride(self) -> int {
        self.pitch as int / 4
    }
}

/// A foreground and background color pair.
#[derive(Clone, Copy, Debug, PartialEq, Eq, Structural)]
pub struct ColorCode(pub u32, pub u32);

impl ColorCode {
    /// Get the foreground color of the color code.
    pub fn fg(self) -> (r: u32)
        ensures
            r == self.0,
    {
        self.0
    }

    /// Get the background color of the color code.
    pub fn bg(self) -> (r: u32)
        ensures
            r == self.1,
    {
        self.1
    }
}

impl Default for ColorCode {
    /// The default text colors.
    fn default() -> (r: Self)
        ensures
            r == (ColorCode(DEFAULT_TEXT_FG, DEFAULT_TEXT_BG)),
    {
        ColorCode(DEFAULT_TEXT_FG, DEFAULT_TEXT_BG)
    }
}

/// Index in the pixel buffer of the glyph-box pixel `(gx, gy)` for a glyph
/// drawn with its top-left corner at `(x, y)`.
pub open spec fn glyph_loc(info: FramebufferInfo, x: int, y: int, gx: int, gy: int) -> int {
    x + gx + info.stride() * (y + gy)
}

/// Whether row `gy` of `glyph` has the pixel at column `gx` set; the
/// leftmost pixel sits in the most significant bit.
pub open spec fn glyph_bit(glyph: Seq<u8>, gx: int, gy: int) -> bool {
    (glyph[gy] >> ((7 - gx) as u8)) & 1u8 == 1u8
}

/// A text writer over a 32-bit pixel buffer.
pub struct Writer {
    /// The 32-bit pixels of the framebuffer, row by row.
    pub fb: Vec<u32>,
    /// Shape of the framebuffer.
    pub info: FramebufferInfo,
    /// The bitmap font: 256 glyphs of 16 rows, one byte per row.
    pub font: Vec<u8>,
    /// The current foreground and background colors for text.
    pub text_color: ColorCode,
    /// Cursor column, in glyphs.
    pub col: usize,
    /// Cursor row, in glyphs.
    pub row: usize,
}

impl Writer {
    /// The pixel buffer matches the framebuffer's shape, the font is
    /// complete, and the cursor stays inside the glyph grid.
    pub open spec fn wf(self) -> bool {
        &&& self.fb@.len() == self.info.stride() * self.info.height
        &&& self.info.width <= self.info.stride()
        &&& self.info.width + 8 <= usize::MAX
        &&& self.info.height + 16 <= usize::MAX
        &&& self.font@.len() == FONT_SIZE
        &&& self.col <= self.info.width as int / 8
        &&& self.row <= self.info.height as int / 16
    }

    /// The pixel at column `x`, row `y`.
    pub open spec fn pixel(self, x: int, y: int) -> u32 {
        self.fb@[x + self.info.stride() * y]
    }

    /// Everything but the pixel contents: shape, font, colors and cursor.
    pub open spec fn same_frame(pre: Self, post: Self) -> bool {
        &&& post.info == pre.info
        &&& post.font@ == pre.font@
        &&& post.text_color == pre.text_color
        &&& post.col == pre.col
        &&& post.row == pre.row
        &&& post.fb@.len() == pre.fb@.len()
    }

    pub fn new(fb: Vec<u32>, info: FramebufferInfo, font: Vec<u8>) -> (r: Self)
        requires
            fb@.len() == info.stride() * info.height,
            info.width <= info.stride(),
            info.width + 8 <= usize::MAX,
            info.height + 16 <= usize::MAX,
            font@.len() == FONT_SIZE,
        ensures
            r.wf(),
            r.fb@ == fb@,
            r.info == info,
            r.font@ == font@,
            r.text_color == (ColorCode(DEFAULT_TEXT_FG, DEFAULT_TEXT_BG)),
            r.col == 0,
            r.row == 0,
    {
        Writer { fb, info, font, text_color: ColorCode(DEFAULT_TEXT_FG, DEFAULT_TEXT_BG), col: 0, row: 0 }
    }

    /// Plot a pixel at the given `x` and `y` coordinates with the given
    /// `color`. Coordinates outside the framebuffer are ignored.
    pub fn plot_pixel(&mut self, x: usize, y: usize, color: u32)
        requires
            old(self).wf(),
        ensures
            final (self).wf(),
            Self::same_frame(*old(self), *final (self)),
            x < old(self).info.width && y < old(self).info.height ==> final (self).fb@ == old(
                self,
            ).fb@.update(x + old(self).info.stride() * y, color),
            !(x < old(self).info.width && y < old(self).info.height) ==> final (self).fb@ == old(
                self,
            ).fb@,
    {
        if x >= self.info.width || y >= self.info.height {
            return ;
        }
        // We assume that the framebuffer uses an RGB format with 32-bit
        // pixels.
        let fblen = self.fb.len();
        proof {
            let stride = self.info.stride();
            assert(x + stride * y < stride * self.info.height && stride * y >= 0)
                by (nonlinear_arith)
                requires
                    0 <= x < self.info.width <= stride,
                    0 <= y < self.info.height,
            ;
            assert(x + stride * y < fblen);
        }
        let loc = x + (self.info.pitch / 4) * y;
        let slot = vstd::std_specs::vec::vec_index_mut(&mut self.fb, loc);
        *slot = color;
    }

    /// Plot a character's glyph with its top-left corner at the given
    /// pixel coordinates, in the current text colors. Non-ASCII characters
    /// are drawn as a question mark. Pixels falling outside the framebuffer
    /// are clipped.
    pub fn plot_char(&mut self, x: usize, y: usize, ch: char)
        requires
            old(self).wf(),
            x + 8 <= usize::MAX,
            y + 16 <= usize::MAX,
        ensures
            final (self).wf(),
            Self::same_frame(*old(self), *final (self)),
            glyph_drawn(*old(self), *final (self), x as int, y as int, ch),
    {
        let code: usize = if (ch as u32) < 128 {
            ch as usize
        } else {
            '?' as usize
        };
        proof {
            assert(code < 256);
        }
        let mut gy: usize = 0;
        while gy < FONT_HEIGHT
            invariant
                old(self).wf(),
                self.wf(),
                0 <= gy <= 16,
                code < 256,
                x + 8 <= usize::MAX,
                y + 16 <= usize::MAX,
                Self::same_frame(*old(self), *self),
                glyph_of(old(self).font@, ch) == self.font@.subrange(
                    code * 16,
                    code * 16 + 16,
                ),
                forall|px: int|
                    0 <= px < self.fb@.len() && (forall|gxp: int, gyp: int|
                        0 <= gxp < 8 && 0 <= gyp < gy && x + gxp < self.info.width && y + gyp
                            < self.info.height ==> px != #[trigger] glyph_loc(
                            self.info,
                            x as int,
                            y as int,
                            gxp,
                            gyp,
                        )) ==> self.fb@[px] == old(self).fb@[px],
                forall|gxp: int, gyp: int|
                    0 <= gxp < 8 && 0 <= gyp < gy && x + gxp < self.info.width && y + gyp
                        < self.info.height ==> self.pixel(x + gxp, y + gyp) == (if glyph_bit(
                        glyph_of(old(self).font@, ch),
                        gxp,
                        gyp,
                    ) {
                        self.text_color.0
                    } else {
                        self.text_color.1
                    }),
            decreases 16 - gy,
        {
            let rowbits: u8 = self.font[code * 16 + gy];
            proof {
                assert(rowbits == glyph_of(old(self).font@, ch)[gy as int]);
            }
            let mut gx: usize = 0;
            while gx < FONT_WIDTH
                invariant
                    old(self).wf(),
                    self.wf(),
                    0 <= gx <= 8,
                    gy < 16,
                    code < 256,
                    x + 8 <= usize::MAX,
                    y + 16 <= usize::MAX,
                    Self::same_frame(*old(self), *self),
                    glyph_of(old(self).font@, ch) == self.font@.subrange(
                        code * 16,
                        code * 16 + 16,
                    ),
                    rowbits == glyph_of(old(self).font@, ch)[gy as int],
                    forall|px: int|
                        0 <= px < self.fb@.len() && (forall|gxp: int, gyp: int|
                            0 <= gxp < 8 && 0 <= gyp < 16 && (gyp < gy || (gyp == gy && gxp < gx))
                                && x + gxp < self.info.width && y + gyp < self.info.height ==> px
                                != #[trigger] glyph_loc(
                                self.info,
                                x as int,
                                y as int,
                                gxp,
                                gyp,
                            )) ==> self.fb@[px] == old(self).fb@[px],
                    forall|gxp: int, gyp: int|
                        0 <= gxp < 8 && 0 <= gyp < 16 && (gyp < gy || (gyp == gy && gxp < gx)) && x
                            + gxp < self.info.width && y + gyp < self.info.height ==> self.pixel(
                            x + gxp,
                            y + gyp,
                        ) == (if glyph_bit(glyph_of(old(self).font@, ch), gxp, gyp) {
                            self.text_color.0
                        } else {
                            self.text_color.1
                        }),
                decreases 8 - gx,
            {
                let ghost prev = *self;
                let color: u32 = if (rowbits >> ((7 - gx) as u8)) & 1u8 == 1u8 {
                    self.text_color.fg()
                } else {
                    self.text_color.bg()
                };
                self.plot_pixel(x + gx, y + gy, color);
                proof {
                    lemma_plot_step(prev, *self, *old(self), x as int, y as int, gx as int, gy as int, color);
                }
                gx += 1;
            }
            gy += 1;
        }
    }

    /// Move the cursor to the start of the next glyph row; at the bottom of
    /// the screen further output is dropped rather than scrolled.
    pub fn newline(&mut self)
        requires
            old(self).wf(),
        ensures
            final (self).wf(),
            final (self).fb@ == old(self).fb@,
            final (self).info == old(self).info,
            final (self).font@ == old(self).font@,
            final (self).text_color == old(self).text_color,
            final (self).col == 0,
            final (self).row == (if old(self).row < old(self).info.height as int / 16 {
                old(self).row + 1
            } else {
                old(self).row as int
            }),
    {
        self.col = 0;
        if self.row < self.info.height / FONT_HEIGHT {
            self.row = self.row + 1;
        }
    }

    /// Write a character: line feed moves to the next line, carriage
    /// return to the start of the line, a tab to the next tab stop of four
    /// columns; anything else is drawn at the cursor, which then advances,
    /// wrapping at the end of the line.
    pub fn put_char(&mut self, ch: char)
        requires
            old(self).wf(),
        ensures
            final (self).wf(),
            final (self).info == old(self).info,
            final (self).font@ == old(self).font@,
            final (self).text_color == old(self).text_color,
            final (self).fb@.len() == old(self).fb@.len(),
            ch == '\n' ==> final (self).col == 0 && final (self).row == (if old(self).row < old(
                self,
            ).info.height as int / 16 {
                old(self).row + 1
            } else {
                old(self).row as int
            }) && final (self).fb@ == old(self).fb@,
            ch == '\r' ==> final (self).col == 0 && final (self).row == old(self).row
                && final (self).fb@ == old(self).fb@,
            ch == '\t' ==> {
                let cols = old(self).info.width as int / 8;
                let next = old(self).col + 4 - (old(self).col as int % 4);
                &&& final (self).col == (if next <= cols {
                    next
                } else {
                    cols
                })
                &&& final (self).row == old(self).row
                &&& final (self).fb@ == old(self).fb@
            },
            ch != '\n' && ch != '\r' && ch != '\t' ==> {
                let cols = old(self).info.width as int / 8;
                let c0 = if old(self).col >= cols {
                    0int
                } else {
                    old(self).col as int
                };
                let r0 = if old(self).col >= cols {
                    if old(self).row < old(self).info.height as int / 16 {
                        old(self).row + 1
                    } else {
                        old(self).row as int
                    }
                } else {
                    old(self).row as int
                };
                &&& final (self).row == r0
                &&& final (self).col == (if c0 < cols {
                    c0 + 1
                } else {
                    c0
                })
                &&& glyph_drawn(*old(self), *final (self), c0 * 8, r0 * 16, ch)
            },
    {
        if ch == '\n' {
            self.newline();
        } else if ch == '\r' {
            self.col = 0;
        } else if ch == '\t' {
            let cols = self.info.width / FONT_WIDTH;
            let skip = 4 - self.col % 4;
            if self.col + skip <= cols {
                self.col = self.col + skip;
            } else {
                self.col = cols;
            }
        } else {
            if self.col >= self.info.width / FONT_WIDTH {
                self.newline();
            }
            proof {
                let w = self.info.width as int;
                assert(self.col * 8 <= w) by (nonlinear_arith)
                    requires
                        0 <= self.col <= w / 8,
                ;
                let h = self.info.height as int;
                assert(self.row * 16 <= h) by (nonlinear_arith)
                    requires
                        0 <= self.row <= h / 16,
                ;
            }
            let x = self.col * FONT_WIDTH;
            let y = self.row * FONT_HEIGHT;
            self.plot_char(x, y, ch);
            if self.col < self.info.width / FONT_WIDTH {
                self.col = self.col + 1;
            }
        }
    }

    /// Write a string, character by character; the cursor ends where the
    /// fold of the single-character rule leaves it.
    pub fn put_string(&mut self, s: &str)
        requires
            old(self).wf(),
        ensures
            final (self).wf(),
            final (self).info == old(self).info,
            final (self).font@ == old(self).font@,
            final (self).text_color == old(self).text_color,
            final (self).fb@.len() == old(self).fb@.len(),
            (final (self).col as int, final (self).row as int) == cursor_after_seq(
                old(self).info,
                old(self).col as int,
                old(self).row as int,
                s@,
            ),
    {
        let n = s.unicode_len();
        let mut i: usize = 0;
        proof {
            assert(s@.skip(0) =~= s@);
        }
        while i < n
            invariant
                self.wf(),
                n == s@.len(),
                0 <= i <= n,
                self.info == old(self).info,
                self.font@ == old(self).font@,
                self.text_color == old(self).text_color,
                self.fb@.len() == old(self).fb@.len(),
                cursor_after_seq(
                    old(self).info,
                    self.col as int,
                    self.row as int,
                    s@.skip(i as int),
                ) == cursor_after_seq(
                    old(self).info,
                    old(self).col as int,
                    old(self).row as int,
                    s@,
                ),
            decreases n - i,
        {
            let ch = s.get_char(i);
            let ghost pre = *self;
            self.put_char(ch);
            proof {
                assert(s@.skip(i as int)[0] == s@[i as int]);
                assert(s@.skip(i as int).drop_first() =~= s@.skip(i as int + 1));
                assert((self.col as int, self.row as int) == cursor_after(
                    pre.info,
                    pre.col as int,
                    pre.row as int,
                    ch,
                ));
            }
            i += 1;
        }
        proof {
            assert(s@.skip(n as int).len() == 0);
        }
    }
}

/// The effect of drawing `ch` with its top-left corner at pixel `(x, y)`:
/// every glyph-box pixel inside the framebuffer carries the foreground or
/// background color according to the font, and every other pixel is
/// untouched.
pub open spec fn glyph_drawn(pre: Writer, post: Writer, x: int, y: int, ch: char) -> bool {
    &&& forall|px: int|
        0 <= px < post.fb@.len() && (forall|gx: int, gy: int|
            0 <= gx < 8 && 0 <= gy < 16 && x + gx < pre.info.width && y + gy < pre.info.height
                ==> px != #[trigger] glyph_loc(pre.info, x, y, gx, gy)) ==> post.fb@[px]
            == pre.fb@[px]
    &&& forall|gx: int, gy: int|
        0 <= gx < 8 && 0 <= gy < 16 && x + gx < pre.info.width && y + gy < pre.info.height
            ==> post.pixel(x + gx, y + gy) == (if glyph_bit(glyph_of(pre.font@, ch), gx, gy) {
            pre.text_color.0
        } else {
            pre.text_color.1
        })
}

/// Where the cursor stands after writing one character, mirroring
/// `Writer::put_char`: line feed and wrapping advance the row (clamped at
/// the bottom), carriage return rewinds the column, a tab jumps to the next
/// four-column stop, and anything printable advances by one column.
pub open spec fn cursor_after(info: FramebufferInfo, col: int, row: int, ch: char) -> (int, int) {
    let cols = info.width as int / 8;
    let rows = info.height as int / 16;
    if ch == '\n' {
        (0int, if row < rows {
            row + 1
        } else {
            row
        })
    } else if ch == '\r' {
        (0int, row)
    } else if ch == '\t' {
        let next = col + 4 - (col % 4);
        (
            if next <= cols {
                next
            } else {
                cols
            },
            row,
        )
    } else {
        let c0 = if col >= cols {
            0int
        } else {
            col
        };
        let r0 = if col >= cols {
            if row < rows {
                row + 1
            } else {
                row
            }
        } else {
            row
        };
        (
            if c0 < cols {
                c0 + 1
            } else {
                c0
            },
            r0,
        )
    }
}

/// Where the cursor stands after writing a whole sequence of characters.
pub open spec fn cursor_after_seq(
    info: FramebufferInfo,
    col: int,
    row: int,
    s: Seq<char>,
) -> (int, int)
    decreases s.len(),
{
    if s.len() <= 0 {
        (col, row)
    } else {
        let c = cursor_after(info, col, row, s[0]);
        cursor_after_seq(info, c.0, c.1, s.drop_first())
    }
}

/// The 16 font rows of the glyph that `ch` is drawn with: its own when it
/// is ASCII, the question mark's otherwise.
pub open spec fn glyph_of(font: Seq<u8>, ch: char) -> Seq<u8> {
    let code: int = if (ch as int) < 128 {
        ch as int
    } else {
        '?' as int
    };
    font.subrange(code * 16, code * 16 + 16)
}

/// One plotted pixel extends the drawn part of the glyph box by one.
proof fn lemma_plot_step(
    prev: Writer,
    cur: Writer,
    orig: Writer,
    x: int,
    y: int,
    gx: int,
    gy: int,
    color: u32,
)
    requires
        prev.wf(),
        cur.wf(),
        0 <= gx < 8,
        0 <= gy < 16,
        x >= 0,
        y >= 0,
        Writer::same_frame(orig, prev),
        Writer::same_frame(prev, cur),
        x + gx < prev.info.width && y + gy < prev.info.height ==> cur.fb@ == prev.fb@.update(
            glyph_loc(prev.info, x, y, gx, gy),
            color,
        ),
        !(x + gx < prev.info.width && y + gy < prev.info.height) ==> cur.fb@ == prev.fb@,
    ensures
        x + gx < prev.info.width && y + gy < prev.info.height ==> cur.pixel(x + gx, y + gy)
            == color,
        forall|px: int|
            0 <= px < cur.fb@.len() && px != glyph_loc(prev.info, x, y, gx, gy) ==> cur.fb@[px]
                == prev.fb@[px],
        forall|gxp: int, gyp: int|
            0 <= gxp < 8 && 0 <= gyp < 16 && (gxp, gyp) != (gx, gy) && x + gxp < prev.info.width
                && y + gyp < prev.info.height ==> #[trigger] cur.pixel(x + gxp, y + gyp)
                == prev.pixel(x + gxp, y + gyp),
{
    let stride = prev.info.stride();
    if x + gx < prev.info.width && y + gy < prev.info.height {
        assert(x + gx + stride * (y + gy) < cur.fb@.len() && stride * (y + gy) >= 0)
            by (nonlinear_arith)
            requires
                0 <= x + gx < prev.info.width <= stride,
                0 <= y + gy < prev.info.height,
                cur.fb@.len() == stride * prev.info.height,
        ;
    }
    assert forall|gxp: int, gyp: int|
        0 <= gxp < 8 && 0 <= gyp < 16 && (gxp, gyp) != (gx, gy) && x + gxp < prev.info.width && y
            + gyp < prev.info.height implies #[trigger] cur.pixel(x + gxp, y + gyp) == prev.pixel(
        x + gxp,
        y + gyp,
    ) by {
        assert(x + gxp + stride * (y + gyp) < cur.fb@.len() && x + gxp + stride * (y + gyp) >= 0)
            by (nonlinear_arith)
            requires
                0 <= x + gxp < prev.info.width <= stride,
                0 <= y + gyp < prev.info.height,
                cur.fb@.len() == stride * prev.info.height,
        ;
        if x + gx < prev.info.width && y + gy < prev.info.height {
            assert(x + gxp + stride * (y + gyp) != x + gx + stride * (y + gy))
                by (nonlinear_arith)
                requires
                    0 <= gxp < 8,
                    0 <= gyp < 16,
                    0 <= gx < 8,
                    0 <= gy < 16,
                    (gxp, gyp) != (gx, gy),
                    x >= 0,
                    y >= 0,
                    0 <= x + gxp < prev.info.width,
                    0 <= x + gx < prev.info.width,
                    prev.info.width <= stride,
            ;
        }
    }
}

/// The console: the writer once the graphics driver has handed over a
/// framebuffer; an explicit state object with run-once initialization in
/// place of a global.
pub struct Console {
    pub writer: Option<Writer>,
}

impl Console {
    /// A console with no framebuffer yet.
    pub fn new() -> (r: Self)
        ensures
            r.writer is None,
    {
        Console { writer: None }
    }
}

/// Whether the console has been initialized.
pub fn is_initialized(console: &Console) -> (r: bool)
    ensures
        r == (console.writer is Some),
{
    match &console.writer {
        Some(_) => true,
        None => false,
    }
}

/// Initialize the console over a framebuffer, once: the first call installs
/// the writer, any later call is a safe no-op.
pub fn init(console: &mut Console, fb: Vec<u32>, info: FramebufferInfo, font: Vec<u8>)
    requires
        fb@.len() == info.stride() * info.height,
        info.width <= info.stride(),
        info.width + 8 <= usize::MAX,
        info.height + 16 <= usize::MAX,
        font@.len() == FONT_SIZE,
        old(console).writer is Some ==> old(console).writer->Some_0.wf(),
    ensures
        final (console).writer is Some,
        final (console).writer->Some_0.wf(),
        old(console).writer is None ==> final (console).writer->Some_0.fb@ == fb@
            && final (console).writer->Some_0.info == info,
        old(console).writer is Some ==> *final (console) == *old(console),
{
    if matches!(&console.writer, Option::None) {
        let writer = Writer::new(fb, info, font);
        console.writer = Some(writer);
    }
}

} // verus!
