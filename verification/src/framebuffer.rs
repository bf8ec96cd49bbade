//! Basic framebuffer text writer: the cursor over the screen and where each
//! character and pixel goes. The pixels themselves, and the font, are the
//! caller's.
use vstd::prelude::*;

verus! {

/// The number of glyphs of the 8x16 bitmap font.
pub const FONT_GLYPH_COUNT: usize = 256;

/// Errors the framebuffer might encounter
#[derive(Debug, Clone, Copy, PartialEq, Eq, Structural)]
pub enum FramebufferError {
    /// Encountered an invalid character
    InvalidCharacter,
}

/// The FramebufferWriter struct is used to write to the framebuffer.
#[derive(Debug, Clone, Copy, PartialEq, Eq, Structural)]
pub struct FramebufferWriter {
    /// Width of the screen, in pixels
    pub width: u64,
    /// Height of the screen, in pixels
    pub height: u64,
    /// Bytes per line of pixels
    pub pitch: u64,
    /// Bits per pixel
    pub bpp: u16,
    /// The cursor's line, in pixels
    pub curr_y: u64,
    /// The cursor's column, in pixels
    pub curr_x: u64,
    /// Set once the cursor has left the screen
    pub disabled: bool,
}

/// The cursor is on the screen or the writer is disabled, and moving it
/// cannot overflow.
pub open spec fn cursor_ok(w: FramebufferWriter) -> bool {
    &&& w.width <= u64::MAX - 8
    &&& w.height <= u64::MAX - 16
    &&& w.curr_x <= w.width
    &&& (w.disabled || w.curr_y <= w.height)
}

/// The writer after the cursor moves one character line down.
pub open spec fn scrolled_y(w: FramebufferWriter) -> FramebufferWriter {
    let y = (w.curr_y + 16) as u64;
    FramebufferWriter { curr_y: y, disabled: w.disabled || y >= w.height, ..w }
}

/// The writer after the cursor moves past `character`.
pub open spec fn scrolled_x(w: FramebufferWriter, character: u8) -> FramebufferWriter {
    let x = (w.curr_x + 8) as u64;
    if x >= w.width || character == 10 {
        scrolled_y(FramebufferWriter { curr_x: 0, ..w })
    } else {
        FramebufferWriter { curr_x: x, ..w }
    }
}

impl FramebufferWriter {
    /// A writer with no screen yet.
    pub fn uninit() -> (r: Self)
        ensures
            r == (FramebufferWriter {
                width: 0,
                height: 0,
                pitch: 0,
                bpp: 0,
                curr_y: 0,
                curr_x: 0,
                disabled: false,
            }),
            cursor_ok(r),
    {
        FramebufferWriter {
            width: 0,
            height: 0,
            pitch: 0,
            bpp: 0,
            curr_y: 0,
            curr_x: 0,
            disabled: false,
        }
    }

    /// Initializes the writer with the geometry of the bootloader's
    /// framebuffer.
    pub fn init_from_limine(&mut self, width: u64, height: u64, pitch: u64, bpp: u16)
        ensures
            *final(self) == (FramebufferWriter { width, height, pitch, bpp, ..*old(self) }),
    {
        self.width = width;
        self.height = height;
        self.pitch = pitch;
        self.bpp = bpp;
    }

    /// The byte offset of the pixel at the given coordinates.
    pub fn pixel_offset(&self, x: u64, y: u64) -> (r: u64)
        requires
            x * (self.bpp / 8) + y * self.pitch <= u64::MAX,
        ensures
            r == x * (self.bpp / 8) + y * self.pitch,
    {
        proof {
            vstd::arithmetic::mul::lemma_mul_nonnegative(x as int, (self.bpp / 8) as int);
            vstd::arithmetic::mul::lemma_mul_nonnegative(y as int, self.pitch as int);
        }
        let y = y * self.pitch;
        let x = x * ((self.bpp / 8) as u64);
        x + y
    }

    /// Increments the current y cursor one character line down (16 pixels).
    pub fn scroll_y(&mut self)
        requires
            old(self).curr_y + 16 <= u64::MAX,
        ensures
            *final(self) == scrolled_y(*old(self)),
    {
        self.curr_y = self.curr_y + 16;
        if self.curr_y >= self.height {
            self.disabled = true;
        }
    }

    /// Increments the current x cursor one character line right (8 pixels).
    /// Increments the y cursor if the x cursor is at the end of the line, or
    /// if the newly written character is a newline.
    pub fn scroll_x(&mut self, character: u8)
        requires
            old(self).curr_x + 8 <= u64::MAX,
            old(self).curr_y + 16 <= u64::MAX,
        ensures
            *final(self) == scrolled_x(*old(self), character),
    {
        self.curr_x = self.curr_x + 8;
        if self.curr_x >= self.width || character == 10 {
            self.curr_x = 0;
            self.scroll_y();
        }
    }

    /// Places a character at the current cursor position, and moves the
    /// cursor past it: returns where the character's glyph goes, or nothing
    /// when the writer is disabled.
    pub fn draw_char(&mut self, character: u8) -> (r: Result<Option<(u64, u64)>, FramebufferError>)
        requires
            cursor_ok(*old(self)),
        ensures
            cursor_ok(*final(self)),
            old(self).disabled ==> r == Ok::<Option<(u64, u64)>, FramebufferError>(None)
                && *final(self) == *old(self),
            !old(self).disabled ==> r == Ok::<Option<(u64, u64)>, FramebufferError>(
                Some((old(self).curr_x, old(self).curr_y)),
            ) && *final(self) == scrolled_x(*old(self), character),
    {
        if self.disabled {
            return Ok(None);
        }
        let index = character as usize;
        if index >= FONT_GLYPH_COUNT {
            return Err(FramebufferError::InvalidCharacter);
        }
        let at = (self.curr_x, self.curr_y);
        self.scroll_x(character);
        Ok(Some(at))
    }
}

/// Bit `x` of a glyph's row is set: the glyph covers that pixel of the row.
pub open spec fn glyph_bit(row: u8, x: u8) -> bool {
    (row >> x) & 1 != 0
}

/// The pixels a glyph of rows `rows` covers when drawn with its top left
/// corner at (`x0`, `y0`), among the first `k` of its 16 rows of 8 columns,
/// row by row, left to right.
pub open spec fn glyph_pixels_upto(rows: Seq<u8>, x0: u64, y0: u64, k: nat) -> Seq<(u64, u64)>
    decreases k,
{
    if k == 0 {
        Seq::empty()
    } else {
        let j = (k - 1) as nat;
        let prev = glyph_pixels_upto(rows, x0, y0, j);
        let y = j / 8;
        let x = j % 8;
        if glyph_bit(rows[y as int], x as u8) {
            prev.push(((x0 + x) as u64, (y0 + y) as u64))
        } else {
            prev
        }
    }
}

/// The pixels an 8x16 glyph covers when drawn with its top left corner at
/// (`x0`, `y0`): for each row, the columns whose bit is set, bit 0 leftmost.
pub fn glyph_pixels(glyph: &[u8; 16], x0: u64, y0: u64) -> (r: Vec<(u64, u64)>)
    requires
        x0 + 8 <= u64::MAX,
        y0 + 16 <= u64::MAX,
    ensures
        r@ == glyph_pixels_upto(glyph@, x0, y0, 128),
{
    let mut r: Vec<(u64, u64)> = Vec::new();
    let mut y: usize = 0;
    while y < 16
        invariant
            y <= 16,
            x0 + 8 <= u64::MAX,
            y0 + 16 <= u64::MAX,
            glyph@.len() == 16,
            r@ == glyph_pixels_upto(glyph@, x0, y0, (y * 8) as nat),
        decreases 16 - y,
    {
        let row = glyph[y];
        let mut x: u8 = 0;
        while x < 8
            invariant
                y < 16,
                x <= 8,
                x0 + 8 <= u64::MAX,
                y0 + 16 <= u64::MAX,
                glyph@.len() == 16,
                row == glyph@[y as int],
                r@ == glyph_pixels_upto(glyph@, x0, y0, (y * 8 + x) as nat),
            decreases 8 - x,
        {
            let ghost k = (y * 8 + x) as nat;
            assert(k / 8 == y && k % 8 == x) by (nonlinear_arith)
                requires
                    k == y * 8 + x,
                    x < 8,
            ;
            if (row >> x) & 1 != 0 {
                r.push((x0 + x as u64, y0 + y as u64));
            }
            x = x + 1;
        }
        y = y + 1;
    }
    r
}

} // verus!
