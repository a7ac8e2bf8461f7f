use vstd::prelude::*;

verus! {

/// Width of the plain frame around the text, in pixels.
pub const BORDER: usize = 25;

/// Grey level of the background (and of the text's surroundings).
pub const BACKGROUND: u8 = 128;

/// Bytes per pixel (blue, green, red, alpha).
pub const PIXEL_SIZE: usize = 4;

/// One character drawn by the font: its bitmap of coverage values (row by row,
/// `width` per row), how far below the baseline it starts (`ymin`), and how far
/// the pen moves after it (rounded up to whole pixels).
pub struct Glyph {
    pub width: usize,
    pub height: usize,
    pub ymin: i32,
    pub advance: usize,
    pub coverage: Vec<u8>,
}

/// A [`Glyph`] with its bitmap as a sequence.
pub struct GlyphView {
    pub width: usize,
    pub height: usize,
    pub ymin: i32,
    pub advance: usize,
    pub coverage: Seq<u8>,
}

impl View for Glyph {
    type V = GlyphView;

    open spec fn view(&self) -> GlyphView {
        GlyphView {
            width: self.width,
            height: self.height,
            ymin: self.ymin,
            advance: self.advance,
            coverage: self.coverage@,
        }
    }
}

/// The glyphs as views.
pub open spec fn glyph_views(glyphs: Seq<Glyph>) -> Seq<GlyphView> {
    glyphs.map_values(|g: Glyph| g@)
}

/// How much of the text's width glyph `i` takes: its advance, but the width of
/// its bitmap for the glyphs from the one at the text's last byte on.
pub open spec fn step_width(glyphs: Seq<GlyphView>, byte_len: int, i: int) -> int {
    if i < byte_len - 1 {
        glyphs[i].advance as int
    } else {
        glyphs[i].width as int
    }
}

/// The width of the first `m` glyphs.
pub open spec fn text_width(glyphs: Seq<GlyphView>, byte_len: int, m: int) -> int
    decreases m,
{
    if m <= 0 {
        0
    } else {
        text_width(glyphs, byte_len, m - 1) + step_width(glyphs, byte_len, m - 1)
    }
}

/// The height of the tallest of the first `m` glyphs.
pub open spec fn text_height(glyphs: Seq<GlyphView>, m: int) -> int
    decreases m,
{
    if m <= 0 {
        0
    } else {
        let h = text_height(glyphs, m - 1);
        if glyphs[m - 1].height as int > h {
            glyphs[m - 1].height as int
        } else {
            h
        }
    }
}

/// Where the pen stands before glyph `k`: past the frame and the advances of
/// the glyphs before it (saturating at the largest `usize`).
pub open spec fn pen(glyphs: Seq<GlyphView>, k: int) -> int
    decreases k,
{
    if k <= 0 {
        BORDER as int
    } else {
        let p = pen(glyphs, k - 1) + glyphs[k - 1].advance;
        if p > usize::MAX {
            usize::MAX as int
        } else {
            p
        }
    }
}

/// `a - b`, but not below zero.
pub open spec fn sub0(a: int, b: int) -> int {
    if a > b {
        a - b
    } else {
        0
    }
}

/// The first row of the picture where glyph `g` is drawn: glyphs sit on the
/// line the frame leaves at the bottom, raised by how far they reach below the
/// baseline.
pub open spec fn first_row(px_h: int, g: GlyphView) -> int {
    let ymin = if g.ymin > 0 { g.ymin as int } else { 0 };
    sub0(sub0(sub0(px_h, g.height as int), ymin), BORDER as int)
}

/// The byte of the picture where pixel `(x, y)` of a glyph goes.
pub open spec fn pixel_index(px_w: int, row: int, pen: int, x: int, y: int) -> int {
    ((y + row) * px_w + pen + x) * PIXEL_SIZE
}

/// The grey level of a pixel `coverage`/255 covered by the (black) text.
pub open spec fn shade(coverage: u8) -> u8 {
    ((BACKGROUND * (255 - coverage) + 254) / 255) as u8
}

/// The picture before any text: background grey, opaque.
pub open spec fn blank(len: int) -> Seq<u8> {
    Seq::new(len as nat, |i: int| if i % 4 == 3 { 255u8 } else { BACKGROUND })
}

/// `buf` with the pixel at byte `i` set to grey level `c`, opaque.
pub open spec fn put_pixel(buf: Seq<u8>, i: int, c: u8) -> Seq<u8> {
    buf.update(i, c).update(i + 1, c).update(i + 2, c).update(i + 3, 255)
}

/// `buf` with the first `m` pixels of row `y` of glyph `g` drawn.
pub open spec fn paint_row(buf: Seq<u8>, g: GlyphView, px_w: int, row: int, pen: int, y: int, m: int) -> Seq<u8>
    decreases m,
{
    if m <= 0 {
        buf
    } else {
        let b = paint_row(buf, g, px_w, row, pen, y, m - 1);
        put_pixel(b, pixel_index(px_w, row, pen, m - 1, y), shade(g.coverage[y * g.width + m - 1]))
    }
}

/// `buf` with the first `n` rows of glyph `g` drawn.
pub open spec fn paint_glyph(buf: Seq<u8>, g: GlyphView, px_w: int, row: int, pen: int, n: int) -> Seq<u8>
    decreases n,
{
    if n <= 0 {
        buf
    } else {
        paint_row(paint_glyph(buf, g, px_w, row, pen, n - 1), g, px_w, row, pen, n - 1, g.width as int)
    }
}

/// `buf` with the first `k` glyphs drawn, each after the one before.
pub open spec fn paint_text(buf: Seq<u8>, glyphs: Seq<GlyphView>, px_w: int, px_h: int, k: int) -> Seq<u8>
    decreases k,
{
    if k <= 0 {
        buf
    } else {
        let g = glyphs[k - 1];
        paint_glyph(
            paint_text(buf, glyphs, px_w, px_h, k - 1),
            g,
            px_w,
            first_row(px_h, g),
            pen(glyphs, k - 1),
            g.height as int,
        )
    }
}

/// The picture's width for the glyphs of a text of `byte_len` bytes.
pub open spec fn picture_width(glyphs: Seq<GlyphView>, byte_len: int) -> int {
    text_width(glyphs, byte_len, glyphs.len() as int) + 2 * BORDER
}

/// The picture's height for the glyphs.
pub open spec fn picture_height(glyphs: Seq<GlyphView>) -> int {
    text_height(glyphs, glyphs.len() as int) + 2 * BORDER
}

/// Pixel `(x, y)` of glyph `k` lands inside the picture, and its coverage is
/// in the bitmap.
pub open spec fn pixel_fits(glyphs: Seq<GlyphView>, byte_len: int, k: int, x: int, y: int) -> bool {
    let px_w = picture_width(glyphs, byte_len);
    let px_h = picture_height(glyphs);
    &&& pixel_index(px_w, first_row(px_h, glyphs[k]), pen(glyphs, k), x, y) + 3 < px_w * px_h * PIXEL_SIZE
    &&& y * glyphs[k].width + x < glyphs[k].coverage.len()
}

/// The text can be drawn: the picture's size fits memory, and every pixel of
/// every glyph lands inside it.
pub open spec fn drawable(glyphs: Seq<GlyphView>, byte_len: int) -> bool {
    &&& picture_width(glyphs, byte_len) * picture_height(glyphs) * PIXEL_SIZE <= isize::MAX
    &&& forall|k: int, x: int, y: int|
        0 <= k < glyphs.len() && 0 <= x < glyphs[k].width && 0 <= y < glyphs[k].height ==> #[trigger] pixel_fits(
            glyphs,
            byte_len,
            k,
            x,
            y,
        )
}

/// The grey level of a pixel covered `coverage`/255 by the text.
pub fn shade_of(coverage: u8) -> (r: u8)
    ensures
        r == shade(coverage),
{
    let v: u32 = (128 * (255 - coverage as u32) + 254) / 255;
    v as u8
}

proof fn lemma_text_width_nonneg(glyphs: Seq<GlyphView>, byte_len: int, i: int)
    requires
        0 <= i <= glyphs.len(),
    ensures
        0 <= text_width(glyphs, byte_len, i),
    decreases i,
{
    if i > 0 {
        lemma_text_width_nonneg(glyphs, byte_len, i - 1);
    }
}

proof fn lemma_text_width_grows(glyphs: Seq<GlyphView>, byte_len: int, i: int, j: int)
    requires
        0 <= i <= j <= glyphs.len(),
    ensures
        0 <= text_width(glyphs, byte_len, i) <= text_width(glyphs, byte_len, j),
    decreases j - i,
{
    lemma_text_width_nonneg(glyphs, byte_len, i);
    if i < j {
        lemma_text_width_grows(glyphs, byte_len, i, j - 1);
    }
}

proof fn lemma_text_height_bounds(glyphs: Seq<GlyphView>, i: int, j: int)
    requires
        0 <= i <= j <= glyphs.len(),
    ensures
        0 <= text_height(glyphs, i) <= text_height(glyphs, j),
        forall|k: int| 0 <= k < j ==> glyphs[k].height <= text_height(glyphs, j),
    decreases j,
{
    if j > 0 {
        if i < j {
            lemma_text_height_bounds(glyphs, i, j - 1);
        } else {
            lemma_text_height_bounds(glyphs, 0, j - 1);
        }
    }
}

/// Draws the glyphs of a text of `byte_len` bytes in black on a grey picture
/// with a frame (see [`paint_text`]); gives the picture with its width and
/// height in pixels.
pub fn render(glyphs: &Vec<Glyph>, byte_len: usize) -> (r: (Vec<u8>, usize, usize))
    requires
        drawable(glyph_views(glyphs@), byte_len as int),
    ensures
        r.1 == picture_width(glyph_views(glyphs@), byte_len as int),
        r.2 == picture_height(glyph_views(glyphs@)),
        r.0@ == paint_text(blank(r.1 * r.2 * PIXEL_SIZE), glyph_views(glyphs@), r.1 as int, r.2 as int, glyphs@.len() as int),
{
    let ghost gs = glyph_views(glyphs@);
    let ghost bl = byte_len as int;
    let n = glyphs.len();
    proof {
        lemma_text_width_grows(gs, bl, 0, n as int);
        lemma_text_height_bounds(gs, 0, n as int);
        let w = picture_width(gs, bl);
        let h = picture_height(gs);
        assert(w <= isize::MAX && h <= isize::MAX) by (nonlinear_arith)
            requires
                w * h * 4 <= isize::MAX,
                w >= 50,
                h >= 50,
        ;
    }
    let mut txt_w: usize = 0;
    let mut txt_h: usize = 0;
    let last = byte_len.saturating_sub(1);
    let mut i: usize = 0;
    while i < n
        invariant
            n == gs.len(),
            gs == glyph_views(glyphs@),
            bl == byte_len as int,
            last == (if byte_len > 0 { byte_len - 1 } else { 0 }),
            i <= n,
            txt_w == text_width(gs, bl, i as int),
            txt_h == text_height(gs, i as int),
            text_width(gs, bl, n as int) + 50 <= isize::MAX,
            text_height(gs, n as int) + 50 <= isize::MAX,
        decreases n - i,
    {
        let g = &glyphs[i];
        assert(gs[i as int] == g@);
        proof {
            lemma_text_width_grows(gs, bl, i + 1, n as int);
            lemma_text_height_bounds(gs, i + 1, n as int);
        }
        if g.height > txt_h {
            txt_h = g.height;
        }
        let step = if i < last {
            g.advance
        } else {
            g.width
        };
        txt_w = txt_w + step;
        i = i + 1;
    }
    let px_w = txt_w + 2 * BORDER;
    let px_h = txt_h + 2 * BORDER;
    let len = px_w * px_h * PIXEL_SIZE;
    let mut buf: Vec<u8> = Vec::new();
    let mut b: usize = 0;
    while b < len
        invariant
            b <= len,
            buf@ =~= blank(len as int).take(b as int),
        decreases len - b,
    {
        if b % 4 == 3 {
            buf.push(255);
        } else {
            buf.push(BACKGROUND);
        }
        b = b + 1;
    }
    assert(buf@ =~= blank(len as int));
    let mut x_offset: usize = BORDER;
    let mut k: usize = 0;
    while k < n
        invariant
            n == gs.len(),
            gs == glyph_views(glyphs@),
            bl == byte_len as int,
            drawable(gs, bl),
            px_w == picture_width(gs, bl),
            px_h == picture_height(gs),
            len == px_w * px_h * PIXEL_SIZE,
            k <= n,
            x_offset == pen(gs, k as int),
            buf@.len() == len,
            buf@ == paint_text(blank(len as int), gs, px_w as int, px_h as int, k as int),
        decreases n - k,
    {
        let g = &glyphs[k];
        assert(gs[k as int] == g@);
        let ymin: usize = if g.ymin > 0 {
            g.ymin as usize
        } else {
            0
        };
        let row = px_h.saturating_sub(g.height).saturating_sub(ymin).saturating_sub(BORDER);
        assert(row == first_row(px_h as int, g@));
        let ghost before = buf@;
        let mut y: usize = 0;
        while y < g.height
            invariant
                n == gs.len(),
                gs == glyph_views(glyphs@),
                drawable(gs, bl),
                bl == byte_len as int,
                k < n,
                gs[k as int] == g@,
                px_w == picture_width(gs, bl),
                px_h == picture_height(gs),
                len == px_w * px_h * PIXEL_SIZE,
                row == first_row(px_h as int, g@),
                x_offset == pen(gs, k as int),
                y <= g.height,
                buf@.len() == len,
                buf@ == paint_glyph(before, g@, px_w as int, row as int, x_offset as int, y as int),
            decreases g.height - y,
        {
            let ghost row_start = buf@;
            let mut x: usize = 0;
            while x < g.width
                invariant
                    n == gs.len(),
                    gs == glyph_views(glyphs@),
                    drawable(gs, bl),
                    bl == byte_len as int,
                    k < n,
                    gs[k as int] == g@,
                    px_w == picture_width(gs, bl),
                    px_h == picture_height(gs),
                    len == px_w * px_h * PIXEL_SIZE,
                    row == first_row(px_h as int, g@),
                    x_offset == pen(gs, k as int),
                    y < g.height,
                    x <= g.width,
                    buf@.len() == len,
                    buf@ == paint_row(row_start, g@, px_w as int, row as int, x_offset as int, y as int, x as int),
                decreases g.width - x,
            {
                assert(pixel_fits(gs, bl, k as int, x as int, y as int));
                let ghost a = (y + row) * px_w;
                assert(0 <= a) by (nonlinear_arith)
                    requires
                        a == (y + row) * px_w,
                        y + row >= 0,
                        px_w >= 0,
                ;
                assert(0 <= y * g.width) by (nonlinear_arith)
                    requires
                        y >= 0,
                        g.width >= 0,
                ;
                let dst = ((y + row) * px_w + x_offset + x) * PIXEL_SIZE;
                assert(g.coverage@.len() == g.coverage.len());
                let src = y * g.width + x;
                let c = shade_of(g.coverage[src]);
                buf.set(dst, c);
                buf.set(dst + 1, c);
                buf.set(dst + 2, c);
                buf.set(dst + 3, 255);
                x = x + 1;
            }
            y = y + 1;
        }
        x_offset = x_offset.saturating_add(g.advance);
        k = k + 1;
    }
    (buf, px_w, px_h)
}

/// Whether the glyphs of a text of `byte_len` bytes can be drawn (see [`drawable`]).
pub fn drawable_check(glyphs: &Vec<Glyph>, byte_len: usize) -> (r: bool)
    ensures
        r == drawable(glyph_views(glyphs@), byte_len as int),
{
    let ghost gs = glyph_views(glyphs@);
    let ghost bl = byte_len as int;
    let n = glyphs.len();
    let last = byte_len.saturating_sub(1);
    let mut txt_w: u128 = 0;
    let mut txt_h: u128 = 0;
    let mut i: usize = 0;
    while i < n
        invariant
            n == gs.len(),
            gs == glyph_views(glyphs@),
            bl == byte_len as int,
            last == (if byte_len > 0 { byte_len - 1 } else { 0 }),
            i <= n,
            txt_w == text_width(gs, bl, i as int),
            txt_h == text_height(gs, i as int),
            txt_w <= i * 0x1_0000_0000_0000_0000,
            txt_h < 0x1_0000_0000_0000_0000,
        decreases n - i,
    {
        let g = &glyphs[i];
        assert(gs[i as int] == g@);
        if g.height as u128 > txt_h {
            txt_h = g.height as u128;
        }
        let step = if i < last {
            g.advance
        } else {
            g.width
        };
        assert(i * 0x1_0000_0000_0000_0000 + 0x1_0000_0000_0000_0000 == (i + 1) * 0x1_0000_0000_0000_0000) by (nonlinear_arith);
        assert((i + 1) * 0x1_0000_0000_0000_0000 <= 0x1_0000_0000_0000_0000 * 0x1_0000_0000_0000_0000) by (nonlinear_arith)
            requires
                i + 1 <= 0x1_0000_0000_0000_0000,
        ;
        txt_w = txt_w + step as u128;
        i = i + 1;
    }
    let px_w: u128 = txt_w + 50;
    let px_h: u128 = txt_h + 50;
    if px_w > isize::MAX as u128 || px_h > isize::MAX as u128 {
        assert(!drawable(gs, bl)) by {
            let w = picture_width(gs, bl);
            let h = picture_height(gs);
            assert(w * h * 4 > isize::MAX) by (nonlinear_arith)
                requires
                    w > isize::MAX || h > isize::MAX,
                    w >= 50,
                    h >= 50,
            ;
        }
        return false;
    }
    assert(px_w * px_h <= 0x8000_0000_0000_0000 * 0x8000_0000_0000_0000) by (nonlinear_arith)
        requires
            px_w <= 0x8000_0000_0000_0000,
            px_h <= 0x8000_0000_0000_0000,
            px_w >= 0,
            px_h >= 0,
    ;
    let area = px_w * px_h;
    if area > (isize::MAX as u128) / 4 {
        return false;
    }
    let len = area * 4;
    let mut at: u128 = BORDER as u128;
    let mut k: usize = 0;
    while k < n
        invariant
            n == gs.len(),
            gs == glyph_views(glyphs@),
            bl == byte_len as int,
            px_w == picture_width(gs, bl),
            px_h == picture_height(gs),
            px_w <= isize::MAX,
            px_h <= isize::MAX,
            len == px_w * px_h * 4,
            len <= isize::MAX,
            k <= n,
            at == pen(gs, k as int),
            forall|k2: int, x: int, y: int|
                0 <= k2 < k && 0 <= x < gs[k2].width && 0 <= y < gs[k2].height ==> #[trigger] pixel_fits(
                    gs,
                    bl,
                    k2,
                    x,
                    y,
                ),
        decreases n - k,
    {
        let g = &glyphs[k];
        assert(gs[k as int] == g@);
        proof {
            lemma_text_height_bounds(gs, 0, n as int);
        }
        let ymin: u128 = if g.ymin > 0 {
            g.ymin as u128
        } else {
            0
        };
        let h = g.height as u128;
        let r1 = if px_h > h { px_h - h } else { 0 };
        let r2 = if r1 > ymin { r1 - ymin } else { 0 };
        let row = if r2 > 25 { r2 - 25 } else { 0 };
        assert(row == first_row(px_h as int, g@));
        let mut y: usize = 0;
        while y < g.height
            invariant
                gs == glyph_views(glyphs@),
                bl == byte_len as int,
                g.height <= px_h,
                gs[k as int] == g@,
                k < n,
                n == gs.len(),
                px_w == picture_width(gs, bl),
                px_h == picture_height(gs),
                px_w <= isize::MAX,
                px_h <= isize::MAX,
                len == px_w * px_h * 4,
                len <= isize::MAX,
                row == first_row(px_h as int, g@),
                row <= px_h,
                at == pen(gs, k as int),
                at <= usize::MAX,
                y <= g.height,
                forall|k2: int, x: int, y2: int|
                    0 <= k2 < k && 0 <= x < gs[k2].width && 0 <= y2 < gs[k2].height ==> #[trigger] pixel_fits(
                        gs,
                        bl,
                        k2,
                        x,
                        y2,
                    ),
                forall|x: int, y2: int|
                    0 <= x < g.width && 0 <= y2 < y ==> #[trigger] pixel_fits(gs, bl, k as int, x, y2),
            decreases g.height - y,
        {
            let mut x: usize = 0;
            while x < g.width
                invariant
                    gs == glyph_views(glyphs@),
                    bl == byte_len as int,
                    g.height <= px_h,
                    gs[k as int] == g@,
                    k < n,
                    n == gs.len(),
                    px_w == picture_width(gs, bl),
                    px_h == picture_height(gs),
                    px_w <= isize::MAX,
                    px_h <= isize::MAX,
                    len == px_w * px_h * 4,
                    len <= isize::MAX,
                    row == first_row(px_h as int, g@),
                    row <= px_h,
                    at == pen(gs, k as int),
                    at <= usize::MAX,
                    y < g.height,
                    x <= g.width,
                    forall|x2: int| 0 <= x2 < x ==> #[trigger] pixel_fits(gs, bl, k as int, x2, y as int),
                decreases g.width - x,
            {
                assert((y + row) * px_w <= 0x1_0000_0000_0000_0000 * 0x8000_0000_0000_0000) by (nonlinear_arith)
                    requires
                        y + row <= 0x1_0000_0000_0000_0000,
                        px_w <= 0x8000_0000_0000_0000,
                        y + row >= 0,
                        px_w >= 0,
                ;
                let a = (y as u128 + row) * px_w;
                let ghost idx = pixel_index(px_w as int, row as int, at as int, x as int, y as int);
                if a + at + x as u128 >= len {
                    assert(!pixel_fits(gs, bl, k as int, x as int, y as int));
                    assert(!drawable(gs, bl));
                    return false;
                }
                assert(y * g.width <= 0xffff_ffff_ffff_ffff * 0xffff_ffff_ffff_ffff) by (nonlinear_arith)
                    requires
                        0 <= y <= 0xffff_ffff_ffff_ffff,
                        0 <= g.width <= 0xffff_ffff_ffff_ffff,
                ;
                let src_fits = (y as u128) * (g.width as u128) + (x as u128) < g.coverage.len() as u128;
                if (a + at + x as u128) * 4 + 3 >= len || !src_fits {
                    assert(!pixel_fits(gs, bl, k as int, x as int, y as int));
                    assert(!drawable(gs, bl));
                    return false;
                }
                assert(pixel_fits(gs, bl, k as int, x as int, y as int));
                x = x + 1;
            }
            y = y + 1;
        }
        let next = at + g.advance as u128;
        at = if next > usize::MAX as u128 { usize::MAX as u128 } else { next };
        k = k + 1;
    }
    true
}

/// Draws the text ([`render`]) when it can be drawn ([`drawable`]); `None` when
/// a pixel would fall outside the picture or the picture would not fit memory.
pub fn render_checked(glyphs: &Vec<Glyph>, byte_len: usize) -> (r: Option<(Vec<u8>, usize, usize)>)
    ensures
        r is None <==> !drawable(glyph_views(glyphs@), byte_len as int),
        match r {
            Some(p) => {
                &&& p.1 == picture_width(glyph_views(glyphs@), byte_len as int)
                &&& p.2 == picture_height(glyph_views(glyphs@))
                &&& p.0@ == paint_text(
                    blank(p.1 * p.2 * PIXEL_SIZE),
                    glyph_views(glyphs@),
                    p.1 as int,
                    p.2 as int,
                    glyphs@.len() as int,
                )
            },
            None => true,
        },
{
    if drawable_check(glyphs, byte_len) {
        Some(render(glyphs, byte_len))
    } else {
        None
    }
}

} // verus!
