//! Texture sampling and framebuffer writes: color lookup with a neutral
//! sentinel for out-of-range texels, shaded pixel stores that silently drop
//! out-of-range coordinates, and the vertical strip blit for wall columns.

use vstd::prelude::*;
use vstd::arithmetic::div_mod::*;
use vstd::arithmetic::mul::*;
use crate::map::{lemma_cell_index, lemma_grid_bounds};

verus! {

/// Largest accepted texture side length.
pub const TEX_LIMIT: i64 = 0x8000;

/// Largest accepted render-target side length, in pixels.
pub const PLANE_LIMIT: i64 = 4096;

/// Largest accepted shading multiplier, in fixed point.
pub const MULT_LIMIT: i64 = 0x2_0000_0000;

/// An RGB texture: a flat byte array, three bytes per texel.
pub struct Texture {
    pub data: Vec<u8>,
    pub width: i64,
    pub height: i64,
}

/// One color channel scaled by a fixed-point multiplier, saturating at the
/// channel maximum.
pub open spec fn shade_channel(c: u8, m: int) -> u8 {
    let v = (c * m) / 65536;
    if v > 255 {
        255u8
    } else {
        v as u8
    }
}

/// A color triple under an optional per-channel shading multiplier.
pub open spec fn shaded(c: (u8, u8, u8), mult: Option<(i64, i64, i64)>) -> (u8, u8, u8) {
    match mult {
        Some((mr, mg, mb)) => (
            shade_channel(c.0, mr as int),
            shade_channel(c.1, mg as int),
            shade_channel(c.2, mb as int),
        ),
        None => c,
    }
}

/// The byte offset of pixel `(x, y)` in a frame of width `w`, four bytes
/// per pixel.
pub open spec fn pixel_index(w: int, x: int, y: int) -> int {
    4 * (y * w + x)
}

/// The screen column a frame byte belongs to.
pub open spec fn column_of(w: int, i: int) -> int {
    (i / 4) % w
}

/// The screen row a frame byte belongs to.
pub open spec fn row_of(w: int, i: int) -> int {
    (i / 4) / w
}

/// The four frame bytes of pixel `(x, y)` hold the color, with full alpha.
pub open spec fn pixel_is(frame: Seq<u8>, w: int, x: int, y: int, c: (u8, u8, u8)) -> bool {
    let idx = pixel_index(w, x, y);
    &&& frame[idx] == c.0
    &&& frame[idx + 1] == c.1
    &&& frame[idx + 2] == c.2
    &&& frame[idx + 3] == 255u8
}

/// The texture row a strip row samples: the strip height is mapped onto
/// the texture height with nearest-row rounding.
pub open spec fn strip_tex_y(y: int, height: int, tex_h: int) -> int {
    (2 * y * tex_h + height) / (2 * height)
}

/// A color triple scaled by one shading multiplier on every channel.
pub open spec fn shaded_mono(c: (u8, u8, u8), m: int) -> (u8, u8, u8) {
    (shade_channel(c.0, m), shade_channel(c.1, m), shade_channel(c.2, m))
}

/// The four frame bytes of pixel `(x, y)` are the same in `post` as in
/// `pre`.
pub open spec fn pixel_kept(pre: Seq<u8>, post: Seq<u8>, w: int, x: int, y: int) -> bool {
    let idx = pixel_index(w, x, y);
    &&& post[idx] == pre[idx]
    &&& post[idx + 1] == pre[idx + 1]
    &&& post[idx + 2] == pre[idx + 2]
    &&& post[idx + 3] == pre[idx + 3]
}

/// Frame bytes outside rows `[top, bottom)` of screen column `x` are the
/// same in `post` as in `pre`.
#[verifier::opaque]
pub open spec fn kept_outside_strip(
    pre: Seq<u8>,
    post: Seq<u8>,
    w: int,
    x: int,
    top: int,
    bottom: int,
) -> bool {
    &&& post.len() == pre.len()
    &&& forall|i: int|
        0 <= i < pre.len() && !(#[trigger] column_of(w, i) == x && top <= row_of(w, i) < bottom)
            ==> post[i] == pre[i]
}

/// An untouched frame keeps every strip region.
pub proof fn lemma_kept_strip_refl(s: Seq<u8>, w: int, x: int, top: int, bottom: int)
    ensures
        kept_outside_strip(s, s, w, x, top, bottom),
{
    reveal(kept_outside_strip);
}

/// Keeping a region is transitive across two frame updates.
pub proof fn lemma_kept_strip_trans(
    a: Seq<u8>,
    b: Seq<u8>,
    c: Seq<u8>,
    w: int,
    x: int,
    top: int,
    bottom: int,
)
    requires
        kept_outside_strip(a, b, w, x, top, bottom),
        kept_outside_strip(b, c, w, x, top, bottom),
    ensures
        kept_outside_strip(a, c, w, x, top, bottom),
{
    reveal(kept_outside_strip);
}

/// A write confined to one row of the strip is confined to the strip.
pub proof fn lemma_kept_strip_widen(
    pre: Seq<u8>,
    post: Seq<u8>,
    w: int,
    x: int,
    y: int,
    top: int,
    bottom: int,
)
    requires
        kept_outside_strip(pre, post, w, x, y, y + 1),
        top <= y < bottom,
    ensures
        kept_outside_strip(pre, post, w, x, top, bottom),
{
    reveal(kept_outside_strip);
}

/// A kept region followed by a write to the next row is a kept region one
/// row larger.
pub proof fn lemma_kept_strip_extend(
    a: Seq<u8>,
    b: Seq<u8>,
    c: Seq<u8>,
    w: int,
    x: int,
    start: int,
    row: int,
)
    requires
        kept_outside_strip(a, b, w, x, start, row),
        kept_outside_strip(b, c, w, x, row, row + 1),
        start <= row,
    ensures
        kept_outside_strip(a, c, w, x, start, row + 1),
{
    reveal(kept_outside_strip);
}

/// With an empty kept-out region, any other empty region is kept too.
pub proof fn lemma_kept_strip_empty(
    a: Seq<u8>,
    b: Seq<u8>,
    w: int,
    x: int,
    s1: int,
    e1: int,
    s2: int,
    e2: int,
)
    requires
        kept_outside_strip(a, b, w, x, s1, e1),
        e1 <= s1,
        e2 <= s2,
    ensures
        kept_outside_strip(a, b, w, x, s2, e2),
{
    reveal(kept_outside_strip);
}

/// A byte outside the kept-out region is unchanged.
pub proof fn lemma_kept_strip_untouched(
    pre: Seq<u8>,
    post: Seq<u8>,
    w: int,
    x: int,
    top: int,
    bottom: int,
    i: int,
)
    requires
        kept_outside_strip(pre, post, w, x, top, bottom),
        0 <= i < pre.len(),
        !(column_of(w, i) == x && top <= row_of(w, i) < bottom),
    ensures
        post[i] == pre[i],
        post.len() == pre.len(),
{
    reveal(kept_outside_strip);
}

impl Texture {
    /// Structural consistency: three bytes per declared texel.
    pub open spec fn wf(self) -> bool {
        &&& 0 < self.width <= TEX_LIMIT
        &&& 0 < self.height <= TEX_LIMIT
        &&& self.data@.len() == 3 * (self.width * self.height)
    }

    /// The color at a texel, or the neutral sentinel for out-of-range
    /// lookups.
    pub open spec fn color_spec(self, x: int, y: int) -> (u8, u8, u8) {
        if 0 <= x < self.width && 0 <= y < self.height {
            let idx = 3 * (y * self.width + x);
            (self.data@[idx], self.data@[idx + 1], self.data@[idx + 2])
        } else {
            (0u8, 0u8, 0u8)
        }
    }

    /// Wraps decoded image bytes: three bytes per texel, row-major.
    pub fn new(data: Vec<u8>, width: i64, height: i64) -> (t: Texture)
        requires
            0 < width <= TEX_LIMIT,
            0 < height <= TEX_LIMIT,
            data@.len() == 3 * (width * height),
        ensures
            t.wf(),
            t.data@ == data@,
            t.width == width,
            t.height == height,
    {
        Texture { data, width, height }
    }

    /// The color at integer texel coordinates; out-of-range lookups return
    /// the neutral sentinel instead of failing.
    pub fn color_at(&self, x: i64, y: i64) -> (r: (u8, u8, u8))
        requires
            self.wf(),
        ensures
            r == self.color_spec(x as int, y as int),
    {
        if x < 0 || y < 0 || x >= self.width || y >= self.height {
            return (0, 0, 0);
        }
        proof {
            lemma_grid_bounds(self.width as int, self.height as int);
            lemma_cell_index(self.width as int, self.height as int, x as int, y as int);
        }
        let idx = ((y * self.width + x) * 3) as usize;
        (self.data[idx], self.data[idx + 1], self.data[idx + 2])
    }

    /// The texture's width in texels.
    pub fn width(&self) -> (r: i64)
        ensures
            r == self.width,
    {
        self.width
    }

    /// The texture's height in texels.
    pub fn height(&self) -> (r: i64)
        ensures
            r == self.height,
    {
        self.height
    }

    /// Stores one texel into the frame at `(x, y)`, shaded by the optional
    /// per-channel fixed-point multiplier. A write outside the frame is
    /// silently dropped; inside, the pixel's four bytes take the shaded
    /// color with full alpha and no other byte changes.
    pub fn copy_to_ex(
        &self,
        tex_x: i64,
        tex_y: i64,
        x: i64,
        y: i64,
        buf: &mut Vec<u8>,
        mult: Option<(i64, i64, i64)>,
        plane_w: i64,
        plane_h: i64,
    )
        requires
            self.wf(),
            0 < plane_w <= PLANE_LIMIT,
            0 < plane_h <= PLANE_LIMIT,
            old(buf)@.len() == 4 * (plane_w * plane_h),
            match mult {
                Some((mr, mg, mb)) => 0 <= mr <= MULT_LIMIT && 0 <= mg <= MULT_LIMIT && 0 <= mb
                    <= MULT_LIMIT,
                None => true,
            },
        ensures
            final(buf)@.len() == old(buf)@.len(),
            0 <= x < plane_w && 0 <= y < plane_h ==> pixel_is(
                final(buf)@,
                plane_w as int,
                x as int,
                y as int,
                shaded(self.color_spec(tex_x as int, tex_y as int), mult),
            ),
            !(0 <= x < plane_w && 0 <= y < plane_h) ==> final(buf)@ == old(buf)@,
            forall|i: int|
                0 <= i < old(buf)@.len() && !(#[trigger] column_of(plane_w as int, i) == x as int
                    && row_of(plane_w as int, i) == y as int) ==> final(buf)@[i] == old(buf)@[i],
            forall|i: int|
                0 <= i < old(buf)@.len() && #[trigger] column_of(plane_w as int, i) != x as int
                    ==> final(buf)@[i] == old(buf)@[i],
            kept_outside_strip(
                old(buf)@,
                final(buf)@,
                plane_w as int,
                x as int,
                y as int,
                y as int + 1,
            ),
    {
        if x < 0 || y < 0 || x >= plane_w || y >= plane_h {
            proof {
                lemma_kept_strip_refl(buf@, plane_w as int, x as int, y as int, y as int + 1);
            }
            return ;
        }
        let (r, g, b) = self.color_at(tex_x, tex_y);
        let (r, g, b) = match mult {
            Some((mr, mg, mb)) => (shade(r, mr), shade(g, mg), shade(b, mb)),
            None => (r, g, b),
        };
        proof {
            lemma_grid_bounds(plane_w as int, plane_h as int);
            lemma_cell_index(plane_w as int, plane_h as int, x as int, y as int);
        }
        let idx = ((y * plane_w + x) * 4) as usize;
        buf[idx] = r;
        buf[idx + 1] = g;
        buf[idx + 2] = b;
        buf[idx + 3] = 255;
        proof {
            let wi = plane_w as int;
            let base = pixel_index(wi, x as int, y as int);
            assert forall|i: int|
                0 <= i < old(buf)@.len() && !(#[trigger] column_of(wi, i) == x as int && row_of(
                    wi,
                    i,
                ) == y as int) implies final(buf)@[i] == old(buf)@[i] by {
                if base <= i < base + 4 {
                    lemma_pixel_coordinates(wi, x as int, y as int, i);
                }
            }
            assert(kept_outside_strip(old(buf)@, buf@, wi, x as int, y as int, y as int + 1)) by {
                reveal(kept_outside_strip);
            }
        }
    }

    /// `copy_to_ex` without shading.
    pub fn copy_to(
        &self,
        tex_x: i64,
        tex_y: i64,
        x: i64,
        y: i64,
        buf: &mut Vec<u8>,
        plane_w: i64,
        plane_h: i64,
    )
        requires
            self.wf(),
            0 < plane_w <= PLANE_LIMIT,
            0 < plane_h <= PLANE_LIMIT,
            old(buf)@.len() == 4 * (plane_w * plane_h),
        ensures
            final(buf)@.len() == old(buf)@.len(),
            0 <= x < plane_w && 0 <= y < plane_h ==> pixel_is(
                final(buf)@,
                plane_w as int,
                x as int,
                y as int,
                self.color_spec(tex_x as int, tex_y as int),
            ),
            !(0 <= x < plane_w && 0 <= y < plane_h) ==> final(buf)@ == old(buf)@,
            forall|i: int|
                0 <= i < old(buf)@.len() && !(#[trigger] column_of(plane_w as int, i) == x as int
                    && row_of(plane_w as int, i) == y as int) ==> final(buf)@[i] == old(buf)@[i],
    {
        self.copy_to_ex(tex_x, tex_y, x, y, buf, None, plane_w, plane_h)
    }

    /// Draws the vertical wall strip for one screen column: every on-screen
    /// row `top + y` with `y` in `[0, bottom - top)` takes the shaded texel
    /// of texture column `tex_x` at the proportionally scaled texture row;
    /// rows beyond the screen are silently dropped, and no byte outside
    /// rows `[top, bottom)` of screen column `x` changes.
    #[verifier::loop_isolation(false)]
    pub fn draw_strip_at_ex(
        &self,
        x: i64,
        tex_x: i64,
        top: i64,
        bottom: i64,
        buf: &mut Vec<u8>,
        mult: Option<(i64, i64, i64)>,
        plane_w: i64,
        plane_h: i64,
    )
        requires
            self.wf(),
            0 < plane_w <= PLANE_LIMIT,
            0 < plane_h <= PLANE_LIMIT,
            -0x1_0000_0000 <= top <= 0x1_0000_0000,
            -0x1_0000_0000 <= bottom <= 0x1_0000_0000,
            old(buf)@.len() == 4 * (plane_w * plane_h),
            match mult {
                Some((mr, mg, mb)) => 0 <= mr <= MULT_LIMIT && 0 <= mg <= MULT_LIMIT && 0 <= mb
                    <= MULT_LIMIT,
                None => true,
            },
        ensures
            final(buf)@.len() == old(buf)@.len(),
            kept_outside_strip(
                old(buf)@,
                final(buf)@,
                plane_w as int,
                x as int,
                top as int,
                bottom as int,
            ),
            0 <= x < plane_w ==> forall|y: int|
                0 <= y < bottom - top && 0 <= top + y < plane_h ==> pixel_is(
                    final(buf)@,
                    plane_w as int,
                    x as int,
                    top as int + y,
                    shaded(
                        self.color_spec(
                            tex_x as int,
                            #[trigger] strip_tex_y(y, bottom - top, self.height as int),
                        ),
                        mult,
                    ),
                ),
    {
        if bottom <= top {
            proof {
                lemma_kept_strip_refl(buf@, plane_w as int, x as int, top as int, bottom as int);
            }
            return ;
        }
        let height = bottom - top;
        let mut y: i64 = 0;
        proof {
            lemma_kept_strip_refl(buf@, plane_w as int, x as int, top as int, bottom as int);
        }
        while y < height
            invariant
                0 <= y <= height,
                buf@.len() == 4 * (plane_w * plane_h),
                kept_outside_strip(
                    old(buf)@,
                    buf@,
                    plane_w as int,
                    x as int,
                    top as int,
                    bottom as int,
                ),
                0 <= x < plane_w ==> forall|yy: int|
                    0 <= yy < y && 0 <= top + yy < plane_h ==> pixel_is(
                        buf@,
                        plane_w as int,
                        x as int,
                        top as int + yy,
                        shaded(
                            self.color_spec(
                                tex_x as int,
                                #[trigger] strip_tex_y(yy, height as int, self.height as int),
                            ),
                            mult,
                        ),
                    ),
            decreases height - y,
        {
            proof {
                lemma_mul_nonnegative(2 * y as int, self.height as int);
                lemma_mul_inequality(2 * y as int, 2 * height as int, self.height as int);
                assert(2 * height as int * self.height as int <= 0x8_0000_0000int
                    * 0x8000int) by (nonlinear_arith)
                    requires
                        0 < height as int <= 0x2_0000_0000,
                        0 < self.height as int <= 0x8000,
                ;
                lemma_mul_is_commutative(2 * y as int, self.height as int);
                lemma_mul_is_commutative(2 * height as int, self.height as int);
            }
            let tex_y = (2 * y * self.height + height) / (2 * height);
            let screen_y = top + y;
            proof {
                assert(tex_y as int == strip_tex_y(y as int, height as int, self.height as int));
            }
            let ghost pre = buf@;
            self.copy_to_ex(tex_x, tex_y, x, screen_y, buf, mult, plane_w, plane_h);
            proof {
                let wi = plane_w as int;
                lemma_kept_strip_widen(
                    pre,
                    buf@,
                    wi,
                    x as int,
                    screen_y as int,
                    top as int,
                    bottom as int,
                );
                lemma_kept_strip_trans(
                    old(buf)@,
                    pre,
                    buf@,
                    wi,
                    x as int,
                    top as int,
                    bottom as int,
                );
                if 0 <= x < plane_w {
                    assert forall|yy: int| 0 <= yy < y + 1 && 0 <= top + yy < plane_h implies
                        pixel_is(
                        buf@,
                        plane_w as int,
                        x as int,
                        top as int + yy,
                        shaded(
                            self.color_spec(
                                tex_x as int,
                                strip_tex_y(yy, height as int, self.height as int),
                            ),
                            mult,
                        ),
                    ) by {
                        if yy < y {
                            let base = pixel_index(wi, x as int, top as int + yy);
                            lemma_cell_index(wi, plane_h as int, x as int, top as int + yy);
                            lemma_pixel_coordinates(wi, x as int, top as int + yy, base);
                            lemma_pixel_coordinates(wi, x as int, top as int + yy, base + 1);
                            lemma_pixel_coordinates(wi, x as int, top as int + yy, base + 2);
                            lemma_pixel_coordinates(wi, x as int, top as int + yy, base + 3);
                            lemma_kept_strip_untouched(
                                pre,
                                buf@,
                                wi,
                                x as int,
                                screen_y as int,
                                screen_y as int + 1,
                                base,
                            );
                            lemma_kept_strip_untouched(
                                pre,
                                buf@,
                                wi,
                                x as int,
                                screen_y as int,
                                screen_y as int + 1,
                                base + 1,
                            );
                            lemma_kept_strip_untouched(
                                pre,
                                buf@,
                                wi,
                                x as int,
                                screen_y as int,
                                screen_y as int + 1,
                                base + 2,
                            );
                            lemma_kept_strip_untouched(
                                pre,
                                buf@,
                                wi,
                                x as int,
                                screen_y as int,
                                screen_y as int + 1,
                                base + 3,
                            );
                        }
                    }
                }
            }
            y = y + 1;
        }
    }

    /// `draw_strip_at_ex` without shading: the same rows take the same
    /// texels, unscaled.
    pub fn draw_strip_at(
        &self,
        x: i64,
        tex_x: i64,
        top: i64,
        bottom: i64,
        buf: &mut Vec<u8>,
        plane_w: i64,
        plane_h: i64,
    )
        requires
            self.wf(),
            0 < plane_w <= PLANE_LIMIT,
            0 < plane_h <= PLANE_LIMIT,
            -0x1_0000_0000 <= top <= 0x1_0000_0000,
            -0x1_0000_0000 <= bottom <= 0x1_0000_0000,
            old(buf)@.len() == 4 * (plane_w * plane_h),
        ensures
            final(buf)@.len() == old(buf)@.len(),
            kept_outside_strip(
                old(buf)@,
                final(buf)@,
                plane_w as int,
                x as int,
                top as int,
                bottom as int,
            ),
            0 <= x < plane_w ==> forall|y: int|
                0 <= y < bottom - top && 0 <= top + y < plane_h ==> pixel_is(
                    final(buf)@,
                    plane_w as int,
                    x as int,
                    top as int + y,
                    self.color_spec(
                        tex_x as int,
                        #[trigger] strip_tex_y(y, bottom - top, self.height as int),
                    ),
                ),
    {
        self.draw_strip_at_ex(x, tex_x, top, bottom, buf, None, plane_w, plane_h)
    }
}

/// Scales a color channel by a fixed-point multiplier, saturating.
pub fn shade(c: u8, m: i64) -> (r: u8)
    requires
        0 <= m <= MULT_LIMIT,
    ensures
        r == shade_channel(c, m as int),
{
    proof {
        lemma_mul_nonnegative(c as int, m as int);
        lemma_mul_inequality(c as int, 255, m as int);
        lemma_mul_is_commutative(c as int, m as int);
        lemma_mul_is_commutative(255, m as int);
        lemma_div_pos_is_pos(c as int * m as int, 65536);
    }
    let v: i64 = (c as i64) * m / 65536;
    if v > 255 {
        255
    } else {
        v as u8
    }
}

/// The four bytes of a pixel lie in that pixel's screen column and row.
pub proof fn lemma_pixel_coordinates(w: int, x: int, y: int, i: int)
    requires
        0 < w,
        0 <= x < w,
        0 <= y,
        pixel_index(w, x, y) <= i < pixel_index(w, x, y) + 4,
    ensures
        column_of(w, i) == x,
        row_of(w, i) == y,
{
    let base = y * w + x;
    lemma_mul_nonnegative(y, w);
    assert(i / 4 == base) by {
        lemma_fundamental_div_mod_converse_div(i, 4, base, i - 4 * base);
    }
    assert(base % w == x) by {
        lemma_mul_is_commutative(y, w);
        lemma_mod_multiples_vanish(y, x, w);
        lemma_small_mod(x as nat, w as nat);
    }
    assert(base / w == y) by {
        lemma_mul_is_commutative(y, w);
        lemma_div_multiples_vanish_fancy(y, x, w);
    }
}

} // verus!
