use vstd::prelude::*;

verus! {

/// A top-down debug view drawn into an RGBA frame of `width` x `height` pixels.
pub struct DebugRenderer {
    pub width: u32,
    pub height: u32,
}

/// Index of the first byte of pixel (x, y) in a frame `w` pixels wide.
pub open spec fn pixel_base(w: int, x: int, y: int) -> int {
    (y * w + x) * 4
}

/// The four bytes of pixel (x, y).
pub open spec fn pixel(frame: Seq<u8>, w: int, x: int, y: int) -> (u8, u8, u8, u8) {
    let i = pixel_base(w, x, y);
    (frame[i], frame[i + 1], frame[i + 2], frame[i + 3])
}

proof fn lemma_pixel_bases(w: int, h: int, x1: int, y1: int, x2: int, y2: int)
    requires
        0 <= x1 < w,
        0 <= y1 < h,
        0 <= x2 < w,
        0 <= y2 < h,
    ensures
        0 <= pixel_base(w, x1, y1),
        pixel_base(w, x1, y1) + 4 <= w * h * 4,
        (x1, y1) != (x2, y2) ==> (pixel_base(w, x1, y1) + 4 <= pixel_base(w, x2, y2) || pixel_base(
            w,
            x2,
            y2,
        ) + 4 <= pixel_base(w, x1, y1)),
{
    assert(0 <= y1 * w + x1 < w * h) by (nonlinear_arith)
        requires
            0 <= x1 < w,
            0 <= y1 < h,
    ;
    if (x1, y1) != (x2, y2) {
        assert(y1 * w + x1 != y2 * w + x2) by (nonlinear_arith)
            requires
                0 <= x1 < w,
                0 <= x2 < w,
                (x1, y1) != (x2, y2),
        ;
    }
}

impl DebugRenderer {
    /// A renderer for frames of `width` x `height` pixels.
    pub fn new(width: u32, height: u32) -> (r: DebugRenderer)
        ensures
            r.width == width,
            r.height == height,
    {
        DebugRenderer { width, height }
    }

    /// Whether pixel (x, y) lies in the frame.
    pub open spec fn in_frame(&self, x: int, y: int) -> bool {
        0 <= x < self.width && 0 <= y < self.height
    }

    /// A frame buffer of the renderer's size.
    pub open spec fn fits(&self, frame: Seq<u8>) -> bool {
        frame.len() == self.width * self.height * 4
    }

    /// `new` is `old` with the pixels of `region` set to (r, g, b, 255).
    pub open spec fn painted(
        &self,
        old: Seq<u8>,
        new: Seq<u8>,
        region: spec_fn(int, int) -> bool,
        r: u8,
        g: u8,
        b: u8,
    ) -> bool {
        &&& new.len() == old.len()
        &&& forall|x: int, y: int| #[trigger]
            self.in_frame(x, y) ==> pixel(new, self.width as int, x, y) == if region(x, y) {
                (r, g, b, 255u8)
            } else {
                pixel(old, self.width as int, x, y)
            }
    }

    proof fn lemma_paint_more(
        &self,
        a: Seq<u8>,
        b: Seq<u8>,
        c: Seq<u8>,
        r1: spec_fn(int, int) -> bool,
        r2: spec_fn(int, int) -> bool,
        r3: spec_fn(int, int) -> bool,
        r: u8,
        g: u8,
        bl: u8,
    )
        requires
            self.painted(a, b, r1, r, g, bl),
            self.painted(b, c, r2, r, g, bl),
            forall|x: int, y: int| #[trigger] r3(x, y) == (r1(x, y) || r2(x, y)),
        ensures
            self.painted(a, c, r3, r, g, bl),
    {
        assert forall|x: int, y: int| #[trigger] self.in_frame(x, y) implies pixel(
            c,
            self.width as int,
            x,
            y,
        ) == if r3(x, y) {
            (r, g, bl, 255u8)
        } else {
            pixel(a, self.width as int, x, y)
        } by {
            assert(r3(x, y) == (r1(x, y) || r2(x, y)));
        }
    }

    /// Sets pixel (x, y) to an opaque colour; does nothing outside the frame.
    pub fn put_px(&self, frame: &mut [u8], x: i32, y: i32, r: u8, g: u8, b: u8)
        requires
            self.fits(old(frame)@),
        ensures
            self.painted(old(frame)@, final(frame)@, |px: int, py: int| px == x && py == y, r, g, b),
    {
        if x < 0 || y < 0 || x as i64 >= self.width as i64 || y as i64 >= self.height as i64 {
            return;
        }
        let n = frame.len();
        proof {
            lemma_pixel_bases(self.width as int, self.height as int, x as int, y as int, 0, 0);
            assert(0 <= y * self.width <= y * self.width + x) by (nonlinear_arith)
                requires
                    0 <= y,
                    0 <= x,
                    0 <= self.width,
            ;
        }
        let i = (y as usize * self.width as usize + x as usize) * 4;
        frame[i] = r;
        frame[i + 1] = g;
        frame[i + 2] = b;
        frame[i + 3] = 255;
        proof {
            assert forall|px: int, py: int| #[trigger] self.in_frame(px, py) implies pixel(
                frame@,
                self.width as int,
                px,
                py,
            ) == if px == x && py == y {
                (r, g, b, 255u8)
            } else {
                pixel(old(frame)@, self.width as int, px, py)
            } by {
                lemma_pixel_bases(self.width as int, self.height as int, px, py, x as int, y as int);
            }
        }
    }
}

/// The error-term invariant of Bresenham's walk from (x, y) towards
/// (x1, y1): `sx`, `sy` point towards the target, `dx` = |x1 - x0| and
/// `dy` = -|y1 - y0| for the starting point, and the error term relates
/// the remaining distances (times the step signs) `rx` and `ry`.
pub open spec fn line_inv(
    x: int,
    y: int,
    x1: int,
    y1: int,
    sx: int,
    sy: int,
    dx: int,
    dy: int,
    err: int,
) -> bool {
    let rx = (x1 - x) * sx;
    let ry = (y1 - y) * sy;
    &&& sx == 1 || sx == -1
    &&& sy == 1 || sy == -1
    &&& 0 <= rx <= dx
    &&& 0 <= ry <= -dy
    &&& err == dx + dy + (-dy) * rx - dx * ry
}

/// One step of the walk: along x when twice the error is at least `dy`,
/// along y when it is at most `dx` (possibly both).
pub open spec fn line_step(x: int, y: int, err: int, sx: int, sy: int, dx: int, dy: int) -> (
    int,
    int,
    int,
) {
    let e2 = 2 * err;
    let x2 = if e2 >= dy { x + sx } else { x };
    let err1 = if e2 >= dy { err + dy } else { err };
    let y2 = if e2 <= dx { y + sy } else { y };
    let err2 = if e2 <= dx { err1 + dx } else { err1 };
    (x2, y2, err2)
}

/// A step of the walk keeps its invariant and brings it closer to the target.
pub proof fn lemma_line_step(
    x: int,
    y: int,
    x1: int,
    y1: int,
    sx: int,
    sy: int,
    dx: int,
    dy: int,
    err: int,
)
    requires
        line_inv(x, y, x1, y1, sx, sy, dx, dy, err),
        !(x == x1 && y == y1),
    ensures
        ({
            let n = line_step(x, y, err, sx, sy, dx, dy);
            &&& line_inv(n.0, n.1, x1, y1, sx, sy, dx, dy, n.2)
            &&& (x1 - n.0) * sx + (y1 - n.1) * sy < (x1 - x) * sx + (y1 - y) * sy
        }),
{
    let rx = (x1 - x) * sx;
    let ry = (y1 - y) * sy;
    let big = -dy;
    let e2 = 2 * err;
    assert(rx == 0 ==> x == x1) by (nonlinear_arith)
        requires
            rx == (x1 - x) * sx,
            sx == 1 || sx == -1,
    ;
    assert(ry == 0 ==> y == y1) by (nonlinear_arith)
        requires
            ry == (y1 - y) * sy,
            sy == 1 || sy == -1,
    ;
    if rx == 0 {
        assert(ry >= 1);
        assert(e2 < dy) by (nonlinear_arith)
            requires
                err == dx + dy + big * rx - dx * ry,
                big == -dy,
                e2 == 2 * err,
                rx == 0,
                ry >= 1,
                ry <= big,
                dx >= 0,
        ;
    }
    if ry == 0 {
        assert(rx >= 1);
        assert(e2 > dx) by (nonlinear_arith)
            requires
                err == dx + dy + big * rx - dx * ry,
                big == -dy,
                e2 == 2 * err,
                ry == 0,
                rx >= 1,
                rx <= dx,
                big >= 0,
        ;
    }
    assert((x1 - (x + sx)) * sx == rx - 1) by (nonlinear_arith)
        requires
            rx == (x1 - x) * sx,
            sx == 1 || sx == -1,
    ;
    assert((y1 - (y + sy)) * sy == ry - 1) by (nonlinear_arith)
        requires
            ry == (y1 - y) * sy,
            sy == 1 || sy == -1,
    ;
    assert(big * (rx - 1) == big * rx - big) by (nonlinear_arith);
    assert(dx * (ry - 1) == dx * ry - dx) by (nonlinear_arith);
}

/// Whether Bresenham's walk from (x, y), in the state given, reaches pixel (px, py).
pub open spec fn on_line(
    x: int,
    y: int,
    x1: int,
    y1: int,
    sx: int,
    sy: int,
    dx: int,
    dy: int,
    err: int,
    px: int,
    py: int,
) -> bool
    decreases (x1 - x) * sx + (y1 - y) * sy,
{
    if !line_inv(x, y, x1, y1, sx, sy, dx, dy, err) {
        false
    } else if px == x && py == y {
        true
    } else if x == x1 && y == y1 {
        false
    } else {
        let n = line_step(x, y, err, sx, sy, dx, dy);
        proof {
            lemma_line_step(x, y, x1, y1, sx, sy, dx, dy, err);
        }
        on_line(n.0, n.1, x1, y1, sx, sy, dx, dy, n.2, px, py)
    }
}

/// Whether pixel (px, py) lies on the line from (x0, y0) to (x1, y1) as
/// Bresenham's algorithm draws it.
pub open spec fn line_pixel(x0: int, y0: int, x1: int, y1: int, px: int, py: int) -> bool {
    let sx = if x0 < x1 { 1int } else { -1int };
    let sy = if y0 < y1 { 1int } else { -1int };
    let dx = if x1 >= x0 { x1 - x0 } else { x0 - x1 };
    let dy = -(if y1 >= y0 { y1 - y0 } else { y0 - y1 });
    on_line(x0, y0, x1, y1, sx, sy, dx, dy, dx + dy, px, py)
}

proof fn lemma_between(c: int, a: int, t: int, s: int, d: int)
    requires
        0 <= (t - c) * s <= d,
        s == (if a < t { 1int } else { -1int }),
        d == (if t >= a { t - a } else { a - t }),
    ensures
        (a <= c <= t) || (t <= c <= a),
{
    if s == 1 {
        assert((t - c) * s == t - c);
    } else {
        assert((t - c) * s == c - t) by (nonlinear_arith)
            requires
                s == -1,
        ;
    }
}

proof fn lemma_err_bounds(x: int, y: int, x1: int, y1: int, sx: int, sy: int, dx: int, dy: int, err: int)
    requires
        line_inv(x, y, x1, y1, sx, sy, dx, dy, err),
        dx <= 0x1_0000_0000,
        -0x1_0000_0000 <= dy,
    ensures
        -0x10_0000_0000_0000_0000 <= err <= 0x10_0000_0000_0000_0000,
{
    let rx = (x1 - x) * sx;
    let ry = (y1 - y) * sy;
    assert(0 <= (-dy) * rx <= 0x1_0000_0000 * 0x1_0000_0000) by (nonlinear_arith)
        requires
            0 <= rx <= dx,
            dx <= 0x1_0000_0000,
            -0x1_0000_0000 <= dy <= 0,
    ;
    assert(0 <= dx * ry <= 0x1_0000_0000 * 0x1_0000_0000) by (nonlinear_arith)
        requires
            0 <= ry <= -dy,
            0 <= dx <= 0x1_0000_0000,
            -0x1_0000_0000 <= dy,
    ;
}

impl DebugRenderer {
    /// Draws the line from (x0, y0) to (x1, y1) with Bresenham's algorithm,
    /// clipped to the frame.
    pub fn line(&self, frame: &mut [u8], x0: i32, y0: i32, x1: i32, y1: i32, r: u8, g: u8, b: u8)
        requires
            self.fits(old(frame)@),
        ensures
            self.painted(
                old(frame)@,
                final(frame)@,
                |px: int, py: int| line_pixel(x0 as int, y0 as int, x1 as int, y1 as int, px, py),
                r,
                g,
                b,
            ),
    {
        let tx = x1 as i64;
        let ty = y1 as i64;
        let mut cx = x0 as i64;
        let mut cy = y0 as i64;
        let dx: i64 = if tx >= cx {
            tx - cx
        } else {
            cx - tx
        };
        let sx: i64 = if cx < tx {
            1
        } else {
            -1
        };
        let dy: i64 = -(if ty >= cy {
            ty - cy
        } else {
            cy - ty
        });
        let sy: i64 = if cy < ty {
            1
        } else {
            -1
        };
        let mut err: i128 = (dx + dy) as i128;
        let ghost mut done: spec_fn(int, int) -> bool = |px: int, py: int| false;
        let mut finished = false;
        proof {
            assert((tx - cx) * sx == dx) by (nonlinear_arith)
                requires
                    sx == (if cx < tx { 1int } else { -1int }),
                    dx == (if tx >= cx { tx - cx } else { cx - tx }),
            ;
            assert((ty - cy) * sy == -dy) by (nonlinear_arith)
                requires
                    sy == (if cy < ty { 1int } else { -1int }),
                    dy == -(if ty >= cy { ty - cy } else { cy - ty }),
            ;
            assert(dx + dy + (-dy) * dx - dx * (-dy) == dx + dy) by (nonlinear_arith);
        }
        while !finished
            invariant
                self.fits(frame@),
                tx == x1 && ty == y1,
                sx == (if x0 < x1 { 1int } else { -1int }),
                sy == (if y0 < y1 { 1int } else { -1int }),
                dx == (if x1 >= x0 { x1 - x0 } else { x0 - x1 }),
                dy == -(if y1 >= y0 { y1 - y0 } else { y0 - y1 }),
                !finished ==> line_inv(cx as int, cy as int, tx as int, ty as int, sx as int, sy as int, dx as int, dy as int, err as int),
                !finished ==> forall|px: int, py: int| #[trigger] line_pixel(x0 as int, y0 as int, x1 as int, y1 as int, px, py) == (done(px, py) || on_line(cx as int, cy as int, tx as int, ty as int, sx as int, sy as int, dx as int, dy as int, err as int, px, py)),
                finished ==> forall|px: int, py: int| #[trigger] line_pixel(x0 as int, y0 as int, x1 as int, y1 as int, px, py) == done(px, py),
                self.painted(old(frame)@, frame@, done, r, g, b),
            decreases (tx - cx) * sx + (ty - cy) * sy + (if finished { 0int } else { 1int }),
        {
            proof {
                lemma_between(cx as int, x0 as int, tx as int, sx as int, dx as int);
                lemma_between(cy as int, y0 as int, ty as int, sy as int, -dy);
                lemma_err_bounds(cx as int, cy as int, tx as int, ty as int, sx as int, sy as int, dx as int, dy as int, err as int);
            }
            let ghost f0 = frame@;
            let ghost gx = cx as int;
            let ghost gy = cy as int;
            let ghost cur_err = err as int;
            self.put_px(frame, cx as i32, cy as i32, r, g, b);
            proof {
                let d0 = done;
                done = |px: int, py: int| d0(px, py) || (px == gx && py == gy);
                self.lemma_paint_more(old(frame)@, f0, frame@, d0, |px: int, py: int| px == gx && py == gy, done, r, g, b);
            }
            if cx == tx && cy == ty {
                finished = true;
                proof {
                    assert forall|px: int, py: int| #[trigger] line_pixel(x0 as int, y0 as int, x1 as int, y1 as int, px, py) == done(px, py) by {
                        assert(on_line(gx, gy, tx as int, ty as int, sx as int, sy as int, dx as int, dy as int, cur_err, px, py) == (px == gx && py == gy));
                    }
                }
            } else {
                let e2 = 2 * err;
                if e2 >= dy as i128 {
                    err = err + dy as i128;
                    cx = cx + sx;
                }
                if e2 <= dx as i128 {
                    err = err + dx as i128;
                    cy = cy + sy;
                }
                proof {
                    lemma_line_step(gx, gy, tx as int, ty as int, sx as int, sy as int, dx as int, dy as int, cur_err);
                    assert(line_step(gx, gy, cur_err, sx as int, sy as int, dx as int, dy as int) == (cx as int, cy as int, err as int));
                    assert forall|px: int, py: int| #[trigger] line_pixel(x0 as int, y0 as int, x1 as int, y1 as int, px, py) == (done(px, py) || on_line(cx as int, cy as int, tx as int, ty as int, sx as int, sy as int, dx as int, dy as int, err as int, px, py)) by {
                        assert(on_line(gx, gy, tx as int, ty as int, sx as int, sy as int, dx as int, dy as int, cur_err, px, py) == ((px == gx && py == gy) || on_line(cx as int, cy as int, tx as int, ty as int, sx as int, sy as int, dx as int, dy as int, err as int, px, py)));
                    }
                }
            }
        }
    }

    /// Fills the `w` x `h` rectangle at (x, y), clipped to the frame.
    pub fn fill_rect(&self, frame: &mut [u8], x: i32, y: i32, w: i32, h: i32, r: u8, g: u8, b: u8)
        requires
            self.fits(old(frame)@),
            x + w <= i32::MAX + 1,
            y + h <= i32::MAX + 1,
        ensures
            self.painted(
                old(frame)@,
                final(frame)@,
                |px: int, py: int| x <= px < x + w && y <= py < y + h,
                r,
                g,
                b,
            ),
    {
        let mut yy: i32 = 0;
        while yy < h
            invariant
                0 <= yy <= h || (h < 0 && yy == 0),
                y + h <= i32::MAX + 1,
                x + w <= i32::MAX + 1,
                self.fits(frame@),
                self.painted(
                    old(frame)@,
                    frame@,
                    |px: int, py: int| x <= px < x + w && y <= py < y + yy,
                    r,
                    g,
                    b,
                ),
            decreases h - yy,
        {
            let mut xx: i32 = 0;
            while xx < w
                invariant
                    0 <= yy < h,
                    0 <= xx <= w || (w < 0 && xx == 0),
                    y + h <= i32::MAX + 1,
                    x + w <= i32::MAX + 1,
                    self.fits(frame@),
                    self.painted(
                        old(frame)@,
                        frame@,
                        |px: int, py: int|
                            (x <= px < x + w && y <= py < y + yy) || (py == y + yy && x <= px < x
                                + xx),
                        r,
                        g,
                        b,
                    ),
                decreases w - xx,
            {
                let ghost before = frame@;
                self.put_px(frame, x + xx, y + yy, r, g, b);
                proof {
                    let px0 = x + xx;
                    let py0 = y + yy;
                    self.lemma_paint_more(
                        old(frame)@,
                        before,
                        frame@,
                        |px: int, py: int|
                            (x <= px < x + w && y <= py < y + yy) || (py == y + yy && x <= px < x
                                + xx),
                        |px: int, py: int| px == px0 && py == py0,
                        |px: int, py: int|
                            (x <= px < x + w && y <= py < y + yy) || (py == y + yy && x <= px < x
                                + xx + 1),
                        r,
                        g,
                        b,
                    );
                }
                xx = xx + 1;
            }
            proof {
                let xf = xx;
                assert forall|px: int, py: int| #[trigger] self.in_frame(px, py) implies pixel(
                    frame@,
                    self.width as int,
                    px,
                    py,
                ) == if x <= px < x + w && y <= py < y + yy + 1 {
                    (r, g, b, 255u8)
                } else {
                    pixel(old(frame)@, self.width as int, px, py)
                } by {
                    assert((x <= px < x + w && y <= py < y + yy + 1) == ((x <= px < x + w && y
                        <= py < y + yy) || (py == y + yy && x <= px < x + xf)));
                }
            }
            yy = yy + 1;
        }
    }

    /// Draws the one-pixel border of the `w` x `h` rectangle at (x, y),
    /// clipped to the frame.
    pub fn rect_outline(&self, frame: &mut [u8], x: i32, y: i32, w: i32, h: i32, r: u8, g: u8, b: u8)
        requires
            self.fits(old(frame)@),
            x + w <= i32::MAX,
            y + h <= i32::MAX,
            x + w - 1 >= i32::MIN,
            y + h - 1 >= i32::MIN,
        ensures
            self.painted(
                old(frame)@,
                final(frame)@,
                |px: int, py: int|
                    (x <= px < x + w && (py == y || py == y + h - 1)) || (y <= py < y + h && (px
                        == x || px == x + w - 1)),
                r,
                g,
                b,
            ),
    {
        let mut xx: i32 = 0;
        while xx < w
            invariant
                0 <= xx <= w || (w < 0 && xx == 0),
                y + h <= i32::MAX,
                x + w <= i32::MAX,
                x + w - 1 >= i32::MIN,
                y + h - 1 >= i32::MIN,
                self.fits(frame@),
                self.painted(
                    old(frame)@,
                    frame@,
                    |px: int, py: int| x <= px < x + xx && (py == y || py == y + h - 1),
                    r,
                    g,
                    b,
                ),
            decreases w - xx,
        {
            let ghost f0 = frame@;
            self.put_px(frame, x + xx, y, r, g, b);
            let ghost f1 = frame@;
            self.put_px(frame, x + xx, y + h - 1, r, g, b);
            proof {
                let px0 = x + xx;
                let py1 = y + h - 1;
                self.lemma_paint_more(
                    old(frame)@,
                    f0,
                    f1,
                    |px: int, py: int| x <= px < x + xx && (py == y || py == y + h - 1),
                    |px: int, py: int| px == px0 && py == y,
                    |px: int, py: int| (x <= px < x + xx && (py == y || py == y + h - 1)) || (px == px0 && py == y),
                    r,
                    g,
                    b,
                );
                self.lemma_paint_more(
                    old(frame)@,
                    f1,
                    frame@,
                    |px: int, py: int| (x <= px < x + xx && (py == y || py == y + h - 1)) || (px == px0 && py == y),
                    |px: int, py: int| px == px0 && py == py1,
                    |px: int, py: int| x <= px < x + xx + 1 && (py == y || py == y + h - 1),
                    r,
                    g,
                    b,
                );
            }
            xx = xx + 1;
        }
        let ghost top = frame@;
        let mut yy: i32 = 0;
        while yy < h
            invariant
                0 <= yy <= h || (h < 0 && yy == 0),
                y + h <= i32::MAX,
                x + w <= i32::MAX,
                x + w - 1 >= i32::MIN,
                y + h - 1 >= i32::MIN,
                self.fits(frame@),
                self.painted(
                    old(frame)@,
                    frame@,
                    |px: int, py: int|
                        (x <= px < x + w && (py == y || py == y + h - 1)) || (y <= py < y + yy && (px
                            == x || px == x + w - 1)),
                    r,
                    g,
                    b,
                ),
            decreases h - yy,
        {
            let ghost f0 = frame@;
            self.put_px(frame, x, y + yy, r, g, b);
            let ghost f1 = frame@;
            self.put_px(frame, x + w - 1, y + yy, r, g, b);
            proof {
                let py0 = y + yy;
                let px1 = x + w - 1;
                self.lemma_paint_more(
                    old(frame)@,
                    f0,
                    f1,
                    |px: int, py: int|
                        (x <= px < x + w && (py == y || py == y + h - 1)) || (y <= py < y + yy && (px
                            == x || px == x + w - 1)),
                    |px: int, py: int| px == x && py == py0,
                    |px: int, py: int|
                        (x <= px < x + w && (py == y || py == y + h - 1)) || (y <= py < y + yy && (px
                            == x || px == x + w - 1)) || (px == x && py == py0),
                    r,
                    g,
                    b,
                );
                self.lemma_paint_more(
                    old(frame)@,
                    f1,
                    frame@,
                    |px: int, py: int|
                        (x <= px < x + w && (py == y || py == y + h - 1)) || (y <= py < y + yy && (px
                            == x || px == x + w - 1)) || (px == x && py == py0),
                    |px: int, py: int| px == px1 && py == py0,
                    |px: int, py: int|
                        (x <= px < x + w && (py == y || py == y + h - 1)) || (y <= py < y + yy + 1 && (px
                            == x || px == x + w - 1)),
                    r,
                    g,
                    b,
                );
            }
            yy = yy + 1;
        }
    }
}

} // verus!
