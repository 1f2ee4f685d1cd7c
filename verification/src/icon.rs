//! The window icon: a rounded green square with three white bars suggesting lines of text.
use vstd::prelude::*;

verus! {

/// Side of the square icon, in pixels.
pub const ICON_SIZE: u32 = 256;

/// A pixel: red, green, blue, alpha.
pub type Pixel = (u8, u8, u8, u8);

/// `(x, y)` lies inside the `w` × `h` rectangle anchored at the origin whose corners are
/// rounded with radius `r`.
pub open spec fn in_rounded_spec(x: int, y: int, w: int, h: int, r: int) -> bool {
    if x < 0 || y < 0 || x >= w || y >= h {
        false
    } else {
        let cx = if x < r { r } else if x >= w - r { w - 1 - r } else { x };
        let cy = if y < r { r } else if y >= h - r { h - 1 - r } else { y };
        (x - cx) * (x - cx) + (y - cy) * (y - cy) <= r * r
    }
}

/// Whether `(x, y)` lies inside a rounded rectangle (see `in_rounded_spec`).
pub fn in_rounded_rect(x: i32, y: i32, w: i32, h: i32, r: i32) -> (b: bool)
    requires
        0 <= w <= 10_000,
        0 <= h <= 10_000,
        0 <= r <= 10_000,
    ensures
        b == in_rounded_spec(x as int, y as int, w as int, h as int, r as int),
{
    if x < 0 || y < 0 || x >= w || y >= h {
        return false;
    }
    let cx = if x < r {
        r
    } else if x >= w - r {
        w - 1 - r
    } else {
        x
    };
    let cy = if y < r {
        r
    } else if y >= h - r {
        h - 1 - r
    } else {
        y
    };
    let dx = x - cx;
    let dy = y - cy;
    assert(-10_001 <= dx <= 10_001 && -10_001 <= dy <= 10_001);
    assert(dx * dx <= 10_001 * 10_001) by (nonlinear_arith)
        requires
            -10_001 <= dx <= 10_001,
    ;
    assert(dy * dy <= 10_001 * 10_001) by (nonlinear_arith)
        requires
            -10_001 <= dy <= 10_001,
    ;
    assert(r * r <= 10_000 * 10_000) by (nonlinear_arith)
        requires
            0 <= r <= 10_000,
    ;
    assert(0 <= dx * dx && 0 <= dy * dy) by (nonlinear_arith);
    dx * dx + dy * dy <= r * r
}

/// The green of the icon's background.
pub open spec fn background() -> Pixel {
    (45, 180, 140, 255)
}

/// The white of the icon's bars.
pub open spec fn white() -> Pixel {
    (255, 255, 255, 255)
}

/// `(x, y)` lies on one of the three bars: rounded with radius 8, 22 pixels high, 136,
/// 104 and 72 pixels wide, starting at `(60, 84)`, `(60, 122)` and `(60, 160)`.
pub open spec fn on_bar(x: int, y: int) -> bool {
    ||| in_rounded_spec(x - 60, y - 84, 136, 22, 8)
    ||| in_rounded_spec(x - 60, y - 122, 104, 22, 8)
    ||| in_rounded_spec(x - 60, y - 160, 72, 22, 8)
}

/// The colour of pixel `(x, y)`: white on a bar, green inside the square with corners of
/// radius 36, transparent elsewhere.
pub open spec fn icon_pixel_spec(x: int, y: int) -> Pixel {
    if on_bar(x, y) {
        white()
    } else if in_rounded_spec(x, y, ICON_SIZE as int, ICON_SIZE as int, 36) {
        background()
    } else {
        (0, 0, 0, 0)
    }
}

/// The colour of the icon's pixel `(x, y)`.
pub fn icon_pixel(x: u32, y: u32) -> (p: Pixel)
    requires
        x < ICON_SIZE,
        y < ICON_SIZE,
    ensures
        p == icon_pixel_spec(x as int, y as int),
{
    let xi = x as i32;
    let yi = y as i32;
    if in_rounded_rect(xi - 60, yi - 84, 136, 22, 8) || in_rounded_rect(xi - 60, yi - 122, 104, 22, 8)
        || in_rounded_rect(xi - 60, yi - 160, 72, 22, 8) {
        (255, 255, 255, 255)
    } else if in_rounded_rect(xi, yi, 256, 256, 36) {
        (45, 180, 140, 255)
    } else {
        (0, 0, 0, 0)
    }
}

/// The icon's pixels, row by row from the top, each row from the left.
pub fn icon_pixels() -> (v: Vec<Pixel>)
    ensures
        v@.len() == ICON_SIZE * ICON_SIZE,
        forall|y: int, x: int|
            0 <= y < ICON_SIZE && 0 <= x < ICON_SIZE ==> #[trigger] v@[y * 256 + x]
                == icon_pixel_spec(x, y),
{
    let mut v: Vec<Pixel> = Vec::new();
    let mut y: u32 = 0;
    while y < ICON_SIZE
        invariant
            y <= ICON_SIZE,
            v@.len() == y * 256,
            forall|yy: int, xx: int|
                0 <= yy < y && 0 <= xx < 256 ==> #[trigger] v@[yy * 256 + xx] == icon_pixel_spec(
                    xx,
                    yy,
                ),
        decreases ICON_SIZE - y,
    {
        let mut x: u32 = 0;
        while x < ICON_SIZE
            invariant
                y < ICON_SIZE,
                x <= ICON_SIZE,
                v@.len() == y * 256 + x,
                forall|yy: int, xx: int|
                    0 <= yy < y && 0 <= xx < 256 ==> #[trigger] v@[yy * 256 + xx]
                        == icon_pixel_spec(xx, yy),
                forall|xx: int| 0 <= xx < x ==> #[trigger] v@[y * 256 + xx] == icon_pixel_spec(xx, y as int),
            decreases ICON_SIZE - x,
        {
            let p = icon_pixel(x, y);
            v.push(p);
            x = x + 1;
        }
        y = y + 1;
    }
    v
}

} // verus!
