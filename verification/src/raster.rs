//! Per-pixel rasterization of a tile code.
//!
//! A tile cell is a `w` by `h` block of pixels; pixel `(x, y)` stands for
//! the normalized point `(x/w, y/h)` of the unit square.  The two diagonals
//! of the square split it into four triangles, one touching each edge; a
//! pixel is foreground when it lies in the triangle of some edge whose
//! connector bit is set in the code, and background otherwise.  All
//! comparisons are carried out on the integer cross products, so no pixel
//! is ever left without a color.

use vstd::prelude::*;
use crate::TileError;
use crate::tile::bit_of;
use crate::tile::get_bit;

verus! {

/// A pixel color as three channel values, red, green, blue.
#[derive(Debug)]
pub struct RGB(pub u8, pub u8, pub u8);

/// The packed form of a color: the three channel values as the three low
/// bytes of one integer, red highest, then green, then blue.
pub open spec fn packed(r: u8, g: u8, b: u8) -> int {
    r * 0x10000 + g * 0x100 + b
}

impl RGB {
    pub fn to_u32(&self) -> (r: u32)
        ensures
            r == packed(self.0, self.1, self.2),
    {
        proof {
            lemma_channel_shifts(self.0, self.1);
        }
        ((self.0 as u32) << 16) + ((self.1 as u32) << 8) + (self.2 as u32)
    }
}

/// Shifting a channel value left by sixteen or eight bits multiplies it by
/// the matching byte weight without overflowing 32 bits.
proof fn lemma_channel_shifts(r: u8, g: u8)
    by (bit_vector)
    ensures
        (r as u32) << 16 == (r as u32) * 0x10000,
        (g as u32) << 8 == (g as u32) * 0x100,
{
}

/// The foreground color, a dark green.
pub open spec fn foreground() -> (u8, u8, u8) {
    (0u8, 0x0au8, 0u8)
}

/// The background color, white.
pub open spec fn background() -> (u8, u8, u8) {
    (0xffu8, 0xffu8, 0xffu8)
}

/// Point `(x/w, y/h)` lies in the triangle touching the North edge:
/// on or above both diagonals of the unit square.
pub open spec fn north_region(x: int, y: int, w: int, h: int) -> bool {
    x * h >= y * w && x * h + y * w <= w * h
}

/// Point `(x/w, y/h)` lies in the triangle touching the East edge.
pub open spec fn east_region(x: int, y: int, w: int, h: int) -> bool {
    x * h >= y * w && x * h + y * w >= w * h
}

/// Point `(x/w, y/h)` lies in the triangle touching the South edge.
pub open spec fn south_region(x: int, y: int, w: int, h: int) -> bool {
    y * w >= x * h && x * h + y * w >= w * h
}

/// Point `(x/w, y/h)` lies in the triangle touching the West edge.
pub open spec fn west_region(x: int, y: int, w: int, h: int) -> bool {
    y * w >= x * h && x * h + y * w <= w * h
}

/// Point `(x/w, y/h)` lies in the union of the triangles of the edges
/// whose connector bits are set in code `n`.
pub open spec fn tile_region(n: u8, x: int, y: int, w: int, h: int) -> bool {
    ||| (bit_of(n as u32, 0) && north_region(x, y, w, h))
    ||| (bit_of(n as u32, 1) && east_region(x, y, w, h))
    ||| (bit_of(n as u32, 2) && south_region(x, y, w, h))
    ||| (bit_of(n as u32, 3) && west_region(x, y, w, h))
}

/// Draw tiles: the color of pixel `(x, y)` in a `w` by `h` cell painted
/// with tile code `n`.
///
/// For every code in range and every pixel of the cell the result is
/// exactly one of the two defined colors: the foreground on the region of
/// the code's connectors, the background elsewhere.  A code outside
/// `[0, 15]` is rejected with `InvalidArgument`.
pub fn draw(x: u32, y: u32, w: u32, h: u32, n: u8) -> (r: Result<RGB, TileError>)
    requires
        x < w,
        y < h,
    ensures
        n >= 16 ==> (r matches Err(err) && err == TileError::InvalidArgument),
        n < 16 ==> (r matches Ok(c) && ((c.0, c.1, c.2) == (
            if tile_region(n, x as int, y as int, w as int, h as int) {
                foreground()
            } else {
                background()
            }
        ))),
{
    if n >= 16 {
        return Err(TileError::InvalidArgument);
    }
    proof {
        assert((x as int) * (h as int) <= 0xffff_ffff * 0xffff_ffff && (y as int) * (w as int)
            <= 0xffff_ffff * 0xffff_ffff && (w as int) * (h as int) <= 0xffff_ffff * 0xffff_ffff)
            by (nonlinear_arith)
            requires
                x <= 0xffff_ffffu32,
                y <= 0xffff_ffffu32,
                w <= 0xffff_ffffu32,
                h <= 0xffff_ffffu32,
        ;
    }
    let xh = (x as u128) * (h as u128);
    let yw = (y as u128) * (w as u128);
    let wh = (w as u128) * (h as u128);
    let above = xh >= yw;
    let below = yw >= xh;
    let upper = xh + yw <= wh;
    let lower = xh + yw >= wh;
    let res: bool = (get_bit(n as u32, 0) && above && upper) || (get_bit(n as u32, 1) && above
        && lower) || (get_bit(n as u32, 2) && below && lower) || (get_bit(n as u32, 3) && below
        && upper);
    if res {
        Ok(RGB(0x00, 0x0a, 0x00))
    } else {
        Ok(RGB(0xff, 0xff, 0xff))
    }
}

/// The packed color of pixel `j` (row-major) of a `width` by `height`
/// image painted from the grid `g` of `tw` by `th` tiles: the pixel's tile
/// is looked up by block, and the pixel's offsets inside that block decide
/// foreground or background through the tile's region.
pub open spec fn pixel_value(g: Seq<u8>, width: int, height: int, tw: int, th: int, j: int) -> int {
    let px = j % width;
    let py = j / width;
    let cw = width / tw;
    let ch = height / th;
    let code = g[(py / ch) * tw + px / cw];
    if tile_region(code, px % cw, py % ch, cw, ch) {
        packed(0, 0x0a, 0)
    } else {
        packed(0xff, 0xff, 0xff)
    }
}

/// Paint the whole image: every pixel of the `width` by `height` buffer is
/// written exactly once, with the packed color that `draw` gives it inside
/// its tile's block.
pub fn render(grid: &Vec<u8>, width: usize, height: usize, tiles_w: usize, tiles_h: usize) -> (r:
    Vec<u32>)
    requires
        tiles_w >= 1,
        tiles_h >= 1,
        width >= 1,
        height >= 1,
        width % tiles_w == 0,
        height % tiles_h == 0,
        width <= 0xffff_ffff,
        height <= 0xffff_ffff,
        width * height <= usize::MAX,
        grid@.len() == tiles_w * tiles_h,
        forall|i: int| 0 <= i < grid@.len() ==> grid@[i] < 16,
    ensures
        r@.len() == width * height,
        forall|j: int|
            0 <= j < r@.len() ==> r@[j] == pixel_value(
                grid@,
                width as int,
                height as int,
                tiles_w as int,
                tiles_h as int,
                j,
            ),
{
    let cw = width / tiles_w;
    let ch = height / tiles_h;
    proof {
        vstd::arithmetic::div_mod::lemma_fundamental_div_mod(width as int, tiles_w as int);
        vstd::arithmetic::div_mod::lemma_fundamental_div_mod(height as int, tiles_h as int);
        assert(cw as int >= 1 && ch as int >= 1) by (nonlinear_arith)
            requires
                width as int == tiles_w as int * (cw as int),
                height as int == tiles_h as int * (ch as int),
                tiles_w >= 1,
                tiles_h >= 1,
                width >= 1,
                height >= 1,
                cw as int >= 0,
                ch as int >= 0,
        ;
    }
    let glen = grid.len();
    let total = width * height;
    let mut buf: Vec<u32> = Vec::new();
    let mut k: usize = 0;
    while k < total
        invariant
            tiles_w >= 1,
            tiles_h >= 1,
            width >= 1,
            height >= 1,
            width <= 0xffff_ffff,
            height <= 0xffff_ffff,
            cw == width as int / tiles_w as int,
            ch == height as int / tiles_h as int,
            cw >= 1,
            ch >= 1,
            width as int == tiles_w as int * (cw as int),
            height as int == tiles_h as int * (ch as int),
            total == width * height,
            grid@.len() == tiles_w * tiles_h,
            grid@.len() <= usize::MAX,
            forall|i: int| 0 <= i < grid@.len() ==> grid@[i] < 16,
            buf@.len() == k,
            k <= total,
            forall|j: int|
                0 <= j < k ==> buf@[j] == pixel_value(
                    grid@,
                    width as int,
                    height as int,
                    tiles_w as int,
                    tiles_h as int,
                    j,
                ),
        decreases total - k,
    {
        let px = k % width;
        let py = k / width;
        proof {
            let chi = ch as int;
            let thi = tiles_h as int;
            let cwi = cw as int;
            let twi = tiles_w as int;
            vstd::arithmetic::div_mod::lemma_multiply_divide_lt(k as int, width as int, height as int);
            assert(chi * thi == thi * chi && cwi * twi == twi * cwi) by (nonlinear_arith);
            assert(py < chi * thi);
            assert(px < cwi * twi);
            vstd::arithmetic::div_mod::lemma_multiply_divide_lt(py as int, chi, thi);
            vstd::arithmetic::div_mod::lemma_multiply_divide_lt(px as int, cwi, twi);
        }
        let tx = px / cw;
        let ty = py / ch;
        proof {
            let tyi = ty as int;
            let txi = tx as int;
            let twi = tiles_w as int;
            let thi = tiles_h as int;
            assert(tyi * twi + txi < twi * thi && 0 <= tyi * twi) by (nonlinear_arith)
                requires
                    0 <= tyi,
                    tyi < thi,
                    0 <= txi,
                    txi < twi,
            ;
        }
        let ti = ty * tiles_w + tx;
        let code = grid[ti];
        let ux = px % cw;
        let vy = py % ch;
        let c = match draw(ux as u32, vy as u32, cw as u32, ch as u32, code) {
            Ok(c) => c,
            Err(_) => RGB(0, 0, 0),
        };
        let val = c.to_u32();
        buf.push(val);
        k = k + 1;
    }
    buf
}

} // verus!
