//! Web Mercator as on OpenStreetMap: at zoom `z` the world is a square of
//! `2^z` by `2^z` tiles of 256 pixels.

use crate::text;
use vstd::arithmetic::power2::*;
use vstd::bits::*;
use vstd::prelude::*;

verus! {

pub const MIN_ZOOM: u8 = 3;

pub const MAX_ZOOM: u8 = 18;

/// A tile of the chart.
#[derive(Clone, Copy, Debug, PartialEq, Eq, Hash, Structural)]
pub struct Tile {
    pub z: u8,
    /// Column without a wrap at the date line; it decides where the tile is
    /// shown.
    pub x: i64,
    pub y: i64,
}

/// Column of a tile around the world.
pub open spec fn wrapped(x: int, z: nat) -> int {
    x % (pow2(z) as int)
}

/// Column of a tile around the world.
fn wrap(x: i64, z: u8) -> (r: u64)
    requires
        z <= 63,
    ensures
        r == wrapped(x as int, z as nat),
{
    proof {
        lemma2_to64();
        lemma_pow2_pos(z as nat);
        lemma_u64_pow2_no_overflow(z as nat);
        lemma_u64_shl_is_mul(1, z as u64);
        lemma_u64_low_bits_mask_is_mod(x as u64, z as nat);
        lemma_pow2_adds(z as nat, (64 - z) as nat);
        assert(x as u64 == if x < 0 {
            x + 0x1_0000_0000_0000_0000
        } else {
            x as int
        }) by (bit_vector);
        vstd::arithmetic::div_mod::lemma_mod_multiples_vanish(
            pow2((64 - z) as nat) as int,
            x as int,
            pow2(z as nat) as int,
        );
    }
    let mask: u64 = (1u64 << z) - 1;
    x as u64 & mask
}

/// Address of a tile.
pub open spec fn tile_url(t: Tile) -> Seq<char> {
    "https://tile.openstreetmap.org/"@ + text::decimal(t.z as nat) + seq!['/'] + text::decimal(
        wrapped(t.x as int, t.z as nat) as nat,
    ) + seq!['/'] + text::signed_decimal(t.y as int) + ".png"@
}

impl Tile {
    /// Address of the tile.
    pub fn url(&self) -> (s: String)
        requires
            self.z <= 63,
        ensures
            s@ == tile_url(*self),
    {
        let mut s = String::new();
        text::push_str(&mut s, "https://tile.openstreetmap.org/");
        text::push_decimal(&mut s, self.z as u64);
        s.push('/');
        text::push_decimal(&mut s, wrap(self.x, self.z));
        s.push('/');
        text::push_signed(&mut s, self.y);
        text::push_str(&mut s, ".png");
        assert(s@ =~= tile_url(*self));
        s
    }
}

/// A column once around the world is the same tile.
pub proof fn law_world_is_round(x: int, z: nat)
    ensures
        wrapped(x + pow2(z), z) == wrapped(x, z),
        0 <= wrapped(x, z) < pow2(z),
{
    lemma_pow2_pos(z);
    vstd::arithmetic::div_mod::lemma_mod_add_multiples_vanish(x, pow2(z) as int);
}

/// Tiles of one row from column `x0` on.
pub open spec fn tile_row(z: u8, y: int, x0: int, n: nat) -> Seq<Tile> {
    Seq::new(n, |i: int| Tile { z, x: (x0 + i) as i64, y: y as i64 })
}

/// Tiles of `h` rows of `w` columns each, row by row.
pub open spec fn tile_grid(z: u8, x0: int, w: nat, y0: int, h: nat) -> Seq<Tile>
    decreases h,
{
    if h == 0 {
        Seq::empty()
    } else {
        tile_grid(z, x0, w, y0, (h - 1) as nat) + tile_row(z, y0 + h - 1, x0, w)
    }
}

/// Number of integers from `a` to `b`.
pub open spec fn span(a: int, b: int) -> nat {
    if b < a {
        0
    } else {
        (b - a + 1) as nat
    }
}

pub open spec fn max(a: int, b: int) -> int {
    if a > b {
        a
    } else {
        b
    }
}

pub open spec fn min(a: int, b: int) -> int {
    if a < b {
        a
    } else {
        b
    }
}

/// All tiles that a view touches which reaches from column `x0` to `x1` and
/// from row `y0` to `y1`. There are no rows beyond the poles.
pub fn visible_tiles(x0: i64, x1: i64, y0: i64, y1: i64, zoom: u8) -> (r: Vec<Tile>)
    requires
        zoom <= 62,
    ensures
        r@ == tile_grid(
            zoom,
            x0 as int,
            span(x0 as int, x1 as int),
            max(y0 as int, 0),
            span(max(y0 as int, 0), min(y1 as int, pow2(zoom as nat) - 1)),
        ),
{
    proof {
        lemma2_to64();
        lemma_pow2_pos(zoom as nat);
        lemma_u64_pow2_no_overflow(zoom as nat);
        lemma_u64_shl_is_mul(1, zoom as u64);
        lemma2_to64_rest();
        if zoom < 62 {
            lemma_pow2_strictly_increases(zoom as nat, 62);
        }
    }
    let n: i64 = (1u64 << zoom) as i64;
    let top: i64 = if y0 > 0 {
        y0
    } else {
        0
    };
    let bottom: i64 = if y1 < n - 1 {
        y1
    } else {
        n - 1
    };
    let ghost w = span(x0 as int, x1 as int);
    let mut r: Vec<Tile> = Vec::new();
    let mut y: i64 = top;
    while y <= bottom
        invariant
            top <= y,
            0 <= top,
            bottom < i64::MAX,
            y <= bottom + 1 || y == top,
            w == span(x0 as int, x1 as int),
            r@ == tile_grid(zoom, x0 as int, w, top as int, (y - top) as nat),
        decreases bottom - y + 1,
    {
        let ghost above = r@;
        let mut x: i64 = x0;
        let mut more: bool = x0 <= x1;
        assert(above + tile_row(zoom, y as int, x0 as int, 0) =~= above);
        while more
            invariant
                w == span(x0 as int, x1 as int),
                more ==> x0 <= x <= x1,
                !more ==> x0 > x1 || x == x1,
                r@ == above + tile_row(
                    zoom,
                    y as int,
                    x0 as int,
                    if more {
                        (x - x0) as nat
                    } else {
                        w
                    },
                ),
            decreases x1 - x + (if more {
                1int
            } else {
                0int
            }),
        {
            r.push(Tile { z: zoom, x, y });
            assert(r@ =~= above + tile_row(zoom, y as int, x0 as int, (x - x0 + 1) as nat));
            if x == x1 {
                more = false;
            } else {
                x += 1;
            }
        }
        y += 1;
    }
    r
}

proof fn lemma_grid_holds(z: u8, x0: int, w: nat, y0: int, h: nat, x: int, y: int)
    requires
        i64::MIN <= x0,
        x0 + w <= i64::MAX + 1,
        i64::MIN <= y0,
        y0 + h <= i64::MAX + 1,
        x0 <= x < x0 + w,
        y0 <= y < y0 + h,
    ensures
        tile_grid(z, x0, w, y0, h).contains(Tile { z, x: x as i64, y: y as i64 }),
    decreases h,
{
    let t = Tile { z, x: x as i64, y: y as i64 };
    let g = tile_grid(z, x0, w, y0, h);
    let above = tile_grid(z, x0, w, y0, (h - 1) as nat);
    if y == y0 + h - 1 {
        assert(g[above.len() + (x - x0)] == t);
    } else {
        lemma_grid_holds(z, x0, w, y0, (h - 1) as nat, x, y);
        let i = choose|i: int| 0 <= i < above.len() && above[i] == t;
        assert(g[i] == t);
    }
}

/// The grid holds every tile of its rectangle.
pub proof fn law_view_is_covered(x0: i64, x1: i64, y0: i64, y1: i64, zoom: u8, x: i64, y: i64)
    requires
        zoom <= 62,
        x0 <= x <= x1,
        y0 <= y <= y1,
        0 <= y < pow2(zoom as nat),
    ensures
        tile_grid(
            zoom,
            x0 as int,
            span(x0 as int, x1 as int),
            max(y0 as int, 0),
            span(max(y0 as int, 0), min(y1 as int, pow2(zoom as nat) - 1)),
        ).contains(Tile { z: zoom, x, y }),
{
    lemma_grid_holds(
        zoom,
        x0 as int,
        span(x0 as int, x1 as int),
        max(y0 as int, 0),
        span(max(y0 as int, 0), min(y1 as int, pow2(zoom as nat) - 1)),
        x as int,
        y as int,
    );
}

/// The zoom after `delta` steps, within its limits.
pub fn zoomed(zoom: u8, delta: i8) -> (r: u8)
    requires
        zoom <= 127,
        -128 <= zoom + delta <= 127,
    ensures
        r == (if zoom + delta < MIN_ZOOM {
            MIN_ZOOM as int
        } else if zoom + delta > MAX_ZOOM {
            MAX_ZOOM as int
        } else {
            zoom + delta
        }),
        MIN_ZOOM <= r <= MAX_ZOOM,
{
    let z: i8 = zoom as i8 + delta;
    if z < 3 {
        MIN_ZOOM
    } else if z > 18 {
        MAX_ZOOM
    } else {
        z as u8
    }
}

/// The grid holds only tiles of its rectangle, each once.
pub proof fn law_grid_is_the_rectangle(z: u8, x0: i64, w: nat, y0: i64, h: nat)
    requires
        x0 + w <= i64::MAX,
        y0 + h <= i64::MAX,
    ensures
        ({
            let g = tile_grid(z, x0 as int, w, y0 as int, h);
            &&& g.len() == w * h
            &&& forall|i: int|
                0 <= i < g.len() ==> {
                    &&& (#[trigger] g[i]).z == z
                    &&& x0 <= g[i].x < x0 + w
                    &&& y0 <= g[i].y < y0 + h
                }
            &&& forall|i: int, j: int|
                0 <= i < j < g.len() ==> #[trigger] g[i] != #[trigger] g[j]
        }),
    decreases h,
{
    if h > 0 {
        let before = tile_grid(z, x0 as int, w, y0 as int, (h - 1) as nat);
        let row = tile_row(z, y0 + h - 1, x0 as int, w);
        let g = tile_grid(z, x0 as int, w, y0 as int, h);
        law_grid_is_the_rectangle(z, x0, w, y0, (h - 1) as nat);
        assert(w * h == w * (h - 1) + w) by (nonlinear_arith);
        assert forall|i: int, j: int| 0 <= i < j < g.len() implies #[trigger] g[i]
            != #[trigger] g[j] by {
            if j < before.len() {
                assert(before[i] != before[j]);
            } else if i < before.len() {
                assert(g[i] == before[i]);
                assert(g[j] == row[j - before.len()]);
            } else {
                assert(g[i] == row[i - before.len()] && g[j] == row[j - before.len()]);
            }
        }
        assert forall|i: int| 0 <= i < g.len() implies {
            &&& (#[trigger] g[i]).z == z
            &&& x0 <= g[i].x < x0 + w
            &&& y0 <= g[i].y < y0 + h
        } by {
            if i < before.len() {
                assert(g[i] == before[i]);
            } else {
                assert(g[i] == row[i - before.len()]);
            }
        }
    } else {
        assert(w * h == 0) by (nonlinear_arith)
            requires
                h == 0,
        ;
    }
}

} // verus!
