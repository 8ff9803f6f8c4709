//! The 64x32 monochrome display: a flat row-major grid of boolean pixels with
//! XOR drawing, wraparound coordinates, and collision reporting.

use vstd::prelude::*;
use vstd::arithmetic::div_mod::{
    lemma_add_mod_noop, lemma_fundamental_div_mod, lemma_fundamental_div_mod_converse_div,
    lemma_fundamental_div_mod_converse_mod, lemma_mod_add_multiples_vanish,
    lemma_mod_sub_multiples_vanish, lemma_small_mod,
};
use crate::util::spec_get_bit_at;
use crate::vm::Chip8Error;

verus! {

/// The flat index of the pixel drawn at coordinates `(x, y)`, after both
/// coordinates wrap around the 64x32 grid.
pub open spec fn spec_pix(x: int, y: int) -> int {
    (y % 32) * 64 + (x % 64)
}

/// A screen with every pixel off.
pub open spec fn blank_screen() -> Seq<bool> {
    Seq::new(2048, |p: int| false)
}

/// Bit `i` of a sprite byte, counted from the most significant bit, as drawn
/// left to right.
pub open spec fn sprite_bit(b: u8, i: int) -> bool {
    spec_get_bit_at(b, (7 - i) as u8) != 0
}

/// The grid after one pixel value `p` is XORed in at wrapped `(x, y)`.
pub open spec fn spec_set_pixel(g: Seq<bool>, x: int, y: int, p: bool) -> Seq<bool> {
    g.update(spec_pix(x, y), g[spec_pix(x, y)] != p)
}

/// Whether XORing `p` in at wrapped `(x, y)` turns a lit pixel off.
pub open spec fn spec_set_pixel_hits(g: Seq<bool>, x: int, y: int, p: bool) -> bool {
    p && g[spec_pix(x, y)]
}

/// The grid after the first `k` bits of sprite byte `b` are XORed in,
/// most significant bit first, starting at wrapped `(x, y)`.
pub open spec fn spec_draw_byte_upto(g: Seq<bool>, x: int, y: int, b: u8, k: int) -> Seq<bool>
    decreases k,
{
    if k <= 0 {
        g
    } else {
        let prev = spec_draw_byte_upto(g, x, y, b, k - 1);
        spec_set_pixel(prev, x + (k - 1), y, sprite_bit(b, k - 1))
    }
}

/// The grid after a full 8-pixel sprite row is XORed in at wrapped `(x, y)`.
pub open spec fn spec_draw_byte(g: Seq<bool>, x: int, y: int, b: u8) -> Seq<bool> {
    spec_draw_byte_upto(g, x, y, b, 8)
}

/// Whether any of the first `k` bits of the row turns a lit pixel off.
pub open spec fn spec_draw_byte_hits_upto(g: Seq<bool>, x: int, y: int, b: u8, k: int) -> bool
    decreases k,
{
    if k <= 0 {
        false
    } else {
        spec_draw_byte_hits_upto(g, x, y, b, k - 1) || spec_set_pixel_hits(
            spec_draw_byte_upto(g, x, y, b, k - 1),
            x + (k - 1),
            y,
            sprite_bit(b, k - 1),
        )
    }
}

/// Whether drawing the full row at wrapped `(x, y)` turns any lit pixel off.
pub open spec fn spec_draw_byte_hits(g: Seq<bool>, x: int, y: int, b: u8) -> bool {
    spec_draw_byte_hits_upto(g, x, y, b, 8)
}

/// How far column `c` sits to the right of the wrapped start column of a row
/// drawn at `x`, measured around the 64-pixel ring.
pub open spec fn spec_col_off(x: int, c: int) -> int {
    (c - x % 64 + 64) % 64
}

/// The value of pixel `p` after the first `k` bits of a row drawn at `(x, y)`:
/// the pixel is flipped by bit `i` exactly when it lies in the drawn row and
/// `i` columns to the right of the wrapped start.
pub open spec fn spec_draw_byte_cell(g: Seq<bool>, x: int, y: int, b: u8, k: int, p: int) -> bool {
    let off = spec_col_off(x, p % 64);
    if p / 64 == y % 32 && off < k {
        g[p] != sprite_bit(b, off)
    } else {
        g[p]
    }
}

/// The grid after the first `k` rows of a sprite are drawn, row `j` at
/// wrapped `(x, y + j)`.
pub open spec fn spec_draw_sprite_upto(
    g: Seq<bool>,
    x: int,
    y: int,
    rows: Seq<u8>,
    k: int,
) -> Seq<bool>
    decreases k,
{
    if k <= 0 {
        g
    } else {
        spec_draw_byte(spec_draw_sprite_upto(g, x, y, rows, k - 1), x, y + (k - 1), rows[k - 1])
    }
}

/// The grid after a whole sprite is drawn at wrapped `(x, y)`.
pub open spec fn spec_draw_sprite(g: Seq<bool>, x: int, y: int, rows: Seq<u8>) -> Seq<bool> {
    spec_draw_sprite_upto(g, x, y, rows, rows.len() as int)
}

/// Whether any of the first `k` sprite rows turns a lit pixel off.
pub open spec fn spec_draw_sprite_hits_upto(
    g: Seq<bool>,
    x: int,
    y: int,
    rows: Seq<u8>,
    k: int,
) -> bool
    decreases k,
{
    if k <= 0 {
        false
    } else {
        spec_draw_sprite_hits_upto(g, x, y, rows, k - 1) || spec_draw_byte_hits(
            spec_draw_sprite_upto(g, x, y, rows, k - 1),
            x,
            y + (k - 1),
            rows[k - 1],
        )
    }
}

/// Whether drawing a whole sprite at wrapped `(x, y)` turns any lit pixel off.
pub open spec fn spec_draw_sprite_hits(g: Seq<bool>, x: int, y: int, rows: Seq<u8>) -> bool {
    spec_draw_sprite_hits_upto(g, x, y, rows, rows.len() as int)
}

/// How far row `r` sits below the wrapped start row of a sprite drawn at `y`,
/// measured around the 32-row ring.
pub open spec fn spec_row_off(y: int, r: int) -> int {
    (r - y % 32 + 32) % 32
}

/// The value of pixel `p` after the first `k` rows of a sprite are drawn:
/// the pixel is flipped exactly when its row is one of the `k` drawn rows and
/// its column lies in the 8-pixel window of that row.
pub open spec fn spec_draw_sprite_cell(
    g: Seq<bool>,
    x: int,
    y: int,
    rows: Seq<u8>,
    k: int,
    p: int,
) -> bool {
    let roff = spec_row_off(y, p / 64);
    let coff = spec_col_off(x, p % 64);
    if roff < k && coff < 8 {
        g[p] != sprite_bit(rows[roff], coff)
    } else {
        g[p]
    }
}

/// Shifting a start point by `i < d` and wrapping commutes with taking
/// offsets around a ring of size `d`.
proof fn lemma_ring_off(a: int, i: int, d: int)
    requires
        a >= 0,
        d > 0,
        0 <= i < d,
    ensures
        (a % d + i) % d == (a + i) % d,
        ((a + i) % d - a % d + d) % d == i,
{
    let m = a % d;
    lemma_add_mod_noop(a, i, d);
    lemma_small_mod(i as nat, d as nat);
    assert((a + i) % d == (m + i) % d);
    if m + i < d {
        lemma_small_mod((m + i) as nat, d as nat);
        assert((a + i) % d == m + i);
        lemma_mod_add_multiples_vanish(i, d);
        lemma_small_mod(i as nat, d as nat);
        assert((m + i - m + d) % d == i);
    } else {
        lemma_mod_sub_multiples_vanish(m + i, d);
        lemma_small_mod((m + i - d) as nat, d as nat);
        assert((a + i) % d == m + i - d);
        lemma_small_mod(i as nat, d as nat);
        assert((m + i - d - m + d) % d == i);
    }
}

/// A point of the ring is recovered from its wrapped offset: moving `off`
/// steps from the wrapped start lands back on column `c`.
proof fn lemma_ring_off_inv(a: int, c: int, d: int)
    requires
        a >= 0,
        d > 0,
        0 <= c < d,
    ensures
        0 <= (c - a % d + d) % d < d,
        (a + ((c - a % d + d) % d)) % d == c,
{
    let m = a % d;
    let off = (c - m + d) % d;
    if c >= m {
        lemma_mod_sub_multiples_vanish(c - m + d, d);
        lemma_small_mod((c - m) as nat, d as nat);
        assert(off == c - m);
    } else {
        lemma_small_mod((c - m + d) as nat, d as nat);
        assert(off == c - m + d);
    }
    lemma_add_mod_noop(a, off, d);
    lemma_small_mod(off as nat, d as nat);
    assert((a + off) % d == (m + off) % d);
    if c >= m {
        lemma_small_mod(c as nat, d as nat);
        assert((m + off) % d == c % d);
    } else {
        lemma_mod_sub_multiples_vanish(m + off, d);
        lemma_small_mod(c as nat, d as nat);
        assert((m + off - d) % d == c % d);
    }
}

/// Every wrapped pixel index lies inside the flat grid.
pub proof fn lemma_pix_bounds(x: int, y: int)
    ensures
        0 <= spec_pix(x, y) < 2048,
{
    assert(0 <= y % 32 < 32);
    assert(0 <= x % 64 < 64);
}

/// A wrapped pixel index decomposes back into its row and column.
pub proof fn lemma_pix_decompose(x: int, y: int)
    ensures
        spec_pix(x, y) / 64 == y % 32,
        spec_pix(x, y) % 64 == x % 64,
{
    lemma_fundamental_div_mod_converse_div(spec_pix(x, y), 64, y % 32, x % 64);
    lemma_fundamental_div_mod_converse_mod(spec_pix(x, y), 64, y % 32, x % 64);
}

/// Pointwise description of a partially drawn row: after `k` bits, pixel `p`
/// holds exactly the value `spec_draw_byte_cell` assigns it.
proof fn lemma_draw_byte_upto_cells(g: Seq<bool>, x: int, y: int, b: u8, k: int)
    requires
        g.len() == 2048,
        x >= 0,
        y >= 0,
        0 <= k <= 8,
    ensures
        spec_draw_byte_upto(g, x, y, b, k).len() == 2048,
        forall|p: int|
            0 <= p < 2048 ==> spec_draw_byte_upto(g, x, y, b, k)[p] == spec_draw_byte_cell(
                g,
                x,
                y,
                b,
                k,
                p,
            ),
    decreases k,
{
    if k > 0 {
        lemma_draw_byte_upto_cells(g, x, y, b, k - 1);
        let prev = spec_draw_byte_upto(g, x, y, b, k - 1);
        let target = spec_pix(x + (k - 1), y);
        lemma_pix_bounds(x + (k - 1), y);
        lemma_pix_decompose(x + (k - 1), y);
        lemma_ring_off(x, k - 1, 64);
        assert(spec_col_off(x, target % 64) == k - 1);
        assert forall|p: int| 0 <= p < 2048 implies spec_draw_byte_upto(g, x, y, b, k)[p]
            == spec_draw_byte_cell(g, x, y, b, k, p) by {
            lemma_fundamental_div_mod(p, 64);
            assert(prev[p] == spec_draw_byte_cell(g, x, y, b, k - 1, p));
            if p == target {
                assert(spec_draw_byte_upto(g, x, y, b, k)[p] == (prev[p] != sprite_bit(b, k - 1)));
                assert(spec_draw_byte_cell(g, x, y, b, k - 1, p) == g[p]);
                assert(spec_draw_byte_cell(g, x, y, b, k, p) == (g[p] != sprite_bit(b, k - 1)));
            } else {
                assert(spec_draw_byte_upto(g, x, y, b, k)[p] == prev[p]);
                if p / 64 == y % 32 && spec_col_off(x, p % 64) == k - 1 {
                    lemma_ring_off_inv(x, p % 64, 64);
                    assert((x + (k - 1)) % 64 == p % 64);
                    assert(p == target);
                }
                assert(spec_draw_byte_cell(g, x, y, b, k, p) == spec_draw_byte_cell(
                    g,
                    x,
                    y,
                    b,
                    k - 1,
                    p,
                ));
            }
        }
    }
}

/// Pointwise description of a fully drawn row.
pub proof fn lemma_draw_byte_cells(g: Seq<bool>, x: int, y: int, b: u8)
    requires
        g.len() == 2048,
        x >= 0,
        y >= 0,
    ensures
        spec_draw_byte(g, x, y, b).len() == 2048,
        forall|p: int|
            0 <= p < 2048 ==> spec_draw_byte(g, x, y, b)[p] == spec_draw_byte_cell(
                g,
                x,
                y,
                b,
                8,
                p,
            ),
{
    lemma_draw_byte_upto_cells(g, x, y, b, 8);
}

/// A partially drawn row turns some lit pixel off exactly when one of its
/// first `k` set bits lands on a lit pixel of the original grid.
proof fn lemma_draw_byte_hits_upto_iff(g: Seq<bool>, x: int, y: int, b: u8, k: int)
    requires
        g.len() == 2048,
        x >= 0,
        y >= 0,
        0 <= k <= 8,
    ensures
        spec_draw_byte_hits_upto(g, x, y, b, k) <==> exists|i: int|
            0 <= i < k && #[trigger] sprite_bit(b, i) && g[spec_pix(x + i, y)],
    decreases k,
{
    if k > 0 {
        lemma_draw_byte_hits_upto_iff(g, x, y, b, k - 1);
        lemma_draw_byte_upto_cells(g, x, y, b, k - 1);
        let target = spec_pix(x + (k - 1), y);
        lemma_pix_bounds(x + (k - 1), y);
        lemma_pix_decompose(x + (k - 1), y);
        lemma_ring_off(x, k - 1, 64);
        assert(spec_col_off(x, target % 64) == k - 1);
        assert(spec_draw_byte_upto(g, x, y, b, k - 1)[target] == spec_draw_byte_cell(
            g,
            x,
            y,
            b,
            k - 1,
            target,
        ));
        assert(spec_draw_byte_cell(g, x, y, b, k - 1, target) == g[target]);
        if spec_draw_byte_hits_upto(g, x, y, b, k) {
            if spec_draw_byte_hits_upto(g, x, y, b, k - 1) {
                let i = choose|i: int|
                    0 <= i < k - 1 && #[trigger] sprite_bit(b, i) && g[spec_pix(x + i, y)];
                assert(0 <= i < k && sprite_bit(b, i) && g[spec_pix(x + i, y)]);
            } else {
                assert(sprite_bit(b, k - 1) && g[spec_pix(x + (k - 1), y)]);
            }
        }
        if exists|i: int| 0 <= i < k && #[trigger] sprite_bit(b, i) && g[spec_pix(x + i, y)] {
            let i = choose|i: int|
                0 <= i < k && #[trigger] sprite_bit(b, i) && g[spec_pix(x + i, y)];
            if i < k - 1 {
                assert(spec_draw_byte_hits_upto(g, x, y, b, k - 1));
            } else {
                assert(spec_set_pixel_hits(
                    spec_draw_byte_upto(g, x, y, b, k - 1),
                    x + (k - 1),
                    y,
                    sprite_bit(b, k - 1),
                ));
            }
        }
    }
}

/// A fully drawn row turns some lit pixel off exactly when one of its set
/// bits lands on a lit pixel.
pub proof fn lemma_draw_byte_hits_iff(g: Seq<bool>, x: int, y: int, b: u8)
    requires
        g.len() == 2048,
        x >= 0,
        y >= 0,
    ensures
        spec_draw_byte_hits(g, x, y, b) <==> exists|i: int|
            0 <= i < 8 && #[trigger] sprite_bit(b, i) && g[spec_pix(x + i, y)],
{
    lemma_draw_byte_hits_upto_iff(g, x, y, b, 8);
}

/// Pointwise description of a partially drawn sprite: after `k` rows, pixel
/// `p` holds exactly the value `spec_draw_sprite_cell` assigns it.
proof fn lemma_draw_sprite_upto_cells(g: Seq<bool>, x: int, y: int, rows: Seq<u8>, k: int)
    requires
        g.len() == 2048,
        x >= 0,
        y >= 0,
        rows.len() <= 15,
        0 <= k <= rows.len(),
    ensures
        spec_draw_sprite_upto(g, x, y, rows, k).len() == 2048,
        forall|p: int|
            0 <= p < 2048 ==> spec_draw_sprite_upto(g, x, y, rows, k)[p] == spec_draw_sprite_cell(
                g,
                x,
                y,
                rows,
                k,
                p,
            ),
    decreases k,
{
    if k > 0 {
        lemma_draw_sprite_upto_cells(g, x, y, rows, k - 1);
        let prev = spec_draw_sprite_upto(g, x, y, rows, k - 1);
        lemma_draw_byte_cells(prev, x, y + (k - 1), rows[k - 1]);
        lemma_ring_off(y, k - 1, 32);
        assert forall|p: int| 0 <= p < 2048 implies spec_draw_sprite_upto(g, x, y, rows, k)[p]
            == spec_draw_sprite_cell(g, x, y, rows, k, p) by {
            lemma_fundamental_div_mod(p, 64);
            let r = p / 64;
            let roff = spec_row_off(y, r);
            let coff = spec_col_off(x, p % 64);
            assert(0 <= p % 64 < 64);
            assert(0 <= r < 32);
            assert(prev[p] == spec_draw_sprite_cell(g, x, y, rows, k - 1, p));
            assert(spec_draw_sprite_upto(g, x, y, rows, k)[p] == spec_draw_byte_cell(
                prev,
                x,
                y + (k - 1),
                rows[k - 1],
                8,
                p,
            ));
            if r == (y + (k - 1)) % 32 {
                assert(roff == k - 1);
                assert(spec_draw_sprite_cell(g, x, y, rows, k - 1, p) == g[p]);
                if coff < 8 {
                    assert(spec_draw_byte_cell(prev, x, y + (k - 1), rows[k - 1], 8, p) == (prev[p]
                        != sprite_bit(rows[k - 1], coff)));
                    assert(spec_draw_sprite_cell(g, x, y, rows, k, p) == (g[p] != sprite_bit(
                        rows[k - 1],
                        coff,
                    )));
                } else {
                    assert(spec_draw_byte_cell(prev, x, y + (k - 1), rows[k - 1], 8, p) == prev[p]);
                    assert(spec_draw_sprite_cell(g, x, y, rows, k, p) == g[p]);
                }
            } else {
                lemma_ring_off_inv(y, r, 32);
                if roff == k - 1 {
                    assert((y + (k - 1)) % 32 == r);
                    assert(false);
                }
                assert(spec_draw_byte_cell(prev, x, y + (k - 1), rows[k - 1], 8, p) == prev[p]);
                assert(spec_draw_sprite_cell(g, x, y, rows, k, p) == spec_draw_sprite_cell(
                    g,
                    x,
                    y,
                    rows,
                    k - 1,
                    p,
                ));
            }
        }
    }
}

/// Pointwise description of a fully drawn sprite.
pub proof fn lemma_draw_sprite_cells(g: Seq<bool>, x: int, y: int, rows: Seq<u8>)
    requires
        g.len() == 2048,
        x >= 0,
        y >= 0,
        rows.len() <= 15,
    ensures
        spec_draw_sprite(g, x, y, rows).len() == 2048,
        forall|p: int|
            0 <= p < 2048 ==> spec_draw_sprite(g, x, y, rows)[p] == spec_draw_sprite_cell(
                g,
                x,
                y,
                rows,
                rows.len() as int,
                p,
            ),
{
    lemma_draw_sprite_upto_cells(g, x, y, rows, rows.len() as int);
}

/// Drawing the identical sprite row twice at the same coordinates, with
/// nothing drawn in between, restores the grid exactly: XOR self-cancels.
pub proof fn lemma_draw_byte_twice_restores(g: Seq<bool>, x: int, y: int, b: u8)
    requires
        g.len() == 2048,
        x >= 0,
        y >= 0,
    ensures
        spec_draw_byte(spec_draw_byte(g, x, y, b), x, y, b) == g,
{
    let g1 = spec_draw_byte(g, x, y, b);
    lemma_draw_byte_cells(g, x, y, b);
    lemma_draw_byte_cells(g1, x, y, b);
    assert(spec_draw_byte(g1, x, y, b) =~= g);
}

/// Drawing the identical sprite twice at the same coordinates, with nothing
/// drawn in between, restores the grid exactly: XOR self-cancels.
pub proof fn lemma_draw_sprite_twice_restores(g: Seq<bool>, x: int, y: int, rows: Seq<u8>)
    requires
        g.len() == 2048,
        x >= 0,
        y >= 0,
        rows.len() <= 15,
    ensures
        spec_draw_sprite(spec_draw_sprite(g, x, y, rows), x, y, rows) == g,
{
    let g1 = spec_draw_sprite(g, x, y, rows);
    lemma_draw_sprite_cells(g, x, y, rows);
    lemma_draw_sprite_cells(g1, x, y, rows);
    assert(spec_draw_sprite(g1, x, y, rows) =~= g);
}

/// A sprite draw reports a collision exactly when some pixel goes from set
/// to unset during that draw.
pub proof fn lemma_draw_sprite_hits_iff_transition(g: Seq<bool>, x: int, y: int, rows: Seq<u8>)
    requires
        g.len() == 2048,
        x >= 0,
        y >= 0,
        rows.len() <= 15,
    ensures
        spec_draw_sprite_hits(g, x, y, rows) <==> exists|p: int|
            0 <= p < 2048 && #[trigger] g[p] && !spec_draw_sprite(g, x, y, rows)[p],
{
    let n = rows.len() as int;
    lemma_draw_sprite_cells(g, x, y, rows);
    lemma_draw_sprite_hits_upto_iff(g, x, y, rows, n);
    if exists|q: (int, int)|
        0 <= q.0 < n && 0 <= q.1 < 8 && #[trigger] sprite_bit(rows[q.0], q.1) && g[spec_pix(
            x + q.1,
            y + q.0,
        )] {
        let q = choose|q: (int, int)|
            0 <= q.0 < n && 0 <= q.1 < 8 && #[trigger] sprite_bit(rows[q.0], q.1) && g[spec_pix(
                x + q.1,
                y + q.0,
            )];
        let p = spec_pix(x + q.1, y + q.0);
        lemma_pix_bounds(x + q.1, y + q.0);
        lemma_pix_decompose(x + q.1, y + q.0);
        lemma_ring_off(y, q.0, 32);
        lemma_ring_off(x, q.1, 64);
        assert(spec_row_off(y, p / 64) == q.0);
        assert(spec_col_off(x, p % 64) == q.1);
        assert(g[p] && !spec_draw_sprite(g, x, y, rows)[p]);
    }
    if exists|p: int| 0 <= p < 2048 && #[trigger] g[p] && !spec_draw_sprite(g, x, y, rows)[p] {
        let p = choose|p: int|
            0 <= p < 2048 && #[trigger] g[p] && !spec_draw_sprite(g, x, y, rows)[p];
        lemma_fundamental_div_mod(p, 64);
        let roff = spec_row_off(y, p / 64);
        let coff = spec_col_off(x, p % 64);
        assert(0 <= p % 64 < 64);
        assert(0 <= p / 64 < 32);
        assert(roff < n && coff < 8 && sprite_bit(rows[roff], coff));
        lemma_ring_off_inv(y, p / 64, 32);
        lemma_ring_off_inv(x, p % 64, 64);
        assert((y + roff) % 32 == p / 64);
        assert((x + coff) % 64 == p % 64);
        assert(spec_pix(x + coff, y + roff) == p);
        assert(g[spec_pix(x + coff, y + roff)]);
        let q = (roff, coff);
        assert(0 <= q.0 < n && 0 <= q.1 < 8 && sprite_bit(rows[q.0], q.1) && g[spec_pix(
            x + q.1,
            y + q.0,
        )]);
    }
}

/// A partially drawn sprite reports a collision exactly when one of its set
/// bits lands on a lit pixel of the original grid.
proof fn lemma_draw_sprite_hits_upto_iff(g: Seq<bool>, x: int, y: int, rows: Seq<u8>, k: int)
    requires
        g.len() == 2048,
        x >= 0,
        y >= 0,
        rows.len() <= 15,
        0 <= k <= rows.len(),
    ensures
        spec_draw_sprite_hits_upto(g, x, y, rows, k) <==> exists|q: (int, int)|
            0 <= q.0 < k && 0 <= q.1 < 8 && #[trigger] sprite_bit(rows[q.0], q.1) && g[spec_pix(
                x + q.1,
                y + q.0,
            )],
    decreases k,
{
    if k > 0 {
        lemma_draw_sprite_hits_upto_iff(g, x, y, rows, k - 1);
        let prev = spec_draw_sprite_upto(g, x, y, rows, k - 1);
        lemma_draw_sprite_upto_cells(g, x, y, rows, k - 1);
        lemma_draw_byte_hits_iff(prev, x, y + (k - 1), rows[k - 1]);
        lemma_ring_off(y, k - 1, 32);
        assert forall|i: int| 0 <= i < 8 implies prev[#[trigger] spec_pix(x + i, y + (k - 1))]
            == g[spec_pix(x + i, y + (k - 1))] by {
            lemma_pix_bounds(x + i, y + (k - 1));
            lemma_pix_decompose(x + i, y + (k - 1));
            let p = spec_pix(x + i, y + (k - 1));
            assert(spec_row_off(y, p / 64) == k - 1);
            assert(prev[p] == spec_draw_sprite_cell(g, x, y, rows, k - 1, p));
            assert(spec_draw_sprite_cell(g, x, y, rows, k - 1, p) == g[p]);
        }
        if spec_draw_sprite_hits_upto(g, x, y, rows, k) {
            if spec_draw_sprite_hits_upto(g, x, y, rows, k - 1) {
                let q = choose|q: (int, int)|
                    0 <= q.0 < k - 1 && 0 <= q.1 < 8 && #[trigger] sprite_bit(rows[q.0], q.1)
                        && g[spec_pix(x + q.1, y + q.0)];
                assert(0 <= q.0 < k && 0 <= q.1 < 8 && sprite_bit(rows[q.0], q.1) && g[spec_pix(
                    x + q.1,
                    y + q.0,
                )]);
            } else {
                let i = choose|i: int|
                    0 <= i < 8 && #[trigger] sprite_bit(rows[k - 1], i) && prev[spec_pix(
                        x + i,
                        y + (k - 1),
                    )];
                let q = (k - 1, i);
                assert(0 <= q.0 < k && 0 <= q.1 < 8 && sprite_bit(rows[q.0], q.1) && g[spec_pix(
                    x + q.1,
                    y + q.0,
                )]);
            }
        }
        if exists|q: (int, int)|
            0 <= q.0 < k && 0 <= q.1 < 8 && #[trigger] sprite_bit(rows[q.0], q.1) && g[spec_pix(
                x + q.1,
                y + q.0,
            )] {
            let q = choose|q: (int, int)|
                0 <= q.0 < k && 0 <= q.1 < 8 && #[trigger] sprite_bit(rows[q.0], q.1) && g[
                    spec_pix(x + q.1, y + q.0)];
            if q.0 < k - 1 {
                assert(spec_draw_sprite_hits_upto(g, x, y, rows, k - 1));
            } else {
                assert(sprite_bit(rows[k - 1], q.1) && prev[spec_pix(x + q.1, y + (k - 1))]);
                assert(spec_draw_byte_hits(prev, x, y + (k - 1), rows[k - 1]));
            }
        }
    }
}

/// The flat 64x32 grid of boolean pixels, row-major.
#[derive(Clone, Debug)]
pub struct Display {
    screen: Vec<bool>,
}

impl View for Display {
    type V = Seq<bool>;

    closed spec fn view(&self) -> Seq<bool> {
        self.screen@
    }
}

impl Display {
    /// The fixed backing buffer always holds exactly 64 * 32 pixels.
    pub open spec fn wf(&self) -> bool {
        self@.len() == 2048
    }

    /// A display with every pixel off.
    pub fn new() -> (d: Display)
        ensures
            d.wf(),
            d@ == blank_screen(),
    {
        let d = Display { screen: vec![false; 2048] };
        proof {
            assert(d@ =~= blank_screen());
        }
        d
    }

    /// XORs one pixel value in at wrapped `(x, y)` and reports whether a lit
    /// pixel was turned off.
    fn set_pixel(&mut self, x: usize, y: usize, p: bool) -> (overwrite: bool)
        requires
            old(self).wf(),
        ensures
            final(self).wf(),
            final(self)@ == spec_set_pixel(old(self)@, x as int, y as int, p),
            overwrite == spec_set_pixel_hits(old(self)@, x as int, y as int, p),
    {
        let xi = x % 64;
        let yi = y % 32;
        let idx = yi * 64 + xi;
        let cur = self.screen[idx];
        let overwrite = p && cur;
        self.screen[idx] = cur != p;
        overwrite
    }

    /// XORs the 8 bits of a sprite byte onto the row at wrapped `(x, y)`,
    /// most significant bit leftmost, and reports whether any lit pixel was
    /// turned off.
    pub fn draw_byte(&mut self, x: usize, y: usize, byte: u8) -> (overwrite: bool)
        requires
            old(self).wf(),
        ensures
            final(self).wf(),
            final(self)@ == spec_draw_byte(old(self)@, x as int, y as int, byte),
            overwrite == spec_draw_byte_hits(old(self)@, x as int, y as int, byte),
    {
        let ghost g0 = self@;
        let xb = x % 64;
        let mut overwrite = false;
        let mut i: usize = 0;
        while i < 8
            invariant
                self.wf(),
                xb == x % 64,
                i <= 8,
                self@ == spec_draw_byte_upto(g0, x as int, y as int, byte, i as int),
                overwrite == spec_draw_byte_hits_upto(g0, x as int, y as int, byte, i as int),
            decreases 8 - i,
        {
            let pixel = crate::util::get_bit_at(byte, (7 - i) as u8) != 0;
            let hit = self.set_pixel(xb + i, y, pixel);
            proof {
                lemma_ring_off(x as int, i as int, 64);
                assert(spec_pix(xb as int + i as int, y as int) == spec_pix(
                    x as int + i as int,
                    y as int,
                ));
                assert(pixel == sprite_bit(byte, i as int));
            }
            overwrite = overwrite || hit;
            i = i + 1;
        }
        overwrite
    }

    /// Reads the pixel at unwrapped, in-range coordinates.
    pub fn get_pixel(&self, x: usize, y: usize) -> (p: bool)
        requires
            self.wf(),
            x < 64,
            y < 32,
        ensures
            p == self@[y as int * 64 + x as int],
    {
        self.screen[y * 64 + x]
    }


    /// The frame as streaming-texture bytes, four per pixel in the order
    /// alpha, blue, green, red: a lit pixel is white, an unlit one black,
    /// both fully opaque.
    pub fn rgba_bytes(&self) -> (bytes: Vec<u8>)
        requires
            self.wf(),
        ensures
            bytes@.len() == 4 * 2048,
            forall|k: int|
                0 <= k < 4 * 2048 ==> bytes@[k] == (if k % 4 == 0 {
                    255u8
                } else if self@[k / 4] {
                    255u8
                } else {
                    0u8
                }),
    {
        let mut bytes: Vec<u8> = Vec::new();
        let mut p: usize = 0;
        while p < 2048
            invariant
                self.wf(),
                p <= 2048,
                bytes@.len() == 4 * p,
                forall|k: int|
                    0 <= k < 4 * p ==> bytes@[k] == (if k % 4 == 0 {
                        255u8
                    } else if self@[k / 4] {
                        255u8
                    } else {
                        0u8
                    }),
            decreases 2048 - p,
        {
            let shade: u8 = if self.screen[p] {
                255
            } else {
                0
            };
            let ghost prev = bytes@;
            bytes.push(255);
            bytes.push(shade);
            bytes.push(shade);
            bytes.push(shade);
            proof {
                let tail = seq![255u8, shade, shade, shade];
                assert(bytes@ =~= prev + tail);
                assert forall|k: int| 0 <= k < 4 * (p + 1) implies bytes@[k] == (if k % 4 == 0 {
                    255u8
                } else if self@[k / 4] {
                    255u8
                } else {
                    0u8
                }) by {
                    if k < 4 * p {
                        assert(bytes@[k] == prev[k]);
                    } else {
                        let j = k - 4 * p;
                        assert(k == p * 4 + j && 0 <= j < 4);
                        lemma_fundamental_div_mod_converse_mod(k, 4, p as int, j);
                        lemma_fundamental_div_mod_converse_div(k, 4, p as int, j);
                        assert(k % 4 == j && k / 4 == p);
                        assert(bytes@[k] == tail[j]);
                    }
                }
            }
            p = p + 1;
        }
        bytes
    }

    /// Turns every pixel off.
    pub fn clear(&mut self) -> (r: Result<(), Chip8Error>)
        requires
            old(self).wf(),
        ensures
            final(self).wf(),
            final(self)@ == blank_screen(),
            r == Ok::<(), Chip8Error>(()),
    {
        self.screen = vec![false; 2048];
        proof {
            assert(self@ =~= blank_screen());
        }
        Ok(())
    }
}

} // verus!
