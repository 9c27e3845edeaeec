//! The mathematical model of the board: cells, the rule of life on the
//! torus, the board fingerprint, and the laws they obey.
use vstd::arithmetic::div_mod::{
    lemma_add_mod_noop_right, lemma_fundamental_div_mod_converse, lemma_mod_bound,
};
use vstd::prelude::*;

verus! {

/// A row or column index carried onto the torus.
pub open spec fn wrap(i: int) -> int {
    i % 32
}

/// Whether the cell at column `x`, row `y`, both taken on the torus, is alive
/// in the row-major grid `g`.
pub open spec fn alive(g: Seq<bool>, x: int, y: int) -> bool {
    g[wrap(y) * 32 + wrap(x)]
}

/// One for a live cell, zero for a dead one.
pub open spec fn tally(b: bool) -> nat {
    if b {
        1
    } else {
        0
    }
}

/// The number of live cells among the eight that surround column `x`, row `y`.
pub open spec fn neighbor_count(g: Seq<bool>, x: int, y: int) -> nat {
    tally(alive(g, x - 1, y - 1)) + tally(alive(g, x, y - 1)) + tally(alive(g, x + 1, y - 1))
        + tally(alive(g, x - 1, y)) + tally(alive(g, x + 1, y))
        + tally(alive(g, x - 1, y + 1)) + tally(alive(g, x, y + 1)) + tally(alive(g, x + 1, y + 1))
}

/// The rule of life: a live cell survives with two or three neighbours, a
/// dead one is born with exactly three.
pub open spec fn lives_on(live: bool, neighbors: nat) -> bool {
    if live {
        neighbors == 2 || neighbors == 3
    } else {
        neighbors == 3
    }
}

/// The generation that follows the grid `g`.
pub open spec fn successor(g: Seq<bool>) -> Seq<bool> {
    Seq::new(1024, |i: int| lives_on(g[i], neighbor_count(g, i % 32, i / 32)))
}

/// The bit that position `p` of the word for row pair `k` contributes:
/// positions below 32 are the columns of row `2k`, read into bits 63 down to
/// 32; the others are the columns of row `2k + 1`, read into bits 31 down to 0.
pub open spec fn pair_bit(g: Seq<bool>, k: int, p: int) -> u64 {
    if p < 32 {
        if g[2 * k * 32 + p] {
            1u64 << ((63 - p) as u64)
        } else {
            0u64
        }
    } else {
        if g[(2 * k + 1) * 32 + (p - 32)] {
            1u64 << ((31 - (p - 32)) as u64)
        } else {
            0u64
        }
    }
}

/// The word for row pair `k`, made of its first `n` positions.
pub open spec fn pair_word(g: Seq<bool>, k: int, n: nat) -> u64
    decreases n,
{
    if n == 0 {
        0u64
    } else {
        pair_word(g, k, (n - 1) as nat) | pair_bit(g, k, n - 1)
    }
}

/// The exclusive or of the full words of the row pairs `1 .. m`.
pub open spec fn pairs_xor(g: Seq<bool>, m: nat) -> u64
    decreases m,
{
    if m <= 1 {
        0u64
    } else {
        pairs_xor(g, (m - 1) as nat) ^ pair_word(g, m - 1, 64)
    }
}

/// The fingerprint of a grid: the words of the row pairs (2, 3) to (30, 31)
/// combined by exclusive or. Rows 0 and 1 take no part in it.
pub open spec fn fingerprint(g: Seq<bool>) -> u64 {
    pairs_xor(g, 16)
}

/// The grid with no live cell.
pub open spec fn all_dead() -> Seq<bool> {
    Seq::new(1024, |i: int| false)
}

/// The grid whose only live cell is at column 0, row 0.
pub open spec fn lone_origin() -> Seq<bool> {
    Seq::new(1024, |i: int| i == 0)
}

/// The grid whose live cells are those whose offset from column `cx`, row
/// `cy`, taken on the torus, satisfies `s`.
pub open spec fn shape_grid(cx: int, cy: int, s: spec_fn(int, int) -> bool) -> Seq<bool> {
    Seq::new(1024, |i: int| s(wrap(i % 32 - cx), wrap(i / 32 - cy)))
}

/// A 2 x 2 block of live cells whose top left cell is at column `cx`, row `cy`.
pub open spec fn block_at(cx: int, cy: int) -> Seq<bool> {
    shape_grid(cx, cy, |dx: int, dy: int| dx <= 1 && dy <= 1)
}

/// Three live cells in a row, centred on column `cx`, row `cy`.
pub open spec fn horizontal_blinker(cx: int, cy: int) -> Seq<bool> {
    shape_grid(cx, cy, |dx: int, dy: int| (dx == 31 || dx <= 1) && dy == 0)
}

/// Three live cells in a column, centred on column `cx`, row `cy`.
pub open spec fn vertical_blinker(cx: int, cy: int) -> Seq<bool> {
    shape_grid(cx, cy, |dx: int, dy: int| dx == 0 && (dy == 31 || dy <= 1))
}

/// Wrapping before adding an offset wraps to the same place as after.
proof fn lemma_wrap_add(u: int, a: int)
    ensures
        wrap(wrap(u) + a) == wrap(u + a),
        0 <= wrap(u) < 32,
{
    lemma_add_mod_noop_right(a, u, 32);
    lemma_mod_bound(u, 32);
}

/// Wrapping a coordinate that is already on the board, or one step off it.
proof fn lemma_wrap_near(d: int)
    requires
        0 <= d < 32,
    ensures
        wrap(d) == d,
        wrap(d - 1) == if d == 0 {
            31
        } else {
            d - 1
        },
        wrap(d + 1) == if d == 31 {
            0
        } else {
            d + 1
        },
{
    lemma_fundamental_div_mod_converse(d, 32, 0, d);
    if d == 0 {
        lemma_fundamental_div_mod_converse(d - 1, 32, -1, 31);
    } else {
        lemma_fundamental_div_mod_converse(d - 1, 32, 0, d - 1);
    }
    if d == 31 {
        lemma_fundamental_div_mod_converse(d + 1, 32, 1, 0);
    } else {
        lemma_fundamental_div_mod_converse(d + 1, 32, 0, d + 1);
    }
}

/// The column and row of a cell are read back from its row-major index.
proof fn lemma_index(x: int, y: int)
    requires
        0 <= x < 32,
        0 <= y < 32,
    ensures
        (y * 32 + x) % 32 == x,
        (y * 32 + x) / 32 == y,
{
    lemma_fundamental_div_mod_converse(y * 32 + x, 32, y, x);
}

/// The cell at offset (`a`, `b`) from column `x`, row `y` of a shape grid is
/// read through the shape at the wrapped offsets.
proof fn lemma_shape_alive(
    cx: int,
    cy: int,
    s: spec_fn(int, int) -> bool,
    x: int,
    y: int,
    a: int,
    b: int,
)
    ensures
        alive(shape_grid(cx, cy, s), x + a, y + b) == s(
            wrap(wrap(x - cx) + a),
            wrap(wrap(y - cy) + b),
        ),
{
    let u = wrap(x + a);
    let v = wrap(y + b);
    lemma_wrap_add(x + a, 0);
    lemma_wrap_add(y + b, 0);
    lemma_index(u, v);
    lemma_wrap_add(x + a, -cx);
    lemma_wrap_add(y + b, -cy);
    lemma_wrap_add(x - cx, a);
    lemma_wrap_add(y - cy, b);
}

/// The neighbour count of a cell of a shape grid, read through the shape.
proof fn lemma_shape_count(cx: int, cy: int, s: spec_fn(int, int) -> bool, x: int, y: int)
    ensures
        neighbor_count(shape_grid(cx, cy, s), x, y) == ({
            let dx = wrap(x - cx);
            let dy = wrap(y - cy);
            tally(s(wrap(dx - 1), wrap(dy - 1))) + tally(s(wrap(dx), wrap(dy - 1))) + tally(
                s(wrap(dx + 1), wrap(dy - 1)),
            ) + tally(s(wrap(dx - 1), wrap(dy))) + tally(s(wrap(dx + 1), wrap(dy))) + tally(
                s(wrap(dx - 1), wrap(dy + 1)),
            ) + tally(s(wrap(dx), wrap(dy + 1))) + tally(s(wrap(dx + 1), wrap(dy + 1)))
        }),
{
    lemma_shape_alive(cx, cy, s, x, y, -1, -1);
    lemma_shape_alive(cx, cy, s, x, y, 0, -1);
    lemma_shape_alive(cx, cy, s, x, y, 1, -1);
    lemma_shape_alive(cx, cy, s, x, y, -1, 0);
    lemma_shape_alive(cx, cy, s, x, y, 1, 0);
    lemma_shape_alive(cx, cy, s, x, y, -1, 1);
    lemma_shape_alive(cx, cy, s, x, y, 0, 1);
    lemma_shape_alive(cx, cy, s, x, y, 1, 1);
    assert(x + 0 == x && y + 0 == y);
}

/// A shape grid is left as it is by the rule of life when every offset on
/// the board keeps its state under the rule, counting through the shape.
proof fn lemma_shape_fixed(cx: int, cy: int, s: spec_fn(int, int) -> bool, t: spec_fn(int, int) -> bool)
    requires
        forall|dx: int, dy: int|
            0 <= dx < 32 && 0 <= dy < 32 ==> #[trigger] t(dx, dy) == lives_on(
                s(dx, dy),
                tally(s(wrap(dx - 1), wrap(dy - 1))) + tally(s(wrap(dx), wrap(dy - 1))) + tally(
                    s(wrap(dx + 1), wrap(dy - 1)),
                ) + tally(s(wrap(dx - 1), wrap(dy))) + tally(s(wrap(dx + 1), wrap(dy))) + tally(
                    s(wrap(dx - 1), wrap(dy + 1)),
                ) + tally(s(wrap(dx), wrap(dy + 1))) + tally(s(wrap(dx + 1), wrap(dy + 1))),
            ),
    ensures
        successor(shape_grid(cx, cy, s)) == shape_grid(cx, cy, t),
{
    let g = shape_grid(cx, cy, s);
    assert forall|i: int| 0 <= i < 1024 implies #[trigger] successor(g)[i] == shape_grid(
        cx,
        cy,
        t,
    )[i] by {
        let x = i % 32;
        let y = i / 32;
        lemma_shape_count(cx, cy, s, x, y);
        lemma_wrap_add(x - cx, 0);
        lemma_wrap_add(y - cy, 0);
        assert(x - cx + 0 == x - cx && y - cy + 0 == y - cy);
        lemma_wrap_add(wrap(x - cx), 0);
        lemma_wrap_add(wrap(y - cy), 0);
    }
    assert(successor(g) =~= shape_grid(cx, cy, t));
}

/// A grid with no live cell stays without one.
pub proof fn lemma_all_dead_fixed()
    ensures
        successor(all_dead()) == all_dead(),
{
    assert forall|i: int| 0 <= i < 1024 implies #[trigger] successor(all_dead())[i] == all_dead()[i] by {
        lemma_wrap_add(i % 32 - 1, 0);
        lemma_wrap_add(i % 32 + 1, 0);
        lemma_wrap_add(i / 32 - 1, 0);
        lemma_wrap_add(i / 32 + 1, 0);
        lemma_wrap_add(i % 32, 0);
        lemma_wrap_add(i / 32, 0);
    }
    assert(successor(all_dead()) =~= all_dead());
}

/// A 2 x 2 block, placed anywhere with no other live cell, is left unchanged
/// by one generation.
pub proof fn lemma_block_still(cx: int, cy: int)
    ensures
        successor(block_at(cx, cy)) == block_at(cx, cy),
{
    let s = |dx: int, dy: int| dx <= 1 && dy <= 1;
    assert forall|dx: int, dy: int| 0 <= dx < 32 && 0 <= dy < 32 implies #[trigger] s(dx, dy)
        == lives_on(
        s(dx, dy),
        tally(s(wrap(dx - 1), wrap(dy - 1))) + tally(s(wrap(dx), wrap(dy - 1))) + tally(
            s(wrap(dx + 1), wrap(dy - 1)),
        ) + tally(s(wrap(dx - 1), wrap(dy))) + tally(s(wrap(dx + 1), wrap(dy))) + tally(
            s(wrap(dx - 1), wrap(dy + 1)),
        ) + tally(s(wrap(dx), wrap(dy + 1))) + tally(s(wrap(dx + 1), wrap(dy + 1))),
    ) by {
        lemma_wrap_near(dx);
        lemma_wrap_near(dy);
    }
    lemma_shape_fixed(cx, cy, s, s);
}

/// A horizontal blinker turns into a vertical one centred on the same cell,
/// and that one back into the horizontal one.
pub proof fn lemma_blinker_period_two(cx: int, cy: int)
    ensures
        successor(horizontal_blinker(cx, cy)) == vertical_blinker(cx, cy),
        successor(vertical_blinker(cx, cy)) == horizontal_blinker(cx, cy),
{
    let h = |dx: int, dy: int| (dx == 31 || dx <= 1) && dy == 0;
    let v = |dx: int, dy: int| dx == 0 && (dy == 31 || dy <= 1);
    assert forall|dx: int, dy: int| 0 <= dx < 32 && 0 <= dy < 32 implies #[trigger] v(dx, dy)
        == lives_on(
        h(dx, dy),
        tally(h(wrap(dx - 1), wrap(dy - 1))) + tally(h(wrap(dx), wrap(dy - 1))) + tally(
            h(wrap(dx + 1), wrap(dy - 1)),
        ) + tally(h(wrap(dx - 1), wrap(dy))) + tally(h(wrap(dx + 1), wrap(dy))) + tally(
            h(wrap(dx - 1), wrap(dy + 1)),
        ) + tally(h(wrap(dx), wrap(dy + 1))) + tally(h(wrap(dx + 1), wrap(dy + 1))),
    ) by {
        lemma_wrap_near(dx);
        lemma_wrap_near(dy);
    }
    lemma_shape_fixed(cx, cy, h, v);
    assert forall|dx: int, dy: int| 0 <= dx < 32 && 0 <= dy < 32 implies #[trigger] h(dx, dy)
        == lives_on(
        v(dx, dy),
        tally(v(wrap(dx - 1), wrap(dy - 1))) + tally(v(wrap(dx), wrap(dy - 1))) + tally(
            v(wrap(dx + 1), wrap(dy - 1)),
        ) + tally(v(wrap(dx - 1), wrap(dy))) + tally(v(wrap(dx + 1), wrap(dy))) + tally(
            v(wrap(dx - 1), wrap(dy + 1)),
        ) + tally(v(wrap(dx), wrap(dy + 1))) + tally(v(wrap(dx + 1), wrap(dy + 1))),
    ) by {
        lemma_wrap_near(dx);
        lemma_wrap_near(dy);
    }
    lemma_shape_fixed(cx, cy, v, h);
}

/// A single live cell at column 0, row 0 adds one to the neighbour count of
/// the eight cells around it, across the wrapped edges, and to no other cell.
pub proof fn lemma_origin_neighbors(x: int, y: int)
    requires
        0 <= x < 32,
        0 <= y < 32,
    ensures
        neighbor_count(lone_origin(), x, y) == if (x == 31 || x <= 1) && (y == 31 || y <= 1) && !(x
            == 0 && y == 0) {
            1nat
        } else {
            0nat
        },
{
    let s = |dx: int, dy: int| dx == 0 && dy == 0;
    assert forall|i: int| 0 <= i < 1024 implies #[trigger] lone_origin()[i] == shape_grid(
        0,
        0,
        s,
    )[i] by {
        lemma_index(i % 32, i / 32);
        lemma_wrap_near(i % 32);
        lemma_wrap_near(i / 32);
        assert(i % 32 - 0 == i % 32 && i / 32 - 0 == i / 32);
    }
    assert(lone_origin() =~= shape_grid(0, 0, s));
    lemma_shape_count(0, 0, s, x, y);
    assert(x - 0 == x && y - 0 == y);
    lemma_wrap_near(x);
    lemma_wrap_near(y);
    lemma_wrap_near(wrap(x));
}

/// The words of a row pair agree on grids that agree on rows 2 to 31.
proof fn lemma_pair_word_skips_top_rows(g1: Seq<bool>, g2: Seq<bool>, k: int, n: nat)
    requires
        1 <= k < 16,
        n <= 64,
        forall|i: int| 64 <= i < 1024 ==> g1[i] == g2[i],
    ensures
        pair_word(g1, k, n) == pair_word(g2, k, n),
    decreases n,
{
    if n > 0 {
        lemma_pair_word_skips_top_rows(g1, g2, k, (n - 1) as nat);
        assert(pair_bit(g1, k, n - 1) == pair_bit(g2, k, n - 1));
    }
}

/// The exclusive or of the first row pairs agrees on grids that agree on
/// rows 2 to 31.
proof fn lemma_pairs_xor_skips_top_rows(g1: Seq<bool>, g2: Seq<bool>, m: nat)
    requires
        m <= 16,
        forall|i: int| 64 <= i < 1024 ==> g1[i] == g2[i],
    ensures
        pairs_xor(g1, m) == pairs_xor(g2, m),
    decreases m,
{
    if m > 1 {
        lemma_pairs_xor_skips_top_rows(g1, g2, (m - 1) as nat);
        lemma_pair_word_skips_top_rows(g1, g2, m - 1, 64);
    }
}

/// The fingerprint reads rows 2 to 31 only: two grids that differ in rows 0
/// and 1 alone have the same fingerprint.
pub proof fn lemma_fingerprint_skips_top_rows(g1: Seq<bool>, g2: Seq<bool>)
    requires
        g1.len() == 1024,
        g2.len() == 1024,
        forall|i: int| 64 <= i < 1024 ==> g1[i] == g2[i],
    ensures
        fingerprint(g1) == fingerprint(g2),
{
    lemma_pairs_xor_skips_top_rows(g1, g2, 16);
}

/// The word of row pair `k` holds, at bit `63 - p`, the cell at position `p`
/// of the two rows read one after the other: column `i` of row `2k` at bit
/// `63 - i`, column `j` of row `2k + 1` at bit `31 - j`.
pub proof fn lemma_pair_word_bits(g: Seq<bool>, k: int, q: u64)
    requires
        q < 64,
    ensures
        ((pair_word(g, k, 64) >> q) & 1u64 == 1u64) == g[2 * k * 32 + 63 - q],
{
    lemma_pair_word_prefix_bits(g, k, 64, q);
}

/// The bits that the first `n` positions of a row pair have set.
proof fn lemma_pair_word_prefix_bits(g: Seq<bool>, k: int, n: nat, q: u64)
    requires
        q < 64,
        n <= 64,
    ensures
        ((pair_word(g, k, n) >> q) & 1u64 == 1u64) == (63 - q < n && g[2 * k * 32 + 63 - q]),
    decreases n,
{
    if n == 0 {
        assert((0u64 >> q) & 1u64 == 0u64) by (bit_vector);
    } else {
        lemma_pair_word_prefix_bits(g, k, (n - 1) as nat, q);
        let a = pair_word(g, k, (n - 1) as nat);
        let b = pair_bit(g, k, n - 1);
        assert(((a | b) >> q) & 1u64 == 1u64 <==> ((a >> q) & 1u64 == 1u64 || (b >> q) & 1u64
            == 1u64)) by (bit_vector);
        let s = (63 - (n - 1)) as u64;
        assert(s < 64 ==> (((1u64 << s) >> q) & 1u64 == 1u64 <==> s == q)) by (bit_vector);
        assert((0u64 >> q) & 1u64 == 0u64) by (bit_vector);
        if n - 1 >= 32 {
            assert((2 * k + 1) * 32 + (n - 1 - 32) == 2 * k * 32 + (n - 1));
            assert((31 - (n - 1 - 32)) as u64 == s);
        }
    }
}

/// Whether an odd number of the row pairs `1 .. m` hold a live cell at
/// position `p` of the pair (the columns of the upper row, then those of the
/// lower one).
pub open spec fn odd_among_pairs(g: Seq<bool>, m: nat, p: int) -> bool
    decreases m,
{
    if m <= 1 {
        false
    } else {
        odd_among_pairs(g, (m - 1) as nat, p) != g[2 * (m - 1) * 32 + p]
    }
}

/// Bit `q` of the fingerprint is set exactly when an odd number of the row
/// pairs (2, 3) to (30, 31) hold a live cell at position `63 - q`.
pub proof fn lemma_fingerprint_bits(g: Seq<bool>, q: u64)
    requires
        q < 64,
    ensures
        ((fingerprint(g) >> q) & 1u64 == 1u64) == odd_among_pairs(g, 16, 63 - q),
{
    lemma_pairs_xor_bits(g, 16, q);
}

/// The bits of the exclusive or of the words of the row pairs `1 .. m`.
proof fn lemma_pairs_xor_bits(g: Seq<bool>, m: nat, q: u64)
    requires
        q < 64,
    ensures
        ((pairs_xor(g, m) >> q) & 1u64 == 1u64) == odd_among_pairs(g, m, 63 - q),
    decreases m,
{
    if m <= 1 {
        assert((0u64 >> q) & 1u64 == 0u64) by (bit_vector);
    } else {
        lemma_pairs_xor_bits(g, (m - 1) as nat, q);
        lemma_pair_word_bits(g, m - 1, q);
        let a = pairs_xor(g, (m - 1) as nat);
        let b = pair_word(g, m - 1, 64);
        assert(((a ^ b) >> q) & 1u64 == 1u64 <==> (((a >> q) & 1u64 == 1u64) != ((b >> q) & 1u64
            == 1u64))) by (bit_vector);
    }
}

} // verus!
