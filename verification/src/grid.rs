//! Row-major generation of a grid of mutually compatible tile codes.
//!
//! The grid is a flat, row-major sequence of codes for a `tiles_w` by
//! `tiles_h` layout.  Each cell is drawn from the codes compatible with its
//! left neighbour across the East edge and with its upper neighbour across
//! the South edge; the first cell of the grid is unconstrained.  The drawing
//! is driven either by an explicit sequence of oracle picks (deterministic)
//! or by a uniform random oracle.

use vstd::prelude::*;
use vstd::arithmetic::div_mod::lemma_fundamental_div_mod_converse;
use crate::TileError;
use crate::tile::bit_of;
use crate::tile::possible_seq;
use crate::tile::tile_of;
use crate::tile::lemma_possible_upto_members;

verus! {

/// Codes `a` and `b` agree across the vertical edge between a tile with
/// code `a` and its right neighbour with code `b`: `a`'s East connector
/// presence equals `b`'s West connector presence.
pub open spec fn east_matches(a: u8, b: u8) -> bool {
    bit_of(a as u32, 1) == bit_of(b as u32, 3)
}

/// Codes `a` and `b` agree across the horizontal edge between a tile with
/// code `a` and the tile below it with code `b`: `a`'s South connector
/// presence equals `b`'s North connector presence.
pub open spec fn south_matches(a: u8, b: u8) -> bool {
    bit_of(a as u32, 2) == bit_of(b as u32, 0)
}

/// Candidate code `c` may stand at cell `k` (row-major, row width `w`) of
/// the partial grid `g`: it matches the left neighbour when the cell is not
/// first in its row, and the upper neighbour when the cell is not in the
/// first row.
pub open spec fn cell_ok(g: Seq<u8>, w: int, k: int, c: u8) -> bool {
    &&& (k % w != 0 ==> east_matches(g[k - 1], c))
    &&& (k >= w ==> south_matches(g[k - w], c))
}

/// The candidate codes below `n` allowed at cell `k`, in ascending order.
pub open spec fn cands_upto(g: Seq<u8>, w: int, k: int, n: int) -> Seq<u8>
    decreases n,
{
    if n <= 0 {
        Seq::empty()
    } else if cell_ok(g, w, k, (n - 1) as u8) {
        cands_upto(g, w, k, n - 1).push((n - 1) as u8)
    } else {
        cands_upto(g, w, k, n - 1)
    }
}

/// All candidate codes allowed at cell `k` of the partial grid `g`,
/// in ascending order.
pub open spec fn cell_candidates(g: Seq<u8>, w: int, k: int) -> Seq<u8> {
    cands_upto(g, w, k, 16)
}

/// The candidate list for a cell holds exactly the allowed codes below `n`.
pub proof fn lemma_cands_members(g: Seq<u8>, w: int, k: int, n: int)
    requires
        0 <= n <= 16,
    ensures
        forall|c: u8|
            #[trigger] cands_upto(g, w, k, n).contains(c) <==> (c < n && cell_ok(g, w, k, c)),
    decreases n,
{
    if n > 0 {
        lemma_cands_members(g, w, k, n - 1);
        let prev = cands_upto(g, w, k, n - 1);
        let cur = cands_upto(g, w, k, n);
        assert forall|c: u8| cur.contains(c) implies (c < n && cell_ok(g, w, k, c)) by {
            let i = choose|i: int| 0 <= i < cur.len() && cur[i] == c;
            assert(0 <= i < cur.len() && cur[i] == c);
            if cell_ok(g, w, k, (n - 1) as u8) {
                assert(cur == prev.push((n - 1) as u8));
                if i < prev.len() {
                    assert(prev[i] == c);
                    assert(prev.contains(c));
                } else {
                    assert(c == (n - 1) as u8);
                }
            } else {
                assert(cur == prev);
                assert(prev.contains(c));
            }
        }
        assert forall|c: u8| (c < n && cell_ok(g, w, k, c)) implies cur.contains(c) by {
            if c < n - 1 {
                assert(prev.contains(c));
                let i = choose|i: int| 0 <= i < prev.len() && prev[i] == c;
                assert(cur[i] == c);
            } else {
                assert(cur[cur.len() - 1] == c);
            }
        }
    }
}

/// No cell ever runs out of candidates: a code whose West bit copies the
/// left neighbour's East bit and whose North bit copies the upper
/// neighbour's South bit always exists.
pub proof fn lemma_cell_candidates_nonempty(g: Seq<u8>, w: int, k: int)
    requires
        w >= 1,
    ensures
        cell_candidates(g, w, k).len() > 0,
{
    lemma_cands_members(g, w, k, 16);
    assert(bit_of(9, 3) && bit_of(9, 0) && bit_of(8, 3) && !bit_of(8, 0) && !bit_of(1, 3)
        && bit_of(1, 0) && !bit_of(0, 3) && !bit_of(0, 0)) by (bit_vector);
    let need_west = k % w != 0 && bit_of(g[k - 1] as u32, 1);
    let need_north = k >= w && bit_of(g[k - w] as u32, 2);
    let c: u8 = if need_west {
        if need_north {
            9
        } else {
            8
        }
    } else {
        if need_north {
            1
        } else {
            0
        }
    };
    assert(bit_of(c as u32, 3) == need_west && bit_of(c as u32, 0) == need_north);
    assert(cell_ok(g, w, k, c));
    assert(cands_upto(g, w, k, 16).contains(c));
}

/// The result of a generation run, with the grid seen as a sequence.
pub open spec fn result_view(r: Result<Vec<u8>, TileError>) -> Result<Seq<u8>, TileError> {
    match r {
        Ok(v) => Ok(v@),
        Err(e) => Err(e),
    }
}

/// The grid after placing the first `n` cells, driven by `picks`:
/// pick `i` selects, by index modulo the candidate count, from the
/// candidates of cell `i`.
pub open spec fn gen_upto(w: int, picks: Seq<usize>, n: int) -> Result<Seq<u8>, TileError>
    decreases n,
{
    if n <= 0 {
        Ok(Seq::empty())
    } else {
        match gen_upto(w, picks, n - 1) {
            Err(e) => Err(e),
            Ok(g) => {
                let cs = cell_candidates(g, w, n - 1);
                if cs.len() == 0 {
                    Err(TileError::ConstraintExhausted)
                } else {
                    Ok(g.push(cs[(picks[n - 1] as int) % (cs.len() as int)]))
                }
            },
        }
    }
}

/// The full grid of `w * h` cells produced for the pick sequence `picks`.
pub open spec fn spec_generate(w: int, h: int, picks: Seq<usize>) -> Result<Seq<u8>, TileError> {
    gen_upto(w, picks, w * h)
}

/// Every interior adjacency of the row-major grid `g` matches: each cell
/// agrees with its left neighbour across the East edge and with its upper
/// neighbour across the South edge.
pub open spec fn grid_compatible(g: Seq<u8>, w: int) -> bool {
    &&& (forall|k: int| 0 <= k < g.len() && k % w != 0 ==> east_matches(g[k - 1], #[trigger] g[k]))
    &&& (forall|k: int| w <= k < g.len() ==> south_matches(g[k - w], #[trigger] g[k]))
}

/// `grid_compatible`, read cell-by-cell: in a `w` by `h` grid every
/// horizontally adjacent pair and every vertically adjacent pair of cells
/// matches across the shared edge.
pub proof fn lemma_grid_compatible_cells(g: Seq<u8>, w: int, h: int, row: int, col: int)
    requires
        grid_compatible(g, w),
        g.len() == w * h,
        w >= 1,
        h >= 0,
        0 <= row < h,
        0 <= col < w,
    ensures
        col + 1 < w ==> east_matches(g[row * w + col], g[row * w + col + 1]),
        row + 1 < h ==> south_matches(g[row * w + col], g[(row + 1) * w + col]),
{
    if col + 1 < w {
        let k = row * w + col + 1;
        assert(0 <= row * w + col + 1 && row * w + col + 1 < w * h) by (nonlinear_arith)
            requires
                0 <= row < h,
                0 <= col,
                col + 1 < w,
        ;
        lemma_fundamental_div_mod_converse(k, w, row, col + 1);
        assert(k % w != 0);
        assert(0 <= k < g.len());
        assert(east_matches(g[k - 1], g[k]));
    }
    if row + 1 < h {
        let k = (row + 1) * w + col;
        assert(w <= (row + 1) * w + col && (row + 1) * w + col < w * h && (row + 1) * w + col - w
            == row * w + col) by (nonlinear_arith)
            requires
                0 <= row,
                row + 1 < h,
                0 <= col < w,
                w >= 1,
        ;
        assert(w <= k < g.len());
        assert(south_matches(g[k - w], g[k]));
    }
}

/// The per-edge tests used by the grid generator agree with the tile
/// matcher: a code passes the horizontal test exactly when it lies in the
/// left tile's list of East-compatible codes, and the vertical test exactly
/// when it lies in the upper tile's list of South-compatible codes.
pub proof fn lemma_matches_edge_matcher(a: u8, b: u8)
    requires
        a < 16,
        b < 16,
    ensures
        east_matches(a, b) <==> possible_seq(tile_of(a), 1).contains(b),
        south_matches(a, b) <==> possible_seq(tile_of(a), 2).contains(b),
{
    lemma_possible_upto_members(tile_of(a), 1, 16);
    lemma_possible_upto_members(tile_of(a), 2, 16);
    assert(crate::tile::possible_upto(tile_of(a), 1, 16).contains(b)
        <==> (b < 16 && crate::tile::edge_compat(tile_of(a), 1, b)));
    assert(crate::tile::possible_upto(tile_of(a), 2, 16).contains(b)
        <==> (b < 16 && crate::tile::edge_compat(tile_of(a), 2, b)));
}

/// The candidate codes for cell `k` of the partial grid, ascending.
fn cell_candidates_exec(grid: &Vec<u8>, tiles_w: usize, k: usize) -> (vs: Vec<u8>)
    requires
        tiles_w >= 1,
        grid@.len() == k,
    ensures
        vs@ == cell_candidates(grid@, tiles_w as int, k as int),
{
    let mut vs: Vec<u8> = Vec::new();
    for c in 0..16u8
        invariant
            tiles_w >= 1,
            grid@.len() == k,
            vs@ == cands_upto(grid@, tiles_w as int, k as int, c as int),
    {
        let ok_east = if k % tiles_w != 0 {
            proof {
                vstd::arithmetic::div_mod::lemma_small_mod(0nat, tiles_w as nat);
            }
            crate::tile::get_bit(grid[k - 1] as u32, 1) == crate::tile::get_bit(c as u32, 3)
        } else {
            true
        };
        let ok_south = if k >= tiles_w {
            crate::tile::get_bit(grid[k - tiles_w] as u32, 2) == crate::tile::get_bit(c as u32, 0)
        } else {
            true
        };
        if ok_east && ok_south {
            vs.push(c);
        }
    }
    vs
}

/// Grow a full `tiles_w` by `tiles_h` grid, left to right and top to
/// bottom, using `picks` as the oracle: pick `i` selects from the candidate
/// list of cell `i` by index modulo the list's length.
///
/// The result equals `spec_generate` applied to the same inputs, so two
/// runs with the same picks produce the same grid; it is always a full,
/// compatible grid, since no cell ever runs out of candidates.
pub fn generate(tiles_w: usize, tiles_h: usize, picks: &Vec<usize>) -> (r: Result<
    Vec<u8>,
    TileError,
>)
    requires
        tiles_w >= 1,
        tiles_h >= 1,
        picks@.len() >= tiles_w * tiles_h,
    ensures
        result_view(r) == spec_generate(tiles_w as int, tiles_h as int, picks@),
        r matches Ok(g) ==> g@.len() == tiles_w * tiles_h,
        r matches Ok(g) ==> forall|i: int| 0 <= i < g@.len() ==> g@[i] < 16,
        r matches Ok(g) ==> grid_compatible(g@, tiles_w as int),
        r is Ok,
{
    let n_picks = picks.len();
    proof {
        assert(tiles_w * tiles_h <= n_picks);
    }
    let total = tiles_w * tiles_h;
    let mut grid: Vec<u8> = Vec::new();
    let mut k: usize = 0;
    while k < total
        invariant
            tiles_w >= 1,
            total == tiles_w * tiles_h,
            picks@.len() >= total,
            grid@.len() == k,
            k <= total,
            Ok::<Seq<u8>, TileError>(grid@) == gen_upto(tiles_w as int, picks@, k as int),
            forall|i: int| 0 <= i < k ==> grid@[i] < 16,
            grid_compatible(grid@, tiles_w as int),
        decreases total - k,
    {
        let ghost gprev = grid@;
        let ghost w = tiles_w as int;
        let vs = cell_candidates_exec(&grid, tiles_w, k);
        proof {
            lemma_cell_candidates_nonempty(gprev, w, k as int);
            lemma_cands_members(gprev, w, k as int, 16);
        }
        if vs.len() == 0 {
            return Err(TileError::ConstraintExhausted);
        }
        let idx = picks[k] % vs.len();
        let c = vs[idx];
        grid.push(c);
        proof {
            assert((0int) % w == 0) by (nonlinear_arith)
                requires
                    w >= 1,
            ;
            assert(vs@[idx as int] == c);
            assert(cands_upto(gprev, w, k as int, 16).contains(c));
            assert(c < 16 && cell_ok(gprev, w, k as int, c));
            assert((picks@[k as int] as int) % (vs@.len() as int) == idx as int);
            assert(gen_upto(w, picks@, k as int + 1) == Ok::<Seq<u8>, TileError>(grid@));
            assert forall|i: int| 0 <= i < grid@.len() && i % w != 0 implies east_matches(
                grid@[i - 1],
                #[trigger] grid@[i],
            ) by {
                if i < k {
                    assert(gprev[i] == grid@[i] && gprev[i - 1] == grid@[i - 1]);
                }
            }
            assert forall|i: int| w <= i < grid@.len() implies south_matches(
                grid@[i - w],
                #[trigger] grid@[i],
            ) by {
                if i < k {
                    assert(gprev[i] == grid@[i] && gprev[i - w] == grid@[i - w]);
                }
            }
        }
        k = k + 1;
    }
    Ok(grid)
}

/// Relies on rand: `Rng::gen_range` on `thread_rng` over `0..vs.len()`
/// returns an index inside that range, so the result is an element of `vs`.
#[verifier::external_body]
fn get_rand(vs: &[u8]) -> (r: u8)
    requires
        vs@.len() > 0,
    ensures
        vs@.contains(r),
{
    let mut rng = rand::thread_rng();
    let i: usize = rand::Rng::gen_range(&mut rng, 0..vs.len());
    vs[i]
}

/// Grow a full `tiles_w` by `tiles_h` grid as `generate` does, drawing each
/// cell uniformly at random from its candidate list.
///
/// Whatever the random oracle returns, the result is a full grid of codes
/// below 16 whose interior adjacencies all match.
pub fn generate_random(tiles_w: usize, tiles_h: usize) -> (r: Result<Vec<u8>, TileError>)
    requires
        tiles_w >= 1,
        tiles_h >= 1,
        tiles_w * tiles_h <= usize::MAX,
    ensures
        r matches Ok(g) ==> g@.len() == tiles_w * tiles_h,
        r matches Ok(g) ==> forall|i: int| 0 <= i < g@.len() ==> g@[i] < 16,
        r matches Ok(g) ==> grid_compatible(g@, tiles_w as int),
        r is Ok,
{
    let total = tiles_w * tiles_h;
    let mut grid: Vec<u8> = Vec::new();
    let mut k: usize = 0;
    while k < total
        invariant
            tiles_w >= 1,
            total == tiles_w * tiles_h,
            grid@.len() == k,
            k <= total,
            forall|i: int| 0 <= i < k ==> grid@[i] < 16,
            grid_compatible(grid@, tiles_w as int),
        decreases total - k,
    {
        let ghost gprev = grid@;
        let ghost w = tiles_w as int;
        let vs = cell_candidates_exec(&grid, tiles_w, k);
        proof {
            lemma_cell_candidates_nonempty(gprev, w, k as int);
            lemma_cands_members(gprev, w, k as int, 16);
        }
        if vs.len() == 0 {
            return Err(TileError::ConstraintExhausted);
        }
        let c = get_rand(vs.as_slice());
        grid.push(c);
        proof {
            assert((0int) % w == 0) by (nonlinear_arith)
                requires
                    w >= 1,
            ;
            assert(cands_upto(gprev, w, k as int, 16).contains(c));
            assert(c < 16 && cell_ok(gprev, w, k as int, c));
            assert forall|i: int| 0 <= i < grid@.len() && i % w != 0 implies east_matches(
                grid@[i - 1],
                #[trigger] grid@[i],
            ) by {
                if i < k {
                    assert(gprev[i] == grid@[i] && gprev[i - 1] == grid@[i - 1]);
                }
            }
            assert forall|i: int| w <= i < grid@.len() implies south_matches(
                grid@[i - w],
                #[trigger] grid@[i],
            ) by {
                if i < k {
                    assert(gprev[i] == grid@[i] && gprev[i - w] == grid@[i - w]);
                }
            }
        }
        k = k + 1;
    }
    Ok(grid)
}

} // verus!
