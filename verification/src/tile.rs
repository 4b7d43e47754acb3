//! Tile codes and edge compatibility.
//!
//! A tile code is an integer in `[0, 15]`; bit `i` says whether a connector
//! is present on edge `i`, with edges numbered North = 0, East = 1,
//! South = 2, West = 3.  Two adjacent tiles are compatible along their shared
//! edge when the connector is present on both sides or absent on both sides:
//! the matching convention compares a tile's edge with the opposite edge of
//! its neighbour.

use vstd::prelude::*;
use crate::TileError;

verus! {

/// Connector label for one of the four edges of a tile.
#[derive(Clone, Copy, Debug)]
pub enum TileType {
    North,
    East,
    South,
    West,
}

/// A tile: one optional connector per edge, in the order
/// North, East, South, West.
#[derive(Debug)]
pub struct Tile(
    pub Option<TileType>,
    pub Option<TileType>,
    pub Option<TileType>,
    pub Option<TileType>,
);

/// True when bit `i` of `x` is set.
pub open spec fn bit_of(x: u32, i: u32) -> bool {
    (x >> i) & 1 != 0
}

/// Returns true if the i'th bit of x is set to 1.
pub fn get_bit(x: u32, i: i32) -> (r: bool)
    requires
        0 <= i < 32,
    ensures
        r == bit_of(x, i as u32),
{
    (x >> (i as u32)) & 1 != 0
}

/// Whether a connector is present on edge `e` of the tile.
pub open spec fn edge_present(t: Tile, e: int) -> bool {
    if e == 0 {
        t.0 is Some
    } else if e == 1 {
        t.1 is Some
    } else if e == 2 {
        t.2 is Some
    } else {
        t.3 is Some
    }
}

/// A well-formed tile holds, in each slot, either `None` or the connector
/// named after that slot's edge.  `Tile::new` establishes this.
pub open spec fn wf(t: Tile) -> bool {
    &&& (t.0 matches Some(c) ==> c is North)
    &&& (t.1 matches Some(c) ==> c is East)
    &&& (t.2 matches Some(c) ==> c is South)
    &&& (t.3 matches Some(c) ==> c is West)
}

/// The 4-bit code of a tile: one bit per present connector.
pub open spec fn code_of(t: Tile) -> int {
    (if t.0 is Some { 1int } else { 0 })
    + (if t.1 is Some { 2int } else { 0 })
    + (if t.2 is Some { 4int } else { 0 })
    + (if t.3 is Some { 8int } else { 0 })
}

impl Tile {
    pub fn new(num: usize) -> (t: Self)
        ensures
            t.0 is Some <==> bit_of(num as u32, 0),
            t.1 is Some <==> bit_of(num as u32, 1),
            t.2 is Some <==> bit_of(num as u32, 2),
            t.3 is Some <==> bit_of(num as u32, 3),
            wf(t),
            num < 16 ==> code_of(t) == num,
    {
        let mut n: Option<TileType> = None;
        let mut e: Option<TileType> = None;
        let mut s: Option<TileType> = None;
        let mut w: Option<TileType> = None;
        if get_bit(num as u32, 0) {
            n = Some(TileType::North);
        }
        if get_bit(num as u32, 1) {
            e = Some(TileType::East);
        }
        if get_bit(num as u32, 2) {
            s = Some(TileType::South);
        }
        if get_bit(num as u32, 3) {
            w = Some(TileType::West);
        }
        proof {
            lemma_low_bits_reassemble(num as u32);
        }
        Self(n, e, s, w)
    }

    pub fn to_u8(&self) -> (r: u8)
        requires
            wf(*self),
        ensures
            r == code_of(*self),
    {
        let mut num: u8 = 0;
        if let Some(TileType::North) = self.0 {
            num = num + 1;
        }
        if let Some(TileType::East) = self.1 {
            num = num + 2;
        }
        if let Some(TileType::South) = self.2 {
            num = num + 4;
        }
        if let Some(TileType::West) = self.3 {
            num = num + 8;
        }
        num
    }

    /// Get possible tiles on edge for the current tile.
    ///
    /// Returns the codes of all tiles that can stand across edge `edge`,
    /// in ascending order: those whose facing edge agrees with this tile on
    /// the presence of a connector.  An edge index outside `[0, 3]` is
    /// rejected with `InvalidArgument`.
    pub fn get_possible(&self, edge: u8) -> (r: Result<Vec<u8>, TileError>)
        ensures
            edge >= 4 ==> (r matches Err(err) && err == TileError::InvalidArgument),
            edge < 4 ==> (r matches Ok(v) && v@ == possible_seq(*self, edge as int)
                && v@.len() > 0
                && (forall|i: int, j: int| 0 <= i < j < v@.len() ==> v@[i] < v@[j])
                && (forall|c: u8| v@.contains(c) <==> (c < 16 && edge_compat(*self, edge as int, c)))),
    {
        let mut res: Vec<u8> = Vec::new();
        if edge >= 4 {
            return Err(TileError::InvalidArgument);
        }
        let n = if edge <= 1 {
            edge + 2
        } else {
            edge - 2
        };
        for x in 0..16usize
            invariant
                n == opposite(edge as int),
                edge < 4,
                res@ == possible_upto(*self, edge as int, x as int),
        {
            let tile = Self::new(x);
            let hit = match n {
                0 => type_eq(&self.2, &tile.0),
                1 => type_eq(&self.3, &tile.1),
                2 => type_eq(&self.0, &tile.2),
                _ => type_eq(&self.1, &tile.3),
            };
            if hit {
                res.push(x as u8);
            }
        }
        proof {
            lemma_possible_upto_members(*self, edge as int, 16);
            lemma_possible_seq_nonempty(*self, edge as int);
        }
        Ok(res)
    }
}

/// For a value below 16, summing the weights of its set low bits gives the
/// value back.
proof fn lemma_low_bits_reassemble(x: u32)
    by (bit_vector)
    ensures
        x < 16 ==> (if bit_of(x, 0) { 1u32 } else { 0 })
            + (if bit_of(x, 1) { 2u32 } else { 0 })
            + (if bit_of(x, 2) { 4u32 } else { 0 })
            + (if bit_of(x, 3) { 8u32 } else { 0 }) == x,
{
}

/// The tile whose connectors are the set bits of code `c`.
pub open spec fn tile_of(c: u8) -> Tile {
    Tile(
        if bit_of(c as u32, 0) {
            Some(TileType::North)
        } else {
            None
        },
        if bit_of(c as u32, 1) {
            Some(TileType::East)
        } else {
            None
        },
        if bit_of(c as u32, 2) {
            Some(TileType::South)
        } else {
            None
        },
        if bit_of(c as u32, 3) {
            Some(TileType::West)
        } else {
            None
        },
    )
}

/// The edge of the neighbouring tile that touches edge `e`:
/// North faces South and East faces West.
pub open spec fn opposite(e: int) -> int {
    if e <= 1 {
        e + 2
    } else {
        e - 2
    }
}

/// Whether candidate code `c`, placed across edge `e` of tile `t`, matches:
/// the connector is present on both sides or absent on both sides.
pub open spec fn edge_compat(t: Tile, e: int, c: u8) -> bool {
    edge_present(t, e) == bit_of(c as u32, opposite(e) as u32)
}

/// The candidate codes below `n` compatible with tile `t` across edge `e`,
/// in ascending order.
pub open spec fn possible_upto(t: Tile, e: int, n: int) -> Seq<u8>
    decreases n,
{
    if n <= 0 {
        Seq::empty()
    } else if edge_compat(t, e, (n - 1) as u8) {
        possible_upto(t, e, n - 1).push((n - 1) as u8)
    } else {
        possible_upto(t, e, n - 1)
    }
}

/// All candidate codes compatible with tile `t` across edge `e`,
/// in ascending order.
pub open spec fn possible_seq(t: Tile, e: int) -> Seq<u8> {
    possible_upto(t, e, 16)
}

/// The candidate list holds exactly the compatible codes below `n`, in
/// strictly ascending order.
pub proof fn lemma_possible_upto_members(t: Tile, e: int, n: int)
    requires
        0 <= n <= 16,
    ensures
        forall|c: u8| possible_upto(t, e, n).contains(c) <==> (c < n && edge_compat(t, e, c)),
        forall|i: int, j: int|
            0 <= i < j < possible_upto(t, e, n).len()
                ==> possible_upto(t, e, n)[i] < possible_upto(t, e, n)[j],
        forall|i: int| 0 <= i < possible_upto(t, e, n).len() ==> possible_upto(t, e, n)[i] < n,
    decreases n,
{
    if n > 0 {
        lemma_possible_upto_members(t, e, n - 1);
        let prev = possible_upto(t, e, n - 1);
        let cur = possible_upto(t, e, n);
        assert forall|c: u8| cur.contains(c) implies (c < n && edge_compat(t, e, c)) by {
            let i = choose|i: int| 0 <= i < cur.len() && cur[i] == c;
            if i < prev.len() {
                assert(prev[i] == c);
                assert(prev.contains(c));
            }
        }
        assert forall|c: u8| (c < n && edge_compat(t, e, c)) implies cur.contains(c) by {
            if c < n - 1 {
                assert(prev.contains(c));
                let i = choose|i: int| 0 <= i < prev.len() && prev[i] == c;
                assert(cur[i] == c);
            } else {
                assert(cur[cur.len() - 1] == c);
            }
        }
    }
}

/// Every list of compatible codes is non-empty: some candidate always
/// carries the needed presence or absence on the facing edge.
pub proof fn lemma_possible_seq_nonempty(t: Tile, e: int)
    requires
        0 <= e < 4,
    ensures
        possible_seq(t, e).len() > 0,
{
    lemma_possible_upto_members(t, e, 16);
    assert(bit_of(1, 0) && bit_of(2, 1) && bit_of(4, 2) && bit_of(8, 3)) by (bit_vector);
    assert(!bit_of(0, 0) && !bit_of(0, 1) && !bit_of(0, 2) && !bit_of(0, 3)) by (bit_vector);
    let o = opposite(e);
    let w: u8 = if o == 0 {
        1
    } else if o == 1 {
        2
    } else if o == 2 {
        4
    } else {
        8
    };
    if edge_present(t, e) {
        assert(edge_compat(t, e, w));
        assert(possible_upto(t, e, 16).contains(w));
    } else {
        assert(edge_compat(t, e, 0));
        assert(possible_upto(t, e, 16).contains(0));
    }
}

/// Bit `i` of a tile's code says whether a connector is present on edge `i`.
pub proof fn lemma_code_bit(t: Tile, i: int)
    requires
        0 <= i < 4,
    ensures
        bit_of(code_of(t) as u8 as u32, i as u32) == edge_present(t, i),
{
    let x = (code_of(t) as u8) as u32;
    lemma_low_bits_reassemble(x);
}

/// Matching is symmetric under the opposite-edge convention: the code of
/// tile `b` is compatible with tile `a` across edge `e` exactly when the
/// code of `a` is compatible with `b` across the opposite edge.
pub proof fn lemma_compat_symmetric(a: Tile, b: Tile, e: int)
    requires
        0 <= e < 4,
    ensures
        possible_seq(a, e).contains(code_of(b) as u8)
            <==> possible_seq(b, opposite(e)).contains(code_of(a) as u8),
{
    lemma_possible_upto_members(a, e, 16);
    lemma_possible_upto_members(b, opposite(e), 16);
    lemma_code_bit(a, e);
    lemma_code_bit(b, opposite(e));
    let ca = code_of(a) as u8;
    let cb = code_of(b) as u8;
    assert(possible_upto(a, e, 16).contains(cb) <==> (cb < 16 && edge_compat(a, e, cb)));
    assert(possible_upto(b, opposite(e), 16).contains(ca)
        <==> (ca < 16 && edge_compat(b, opposite(e), ca)));
    assert(edge_compat(a, e, cb) == edge_compat(b, opposite(e), ca));
}

pub fn type_eq(a: &Option<TileType>, b: &Option<TileType>) -> (r: bool)
    ensures
        r == (a is Some <==> b is Some),
{
    match (a.is_some(), b.is_some()) {
        (true, true) => true,
        (false, false) => true,
        _ => false,
    }
}

} // verus!

