use std::collections::HashMap;
use vstd::arithmetic::div_mod::lemma_fundamental_div_mod;
use vstd::arithmetic::div_mod::lemma_fundamental_div_mod_converse;
use vstd::prelude::*;

use crate::geo::{coord_ok, dist_sq, Ecef, MAX_COORD_MM};

verus! {

broadcast use vstd::std_specs::hash::group_hash_axioms;

/// Integer coordinates of one grid cell.
#[derive(Clone, Copy, Debug, PartialEq, Eq, Structural, Hash)]
pub struct CellKey {
    pub x: i64,
    pub y: i64,
    pub z: i64,
}

/// Offset that makes every packed cell coordinate non-negative.
pub const PACK_OFFSET: i64 = 0x200_0000_0000;

/// Room given to each packed coordinate.
pub const PACK_RADIX: u128 = 0x400_0000_0000;

/// The grid cell that holds coordinate `v` for cells of edge `c` (floor division).
pub open spec fn cell_coord(v: int, c: int) -> int {
    v / c
}

/// The grid cell that holds point `p` for cells of edge `c`.
pub open spec fn cell_of(p: Ecef, c: int) -> CellKey {
    CellKey {
        x: cell_coord(p.x as int, c) as i64,
        y: cell_coord(p.y as int, c) as i64,
        z: cell_coord(p.z as int, c) as i64,
    }
}

/// A cell coordinate that a packed key can hold.
pub open spec fn packable(v: int) -> bool {
    -PACK_OFFSET <= v < PACK_OFFSET
}

pub open spec fn key_packable(k: CellKey) -> bool {
    packable(k.x as int) && packable(k.y as int) && packable(k.z as int)
}

/// One integer standing for a cell key (each coordinate shifted and laid
/// side by side).
pub open spec fn packed(k: CellKey) -> int {
    ((k.x + PACK_OFFSET) * PACK_RADIX + (k.y + PACK_OFFSET)) * PACK_RADIX + (k.z + PACK_OFFSET)
}

/// Whether two cells touch or coincide: each coordinate differs by at most one.
pub open spec fn adjacent(a: CellKey, b: CellKey) -> bool {
    -1 <= a.x - b.x <= 1 && -1 <= a.y - b.y <= 1 && -1 <= a.z - b.z <= 1
}

proof fn lemma_cell_coord_bounds(v: int, c: int)
    requires
        coord_ok(v),
        c > 0,
    ensures
        -MAX_COORD_MM - 1 <= cell_coord(v, c) <= MAX_COORD_MM,
{
    lemma_fundamental_div_mod(v, c);
    let q = v / c;
    let r = v % c;
    assert(-MAX_COORD_MM - 1 <= q <= MAX_COORD_MM) by (nonlinear_arith)
        requires
            v == c * q + r,
            0 <= r < c,
            c > 0,
            -MAX_COORD_MM <= v <= MAX_COORD_MM,
    ;
}

/// Cells of in-bounds points have packable coordinates.
pub proof fn lemma_cell_of_bounds(p: Ecef, c: int)
    requires
        p.in_bounds(),
        c > 0,
    ensures
        -MAX_COORD_MM - 1 <= cell_of(p, c).x <= MAX_COORD_MM,
        -MAX_COORD_MM - 1 <= cell_of(p, c).y <= MAX_COORD_MM,
        -MAX_COORD_MM - 1 <= cell_of(p, c).z <= MAX_COORD_MM,
        cell_of(p, c).x == cell_coord(p.x as int, c),
        cell_of(p, c).y == cell_coord(p.y as int, c),
        cell_of(p, c).z == cell_coord(p.z as int, c),
{
    lemma_cell_coord_bounds(p.x as int, c);
    lemma_cell_coord_bounds(p.y as int, c);
    lemma_cell_coord_bounds(p.z as int, c);
}

/// Packing is one-to-one on packable keys.
pub proof fn lemma_packed_injective(a: CellKey, b: CellKey)
    requires
        key_packable(a),
        key_packable(b),
        packed(a) == packed(b),
    ensures
        a == b,
{
    let m = PACK_RADIX as int;
    let ha = (a.x + PACK_OFFSET) * m + (a.y + PACK_OFFSET);
    let hb = (b.x + PACK_OFFSET) * m + (b.y + PACK_OFFSET);
    lemma_fundamental_div_mod_converse(packed(a), m, ha, a.z + PACK_OFFSET);
    lemma_fundamental_div_mod_converse(packed(b), m, hb, b.z + PACK_OFFSET);
    lemma_fundamental_div_mod_converse(ha, m, a.x + PACK_OFFSET, a.y + PACK_OFFSET);
    lemma_fundamental_div_mod_converse(hb, m, b.x + PACK_OFFSET, b.y + PACK_OFFSET);
}

/// Floor division of a coordinate by a positive cell edge.
pub fn floor_div(v: i64, c: i64) -> (q: i64)
    requires
        c > 0,
    ensures
        q == cell_coord(v as int, c as int),
{
    if v >= 0 {
        let q: u64 = (v as u64) / (c as u64);
        q as i64
    } else {
        let m: u64 = (-(v + 1)) as u64;
        let k: u64 = m / (c as u64);
        proof {
            let r = (m % (c as u64)) as int;
            lemma_fundamental_div_mod(m as int, c as int);
            assert(m as int == c * (k as int) + r);
            assert(v as int == (-(k as int) - 1) * c + (c - r - 1)) by (nonlinear_arith)
                requires
                    m as int == c * (k as int) + r,
                    m as int == -(v + 1),
            ;
            lemma_fundamental_div_mod_converse(v as int, c as int, -(k as int) - 1, c - r - 1);
        }
        -(k as i64) - 1
    }
}

/// The grid cell of `p` for cells of edge `c`.
pub fn cell_key(p: Ecef, c: i64) -> (k: CellKey)
    requires
        c > 0,
    ensures
        k.x == cell_coord(p.x as int, c as int),
        k.y == cell_coord(p.y as int, c as int),
        k.z == cell_coord(p.z as int, c as int),
{
    CellKey { x: floor_div(p.x, c), y: floor_div(p.y, c), z: floor_div(p.z, c) }
}

/// The packed form of a key.
pub fn pack(k: CellKey) -> (r: u128)
    requires
        key_packable(k),
    ensures
        r == packed(k),
{
    let ux: u128 = (k.x + PACK_OFFSET) as u128;
    let uy: u128 = (k.y + PACK_OFFSET) as u128;
    let uz: u128 = (k.z + PACK_OFFSET) as u128;
    assert(ux * PACK_RADIX + uy < PACK_RADIX * PACK_RADIX) by (nonlinear_arith)
        requires ux < PACK_RADIX, uy < PACK_RADIX;
    let h: u128 = ux * PACK_RADIX + uy;
    assert(h * PACK_RADIX + uz < PACK_RADIX * PACK_RADIX * PACK_RADIX) by (nonlinear_arith)
        requires h < PACK_RADIX * PACK_RADIX, uz < PACK_RADIX;
    h * PACK_RADIX + uz
}

/// Two coordinates less than one cell edge apart fall in the same or
/// neighbouring cells.
proof fn lemma_near_coords(u: int, v: int, c: int)
    requires
        c > 0,
        (u - v) * (u - v) <= c * c,
    ensures
        -1 <= cell_coord(u, c) - cell_coord(v, c) <= 1,
{
    lemma_fundamental_div_mod(u, c);
    lemma_fundamental_div_mod(v, c);
    let qu = u / c;
    let qv = v / c;
    let ru = u % c;
    let rv = v % c;
    if u - v > c {
        assert((u - v) * (u - v) > c * c) by (nonlinear_arith)
            requires u - v > c, c > 0;
    }
    if v - u > c {
        assert((u - v) * (u - v) > c * c) by (nonlinear_arith)
            requires v - u > c, c > 0;
    }
    assert(-1 <= qu - qv <= 1) by (nonlinear_arith)
        requires
            u == c * qu + ru,
            v == c * qv + rv,
            0 <= ru < c,
            0 <= rv < c,
            -c <= u - v <= c,
    ;
}

/// For any cell edge `c > 0`, two points no farther apart than `c` lie in
/// the same grid cell or in neighbouring ones, so a scan of the 3x3x3 block
/// around one point's cell always meets the other.
pub proof fn lemma_within_edge_is_adjacent(a: Ecef, b: Ecef, c: int)
    requires
        a.in_bounds(),
        b.in_bounds(),
        c > 0,
        dist_sq(a, b) <= c * c,
    ensures
        adjacent(cell_of(a, c), cell_of(b, c)),
{
    let dx = a.x - b.x;
    let dy = a.y - b.y;
    let dz = a.z - b.z;
    assert(dx * dx >= 0 && dy * dy >= 0 && dz * dz >= 0) by (nonlinear_arith);
    lemma_near_coords(a.x as int, b.x as int, c);
    lemma_near_coords(a.y as int, b.y as int, c);
    lemma_near_coords(a.z as int, b.z as int, c);
    lemma_cell_of_bounds(a, c);
    lemma_cell_of_bounds(b, c);
}

/// Grid buckets over a flat collection of positions: each occupied cell,
/// under its packed key, lists the indices of the positions inside it.
pub struct SpatialIndex {
    pub cell_mm: i64,
    pub cells: HashMap<u128, Vec<usize>>,
}

/// Bucket `b`, stored under packed key `p`, is not empty and lists in
/// increasing order the indices below `n` of the positions whose cell packs
/// to `p`; so the keys of an index are exactly its occupied cells.
pub open spec fn bucket_ok(b: Seq<usize>, ps: Seq<Ecef>, c: int, p: int, n: int) -> bool {
    &&& b.len() > 0
    &&& forall|u: int, v: int| 0 <= u < v < b.len() ==> b[u] < b[v]
    &&& forall|u: int|
        0 <= u < b.len() ==> b[u] < n && packed(cell_of(ps[b[u] as int], c)) == p
    &&& forall|j: int|
        0 <= j < n && packed(cell_of(ps[j], c)) == p ==> b.contains(j as usize)
}

/// Buckets `cells` hold exactly the first `n` positions of `ps`, by cells of edge `c`.
pub open spec fn cells_cover_prefix(
    cells: Map<u128, Vec<usize>>,
    ps: Seq<Ecef>,
    c: int,
    n: int,
) -> bool {
    &&& c > 0
    &&& 0 <= n <= ps.len()
    &&& forall|p: u128| #[trigger] cells.contains_key(p) ==> bucket_ok(cells[p]@, ps, c, p as int, n)
    &&& forall|j: int| 0 <= j < n ==> cells.contains_key(packed(cell_of(ps[j], c)) as u128)
}

impl SpatialIndex {
    /// The index buckets exactly the first `n` positions of `ps`.
    pub open spec fn covers_prefix(self, ps: Seq<Ecef>, n: int) -> bool {
        cells_cover_prefix(self.cells@, ps, self.cell_mm as int, n)
    }

    /// The index buckets every position of `ps`.
    pub open spec fn covers(self, ps: Seq<Ecef>) -> bool {
        self.covers_prefix(ps, ps.len() as int)
    }
}

/// Every position lies within the coordinate bounds.
pub open spec fn all_in_bounds(ps: Seq<Ecef>) -> bool {
    forall|j: int| 0 <= j < ps.len() ==> #[trigger] ps[j].in_bounds()
}

/// Buckets every position by its cell of edge `cell_mm`. A non-positive
/// edge gives an index with no cells.
pub fn build_spatial_hash(positions: &Vec<Ecef>, cell_mm: i64) -> (r: SpatialIndex)
    requires
        all_in_bounds(positions@),
    ensures
        r.cell_mm == cell_mm,
        cell_mm <= 0 ==> r.cells@.is_empty(),
        cell_mm > 0 ==> r.covers(positions@),
{
    let mut cells: HashMap<u128, Vec<usize>> = HashMap::new();
    if cell_mm <= 0 {
        return SpatialIndex { cell_mm, cells };
    }
    let ghost ps = positions@;
    let ghost c = cell_mm as int;
    let mut i: usize = 0;
    while i < positions.len()
        invariant
            ps == positions@,
            c == cell_mm as int,
            all_in_bounds(ps),
            cells_cover_prefix(cells@, ps, c, i as int),
        decreases positions.len() - i,
    {
        let ghost old_cells = cells@;
        proof {
            lemma_cell_of_bounds(ps[i as int], c);
        }
        let k = cell_key(positions[i], cell_mm);
        assert(k == cell_of(ps[i as int], c));
        let key = pack(k);
        match cells.remove(&key) {
            Some(mut b) => {
                let ghost ob = b@;
                b.push(i);
                proof {
                    assert(old_cells.contains_key(key) && old_cells[key]@ == ob);
                    assert(bucket_ok(ob, ps, c, key as int, i as int));
                    assert forall|j: int|
                        0 <= j < i + 1 && packed(cell_of(ps[j], c)) == key implies b@.contains(
                        j as usize,
                    ) by {
                        if j < i {
                            let u = choose|u: int| 0 <= u < ob.len() && ob[u] == j as usize;
                            assert(b@[u] == j as usize);
                        } else {
                            assert(b@[ob.len() as int] == i);
                        }
                    }
                }
                cells.insert(key, b);
            },
            None => {
                let v: Vec<usize> = vec![i];
                proof {
                    assert forall|j: int|
                        0 <= j < i + 1 && packed(cell_of(ps[j], c)) == key implies v@.contains(
                        j as usize,
                    ) by {
                        if j < i {
                            assert(old_cells.contains_key(packed(cell_of(ps[j], c)) as u128));
                        } else {
                            assert(v@[0] == i);
                        }
                    }
                }
                cells.insert(key, v);
            },
        }
        proof {
            assert forall|p: u128| #[trigger]
                cells@.contains_key(p) implies bucket_ok(
                cells@[p]@,
                ps,
                c,
                p as int,
                i + 1,
            ) by {
                if p != key {
                    assert(old_cells.contains_key(p));
                    assert(bucket_ok(old_cells[p]@, ps, c, p as int, i as int));
                    assert forall|j: int|
                        0 <= j < i + 1 && packed(cell_of(ps[j], c)) == p implies cells@[p]@.contains(
                        j as usize,
                    ) by {
                        assert(j < i);
                    }
                }
            }
        }
        i = i + 1;
    }
    SpatialIndex { cell_mm, cells }
}

} // verus!
