//! Two-tier spatial index: hexagonal surface cells with altitude voxels.
//!
//! Positions are fixed-point geodetic coordinates (micro-degrees of latitude
//! and longitude, fixed-point metres of altitude). The surface partition is
//! an offset-row grid — every other row of cells is shifted by half a cell
//! width, so each cell touches six neighbours, a hexagonal topology — and
//! the binning is exact integer arithmetic, so every node computes the same
//! cell for the same coordinates. The vertical key is the altitude bucket of
//! configurable height. The index itself is the map from track identifier to
//! its one occupied cell; per-cell track sets are that map read backwards,
//! so a track is never in two cells.

use vstd::prelude::*;

verus! {

use crate::fixed::{floor_div, floor_div_exec, abs_i, lemma_floor_div_mag};

/// Largest coordinate magnitude the index accepts, micro-degrees; geodetic
/// coordinates stay within ±180 degrees with room to spare.
pub const COORD_MAX_E6: i64 = 400_000_000;

/// The row of a latitude: which band of `cell_h` micro-degrees it falls in.
pub open spec fn spec_row(lat_e6: int, cell_h: int) -> int {
    floor_div(lat_e6, cell_h)
}

/// Whether a row is offset: odd rows shift east by half a cell.
pub open spec fn spec_row_par(row: int) -> int {
    row - 2 * floor_div(row, 2)
}

/// The column of a longitude in a row: computed on doubled coordinates so
/// the half-cell shift of odd rows stays in integers.
pub open spec fn spec_col(lng_e6: int, row: int, cell_w: int) -> int {
    floor_div(2 * lng_e6 + spec_row_par(row) * cell_w, 2 * cell_w)
}

/// Packs a (row, column) pair into one cell identifier.
pub open spec fn spec_cell_id(row: int, col: int) -> u64 {
    (((row + 0x8000_0000) * 0x1_0000_0000) + (col + 0x8000_0000)) as u64
}

/// The row a cell identifier encodes.
pub open spec fn row_of_cell(c: u64) -> int {
    c as int / 0x1_0000_0000 - 0x8000_0000
}

/// The column a cell identifier encodes.
pub open spec fn col_of_cell(c: u64) -> int {
    c as int % 0x1_0000_0000 - 0x8000_0000
}

/// Packing is lossless for in-range rows and columns.
pub proof fn lemma_cell_id_inverse(row: int, col: int)
    requires
        -0x8000_0000 <= row < 0x8000_0000,
        -0x8000_0000 <= col < 0x8000_0000,
    ensures
        row_of_cell(spec_cell_id(row, col)) == row,
        col_of_cell(spec_cell_id(row, col)) == col,
{
    let m: int = 0x1_0000_0000;
    let a = row + 0x8000_0000;
    let b = col + 0x8000_0000;
    let v = a * m + b;
    assert(0 <= v < 0x1_0000_0000_0000_0000) by (nonlinear_arith)
        requires
            0 <= a < m,
            0 <= b < m,
            v == a * m + b,
            m == 0x1_0000_0000,
    ;
    assert(spec_cell_id(row, col) as int == v);
    vstd::arithmetic::div_mod::lemma_fundamental_div_mod_converse(v, m, a, b);
}

/// An observation at the boundary: a stable observation identifier, a
/// fixed-point position and velocity, a class tag, a millisecond timestamp
/// and a confidence in [0, 1].
pub struct Entity {
    /// Stable observation identifier (a UUID as its 128-bit value).
    pub id: u128,
    /// Micro-degrees latitude, micro-degrees longitude, fixed-point metres
    /// altitude.
    pub position: Vec<i64>,
    /// Fixed-point metres per second, one entry per axis.
    pub velocity: Vec<i64>,
    /// Class tag bytes.
    pub entity_type: Vec<u8>,
    /// Integer millisecond timestamp.
    pub timestamp: i64,
    /// Confidence, fixed-point in [0, 1].
    pub confidence: i64,
}

impl Entity {
    /// Shape and range constraints: 3-vectors, confidence in [0, 1],
    /// coordinates within the geodetic range.
    pub open spec fn wf(&self) -> bool {
        &&& self.position@.len() == 3
        &&& self.velocity@.len() == 3
        &&& 0 <= self.confidence <= crate::fixed::FX_ONE
        &&& abs_i(self.position@[0] as int) <= COORD_MAX_E6
        &&& abs_i(self.position@[1] as int) <= COORD_MAX_E6
        &&& self.position@[2] > i64::MIN
    }
}

/// One occupied cell, read out of the index: its horizontal and vertical key
/// and the tracks in it.
pub struct WorldShard {
    /// Packed surface cell identifier.
    pub hex: u64,
    /// Altitude bucket.
    pub voxel: i64,
    /// The tracks whose position falls in this cell.
    pub tracks: Vec<u128>,
}

/// Whether the location list holds `u` at cell `(h, v)`.
pub open spec fn has_loc(locs: Seq<(u128, u64, i64)>, u: u128, h: u64, v: i64) -> bool {
    exists|i: int| 0 <= i < locs.len() && locs[i] == (u, h, v)
}

/// Whether the location list holds `u` at all.
pub open spec fn is_tracked(locs: Seq<(u128, u64, i64)>, u: u128) -> bool {
    exists|i: int| 0 <= i < locs.len() && (#[trigger] locs[i]).0 == u
}

/// The spatial index: the cell geometry and the map from track to its one
/// occupied cell.
pub struct SpatialEngine {
    /// Cell height, micro-degrees of latitude (about 584 for 65 m cells).
    pub cell_h: i64,
    /// Cell width, micro-degrees of longitude.
    pub cell_w: i64,
    /// Voxel height, fixed-point metres.
    pub voxel_height: i64,
    /// Each tracked identifier with its occupied cell, one entry per track.
    pub locs: Vec<(u128, u64, i64)>,
}

impl SpatialEngine {
    /// Structural invariant: positive cell geometry and one entry per track.
    pub open spec fn wf(&self) -> bool {
        &&& 0 < self.cell_h <= COORD_MAX_E6
        &&& 0 < self.cell_w <= COORD_MAX_E6
        &&& self.voxel_height > 0
        &&& (forall|i: int, j: int|
            0 <= i < j < self.locs@.len() ==> (#[trigger] self.locs@[i]).0 != (
            #[trigger] self.locs@[j]).0)
    }

    /// A fresh index.
    pub fn new(cell_h: i64, cell_w: i64, voxel_height: i64) -> (r: Self)
        requires
            0 < cell_h <= COORD_MAX_E6,
            0 < cell_w <= COORD_MAX_E6,
            voxel_height > 0,
        ensures
            r.wf(),
            r.cell_h == cell_h,
            r.cell_w == cell_w,
            r.voxel_height == voxel_height,
            r.locs@.len() == 0,
    {
        SpatialEngine { cell_h, cell_w, voxel_height, locs: Vec::new() }
    }

    /// The cell keys of a position: the packed surface cell of the latitude
    /// and longitude, and the altitude bucket.
    pub open spec fn spec_cell_keys(&self, lat_e6: i64, lng_e6: i64, alt: i64) -> (u64, i64) {
        let row = spec_row(lat_e6 as int, self.cell_h as int);
        let col = spec_col(lng_e6 as int, row, self.cell_w as int);
        (spec_cell_id(row, col), floor_div(alt as int, self.voxel_height as int) as i64)
    }

    /// Computes the cell keys of a position.
    pub fn cell_keys(&self, lat_e6: i64, lng_e6: i64, alt: i64) -> (r: (u64, i64))
        requires
            self.wf(),
            abs_i(lat_e6 as int) <= COORD_MAX_E6,
            abs_i(lng_e6 as int) <= COORD_MAX_E6,
            alt > i64::MIN,
        ensures
            r == self.spec_cell_keys(lat_e6, lng_e6, alt),
            ({
                let row = spec_row(lat_e6 as int, self.cell_h as int);
                let col = spec_col(lng_e6 as int, row, self.cell_w as int);
                row_of_cell(r.0) == row && col_of_cell(r.0) == col
            }),
    {
        let row: i64 = floor_div_exec(lat_e6, self.cell_h);
        proof {
            lemma_floor_div_mag(lat_e6 as int, self.cell_h as int);
        }
        let half: i64 = floor_div_exec(row, 2);
        proof {
            lemma_floor_div_mag(row as int, 2);
        }
        let par: i64 = row - 2 * half;
        proof {
            vstd::arithmetic::div_mod::lemma_fundamental_div_mod(row as int, 2);
            assert(row as int - 2 * floor_div(row as int, 2) == row as int % 2);
            assert(0 <= row as int % 2 < 2);
            assert(par == 0 || par == 1);
            assert(par as int * self.cell_w as int == if par == 0 {
                0int
            } else {
                self.cell_w as int
            }) by (nonlinear_arith)
                requires
                    par == 0 || par == 1,
            ;
        }
        let num: i64 = 2 * lng_e6 + par * self.cell_w;
        let col: i64 = floor_div_exec(num, 2 * self.cell_w);
        proof {
            lemma_floor_div_mag(num as int, 2 * self.cell_w as int);
        }
        let vox: i64 = floor_div_exec(alt, self.voxel_height);
        proof {
            lemma_cell_id_inverse(row as int, col as int);
        }
        let cell: u64 = (((row as i128 + 0x8000_0000) * 0x1_0000_0000 + (col as i128
            + 0x8000_0000)) as u64);
        proof {
            assert(cell == spec_cell_id(row as int, col as int));
        }
        (cell, vox)
    }

    /// Places a track at a position, moving it from wherever it was: after
    /// the call the track occupies exactly the cell of the position, every
    /// other track is where it was, and repeating the call changes nothing.
    pub fn upsert(&mut self, track: u128, lat_e6: i64, lng_e6: i64, alt: i64)
        requires
            old(self).wf(),
            abs_i(lat_e6 as int) <= COORD_MAX_E6,
            abs_i(lng_e6 as int) <= COORD_MAX_E6,
            alt > i64::MIN,
        ensures
            final(self).wf(),
            final(self).cell_h == old(self).cell_h,
            final(self).cell_w == old(self).cell_w,
            final(self).voxel_height == old(self).voxel_height,
            ({
                let (h, v) = old(self).spec_cell_keys(lat_e6, lng_e6, alt);
                has_loc(final(self).locs@, track, h, v)
            }),
            forall|u: u128, h: u64, v: i64|
                u != track ==> (has_loc(final(self).locs@, u, h, v) <==> has_loc(
                    old(self).locs@,
                    u,
                    h,
                    v,
                )),
            is_tracked(old(self).locs@, track) ==> final(self).locs@.len() == old(
                self,
            ).locs@.len(),
            !is_tracked(old(self).locs@, track) ==> final(self).locs@.len() == old(
                self,
            ).locs@.len() + 1,
    {
        let keys = self.cell_keys(lat_e6, lng_e6, alt);
        let ghost locs0 = self.locs@;
        let mut i: usize = 0;
        while i < self.locs.len()
            invariant
                old(self).wf(),
                self == old(self),
                locs0 == self.locs@,
                i <= self.locs.len(),
                keys == old(self).spec_cell_keys(lat_e6, lng_e6, alt),
                forall|j: int| 0 <= j < i ==> (#[trigger] locs0[j]).0 != track,
            decreases self.locs.len() - i,
        {
            if self.locs[i].0 == track {
                self.locs[i] = (track, keys.0, keys.1);
                proof {
                    assert(self.locs@ == locs0.update(i as int, (track, keys.0, keys.1)));
                    assert(self.locs@[i as int] == (track, keys.0, keys.1));
                    assert(has_loc(self.locs@, track, keys.0, keys.1));
                    assert forall|u: u128, h: u64, v: i64| u != track implies (has_loc(
                        self.locs@,
                        u,
                        h,
                        v,
                    ) <==> has_loc(locs0, u, h, v)) by {
                        if has_loc(self.locs@, u, h, v) {
                            let w = choose|w: int|
                                0 <= w < self.locs@.len() && self.locs@[w] == (u, h, v);
                            assert(w != i as int);
                            assert(locs0[w] == (u, h, v));
                        }
                        if has_loc(locs0, u, h, v) {
                            let w = choose|w: int| 0 <= w < locs0.len() && locs0[w] == (u, h, v);
                            assert(w != i as int);
                            assert(self.locs@[w] == (u, h, v));
                        }
                    }
                    assert(is_tracked(locs0, track));
                }
                return ;
            }
            i = i + 1;
        }
        self.locs.push((track, keys.0, keys.1));
        proof {
            assert(self.locs@ == locs0.push((track, keys.0, keys.1)));
            assert(self.locs@[locs0.len() as int] == (track, keys.0, keys.1));
            assert(has_loc(self.locs@, track, keys.0, keys.1));
            assert forall|u: u128, h: u64, v: i64| u != track implies (has_loc(
                self.locs@,
                u,
                h,
                v,
            ) <==> has_loc(locs0, u, h, v)) by {
                if has_loc(self.locs@, u, h, v) {
                    let w = choose|w: int| 0 <= w < self.locs@.len() && self.locs@[w] == (u, h, v);
                    assert(w != locs0.len());
                    assert(locs0[w] == (u, h, v));
                }
                if has_loc(locs0, u, h, v) {
                    let w = choose|w: int| 0 <= w < locs0.len() && locs0[w] == (u, h, v);
                    assert(self.locs@[w] == (u, h, v));
                }
            }
            assert(!is_tracked(locs0, track));
        }
    }

    /// Removes a track from the index; every other track is untouched.
    pub fn remove(&mut self, track: u128)
        requires
            old(self).wf(),
        ensures
            final(self).wf(),
            final(self).cell_h == old(self).cell_h,
            final(self).cell_w == old(self).cell_w,
            final(self).voxel_height == old(self).voxel_height,
            !is_tracked(final(self).locs@, track),
            forall|u: u128, h: u64, v: i64|
                u != track ==> (has_loc(final(self).locs@, u, h, v) <==> has_loc(
                    old(self).locs@,
                    u,
                    h,
                    v,
                )),
    {
        let ghost locs0 = self.locs@;
        let mut i: usize = 0;
        while i < self.locs.len()
            invariant
                old(self).wf(),
                self == old(self),
                locs0 == self.locs@,
                i <= self.locs.len(),
                forall|j: int| 0 <= j < i ==> (#[trigger] locs0[j]).0 != track,
            decreases self.locs.len() - i,
        {
            if self.locs[i].0 == track {
                self.locs.remove(i);
                proof {
                    assert(self.locs@ == locs0.remove(i as int));
                    assert forall|w: int| 0 <= w < self.locs@.len() implies #[trigger] self.locs@[w]
                        == (if w < i as int {
                        locs0[w]
                    } else {
                        locs0[w + 1]
                    }) by {}
                    assert forall|u: u128, h: u64, v: i64| u != track implies (has_loc(
                        self.locs@,
                        u,
                        h,
                        v,
                    ) <==> has_loc(locs0, u, h, v)) by {
                        if has_loc(self.locs@, u, h, v) {
                            let w = choose|w: int|
                                0 <= w < self.locs@.len() && self.locs@[w] == (u, h, v);
                            if w < i as int {
                                assert(locs0[w] == (u, h, v));
                            } else {
                                assert(locs0[w + 1] == (u, h, v));
                            }
                        }
                        if has_loc(locs0, u, h, v) {
                            let w = choose|w: int| 0 <= w < locs0.len() && locs0[w] == (u, h, v);
                            assert(w != i as int);
                            if w < i as int {
                                assert(self.locs@[w] == (u, h, v));
                            } else {
                                assert(self.locs@[w - 1] == (u, h, v));
                            }
                        }
                    }
                    assert forall|w: int| 0 <= w < self.locs@.len() implies (
                    #[trigger] self.locs@[w]).0 != track by {
                        if w < i as int {
                        } else {
                            assert(self.locs@[w] == locs0[w + 1]);
                        }
                    }
                }
                return ;
            }
            i = i + 1;
        }
        proof {
            assert(!is_tracked(locs0, track));
        }
    }

    /// Membership in the ring around a centre cell: within `kr` rows, `kc`
    /// columns and `vk` voxel layers.
    pub open spec fn spec_in_range(
        &self,
        u: u128,
        centre: u64,
        kr: i64,
        kc: i64,
        cvox: i64,
        vk: i64,
    ) -> bool {
        exists|h: u64, v: i64|
            #![trigger has_loc(self.locs@, u, h, v)]
            has_loc(self.locs@, u, h, v) && abs_i(row_of_cell(h) - row_of_cell(centre)) <= kr
                && abs_i(col_of_cell(h) - col_of_cell(centre)) <= kc && cvox - vk <= v <= cvox + vk
    }

    /// Collects every track within `kr` rows and `kc` columns of the given
    /// position's cell and within `vk` voxel layers of its altitude. The
    /// caller sizes the ring so that `kr * cell_h` and `(kc - 1) * cell_w`
    /// cover its search radius; exact distance filtering stays with the
    /// caller, and nothing inside the ring is omitted.
    pub fn query_ring(&self, lat_e6: i64, lng_e6: i64, alt: i64, kr: i64, kc: i64, vk: i64) -> (r:
        Vec<u128>)
        requires
            self.wf(),
            abs_i(lat_e6 as int) <= COORD_MAX_E6,
            abs_i(lng_e6 as int) <= COORD_MAX_E6,
            alt > i64::MIN,
            kr >= 0,
            kc >= 0,
            vk >= 0,
        ensures
            ({
                let centre = self.spec_cell_keys(lat_e6, lng_e6, alt);
                forall|u: u128|
                    #![trigger r@.contains(u)]
                    r@.contains(u) <==> self.spec_in_range(u, centre.0, kr, kc, centre.1, vk)
            }),
    {
        let keys = self.cell_keys(lat_e6, lng_e6, alt);
        let crow: i64 = ((keys.0 / 0x1_0000_0000) as i64) - 0x8000_0000;
        let ccol: i64 = ((keys.0 % 0x1_0000_0000) as i64) - 0x8000_0000;
        proof {
            assert(crow as int == row_of_cell(keys.0));
            assert(ccol as int == col_of_cell(keys.0));
        }
        let mut r: Vec<u128> = Vec::new();
        let mut i: usize = 0;
        while i < self.locs.len()
            invariant
                self.wf(),
                i <= self.locs.len(),
                keys == self.spec_cell_keys(lat_e6, lng_e6, alt),
                crow as int == row_of_cell(keys.0),
                ccol as int == col_of_cell(keys.0),
                kr >= 0,
                kc >= 0,
                vk >= 0,
                forall|u: u128|
                    #![trigger r@.contains(u)]
                    r@.contains(u) <==> exists|j: int|
                        0 <= j < i && #[trigger] self.locs@[j].0 == u && abs_i(
                            row_of_cell(self.locs@[j].1) - crow as int,
                        ) <= kr as int && abs_i(col_of_cell(self.locs@[j].1) - ccol as int)
                            <= kc as int && keys.1 - vk <= self.locs@[j].2 <= keys.1 + vk,
            decreases self.locs.len() - i,
        {
            let (u, h, v) = self.locs[i];
            let hrow: i64 = ((h / 0x1_0000_0000) as i64) - 0x8000_0000;
            let hcol: i64 = ((h % 0x1_0000_0000) as i64) - 0x8000_0000;
            proof {
                assert(hrow as int == row_of_cell(h));
                assert(hcol as int == col_of_cell(h));
            }
            let drow: i64 = if hrow >= crow {
                hrow - crow
            } else {
                crow - hrow
            };
            let dcol: i64 = if hcol >= ccol {
                hcol - ccol
            } else {
                ccol - hcol
            };
            let ghost r_before = r@;
            let vlo_ok: bool = (keys.1 as i128) - (vk as i128) <= v as i128;
            let vhi_ok: bool = (v as i128) <= (keys.1 as i128) + (vk as i128);
            if drow <= kr && dcol <= kc && vlo_ok && vhi_ok {
                r.push(u);
                proof {
                    assert(forall|x: u128|
                        r@.contains(x) <==> (r_before.contains(x) || x == u)) by {
                        assert(r@ == r_before.push(u));
                        assert(r@[r_before.len() as int] == u);
                        assert(forall|w: int|
                            0 <= w < r_before.len() ==> r@[w] == #[trigger] r_before[w]);
                        assert(forall|x: u128|
                            #[trigger] r@.contains(x) ==> (exists|w: int|
                                0 <= w < r@.len() && r@[w] == x));
                    }
                }
            }
            proof {
                let li = i as int;
                assert(self.locs@[li] == (u, h, v));
                if drow <= kr && dcol <= kc && vlo_ok && vhi_ok {
                    assert(r@ == r_before.push(u));
                    assert(r@[r_before.len() as int] == u);
                    assert(forall|w: int|
                        0 <= w < r_before.len() ==> r@[w] == #[trigger] r_before[w]);
                } else {
                    assert(r@ == r_before);
                }
                assert forall|x: u128|
                    #![trigger r@.contains(x)]
                    r@.contains(x) <==> exists|j: int|
                        0 <= j < li + 1 && #[trigger] self.locs@[j].0 == x && abs_i(
                            row_of_cell(self.locs@[j].1) - crow as int,
                        ) <= kr as int && abs_i(col_of_cell(self.locs@[j].1) - ccol as int)
                            <= kc as int && keys.1 - vk <= self.locs@[j].2 <= keys.1 + vk by {
                    if r@.contains(x) {
                        let w = choose|w: int| 0 <= w < r@.len() && r@[w] == x;
                        if w < r_before.len() {
                            assert(r_before.contains(x));
                        } else {
                            assert(x == u);
                            assert(self.locs@[li].0 == x);
                        }
                    }
                    if exists|j: int|
                        0 <= j < li + 1 && #[trigger] self.locs@[j].0 == x && abs_i(
                            row_of_cell(self.locs@[j].1) - crow as int,
                        ) <= kr as int && abs_i(col_of_cell(self.locs@[j].1) - ccol as int)
                            <= kc as int && keys.1 - vk <= self.locs@[j].2 <= keys.1 + vk {
                        let j = choose|j: int|
                            0 <= j < li + 1 && #[trigger] self.locs@[j].0 == x && abs_i(
                                row_of_cell(self.locs@[j].1) - crow as int,
                            ) <= kr as int && abs_i(col_of_cell(self.locs@[j].1) - ccol as int)
                                <= kc as int && keys.1 - vk <= self.locs@[j].2 <= keys.1 + vk;
                        if j < li {
                            assert(r_before.contains(x));
                            assert(r@.contains(x));
                        } else {
                            assert(x == u);
                            assert(r@.contains(x));
                        }
                    }
                }
            }
            i = i + 1;
        }
        proof {
            let centre = self.spec_cell_keys(lat_e6, lng_e6, alt);
            assert forall|u: u128|
                #![trigger r@.contains(u)]
                r@.contains(u) <==> self.spec_in_range(u, centre.0, kr, kc, centre.1, vk) by {
                if r@.contains(u) {
                    let j = choose|j: int|
                        0 <= j < self.locs@.len() && #[trigger] self.locs@[j].0 == u && abs_i(
                            row_of_cell(self.locs@[j].1) - crow as int,
                        ) <= kr as int && abs_i(col_of_cell(self.locs@[j].1) - ccol as int)
                            <= kc as int && keys.1 - vk <= self.locs@[j].2 <= keys.1 + vk;
                    let (uu, h, v) = self.locs@[j];
                    assert(self.locs@[j] == (u, h, v));
                    assert(has_loc(self.locs@, u, h, v));
                }
                if self.spec_in_range(u, centre.0, kr, kc, centre.1, vk) {
                    let (h, v) = choose|h: u64, v: i64|
                        #![trigger has_loc(self.locs@, u, h, v)]
                        has_loc(self.locs@, u, h, v) && abs_i(row_of_cell(h) - row_of_cell(centre.0))
                            <= kr && abs_i(col_of_cell(h) - col_of_cell(centre.0)) <= kc && centre.1
                            - vk <= v <= centre.1 + vk;
                    let j = choose|j: int| 0 <= j < self.locs@.len() && self.locs@[j] == (u, h, v);
                    assert(self.locs@[j].0 == u);
                }
            }
        }
        r
    }

    /// The tracks in one cell: the shard for that cell, read out of the
    /// index.
    pub fn query_cell(&self, hex: u64, voxel: i64) -> (r: WorldShard)
        requires
            self.wf(),
        ensures
            r.hex == hex,
            r.voxel == voxel,
            forall|u: u128|
                #![trigger r.tracks@.contains(u)]
                r.tracks@.contains(u) <==> has_loc(self.locs@, u, hex, voxel),
    {
        let mut tracks: Vec<u128> = Vec::new();
        let mut i: usize = 0;
        while i < self.locs.len()
            invariant
                self.wf(),
                i <= self.locs.len(),
                forall|u: u128|
                    #![trigger tracks@.contains(u)]
                    tracks@.contains(u) <==> exists|j: int|
                        0 <= j < i && #[trigger] self.locs@[j] == (u, hex, voxel),
            decreases self.locs.len() - i,
        {
            let (u, h, v) = self.locs[i];
            let ghost t_before = tracks@;
            if h == hex && v == voxel {
                tracks.push(u);
                proof {
                    assert(forall|x: u128|
                        tracks@.contains(x) <==> (t_before.contains(x) || x == u)) by {
                        assert(tracks@ == t_before.push(u));
                        assert(tracks@[t_before.len() as int] == u);
                        assert(forall|w: int|
                            0 <= w < t_before.len() ==> tracks@[w] == #[trigger] t_before[w]);
                        assert(forall|x: u128|
                            #[trigger] tracks@.contains(x) ==> (exists|w: int|
                                0 <= w < tracks@.len() && tracks@[w] == x));
                    }
                }
            }
            proof {
                let li = i as int;
                assert(self.locs@[li] == (u, h, v));
                if h == hex && v == voxel {
                    assert(tracks@ == t_before.push(u));
                    assert(tracks@[t_before.len() as int] == u);
                    assert(forall|w: int|
                        0 <= w < t_before.len() ==> tracks@[w] == #[trigger] t_before[w]);
                } else {
                    assert(tracks@ == t_before);
                }
                assert forall|x: u128|
                    #![trigger tracks@.contains(x)]
                    tracks@.contains(x) <==> exists|j: int|
                        0 <= j < li + 1 && #[trigger] self.locs@[j] == (x, hex, voxel) by {
                    if tracks@.contains(x) {
                        let w = choose|w: int| 0 <= w < tracks@.len() && tracks@[w] == x;
                        if w < t_before.len() {
                            assert(t_before.contains(x));
                        } else {
                            assert(x == u && h == hex && v == voxel);
                            assert(self.locs@[li] == (x, hex, voxel));
                        }
                    }
                    if exists|j: int|
                        0 <= j < li + 1 && #[trigger] self.locs@[j] == (x, hex, voxel) {
                        let j = choose|j: int|
                            0 <= j < li + 1 && #[trigger] self.locs@[j] == (x, hex, voxel);
                        if j < li {
                            assert(t_before.contains(x));
                            assert(tracks@.contains(x));
                        } else {
                            assert(x == u && h == hex && v == voxel);
                            assert(tracks@.contains(x));
                        }
                    }
                }
            }
            i = i + 1;
        }
        WorldShard { hex, voxel, tracks }
    }
}

/// Index uniqueness: a tracked identifier occupies exactly one cell. The
/// existence half is `upsert`'s postcondition; here, any two cells it
/// occupies are the same cell.
pub proof fn lemma_index_unique(engine: &SpatialEngine, u: u128, h1: u64, v1: i64, h2: u64, v2: i64)
    requires
        engine.wf(),
        has_loc(engine.locs@, u, h1, v1),
        has_loc(engine.locs@, u, h2, v2),
    ensures
        h1 == h2 && v1 == v2,
{
    let i = choose|i: int| 0 <= i < engine.locs@.len() && engine.locs@[i] == (u, h1, v1);
    let j = choose|j: int| 0 <= j < engine.locs@.len() && engine.locs@[j] == (u, h2, v2);
    if i < j {
        assert(engine.locs@[i].0 != engine.locs@[j].0);
    } else if j < i {
        assert(engine.locs@[j].0 != engine.locs@[i].0);
    }
}

/// Ring coverage: positions whose latitudes differ by at most `kr` cell
/// heights land at most `kr` rows apart, so a ring of `kr` rows never omits
/// them.
pub proof fn lemma_row_coverage(lat1: int, lat2: int, cell_h: int, kr: int)
    requires
        cell_h > 0,
        kr >= 0,
        abs_i(lat1 - lat2) <= kr * cell_h,
    ensures
        abs_i(spec_row(lat1, cell_h) - spec_row(lat2, cell_h)) <= kr,
{
    let r1 = spec_row(lat1, cell_h);
    let r2 = spec_row(lat2, cell_h);
    vstd::arithmetic::div_mod::lemma_fundamental_div_mod(lat1, cell_h);
    vstd::arithmetic::div_mod::lemma_fundamental_div_mod(lat2, cell_h);
    assert(abs_i(r1 - r2) <= kr) by (nonlinear_arith)
        requires
            lat1 == cell_h * r1 + lat1 % cell_h,
            lat2 == cell_h * r2 + lat2 % cell_h,
            0 <= lat1 % cell_h < cell_h,
            0 <= lat2 % cell_h < cell_h,
            abs_i(lat1 - lat2) <= kr * cell_h,
            cell_h > 0,
            kr >= 0,
    ;
}

} // verus!
