//! The terrain store: which voxel each slot of the ring buffer holds, and the
//! per-frame decision of which slots are regenerated.
use crate::grid::{
    get_index, lemma_window_slots_bijective, slot_index, window_cell_for_slot, BUFFER_SIZE,
    RENDER_DIST_VOXELS,
};
use vstd::arithmetic::div_mod::lemma_fundamental_div_mod_converse;
use vstd::prelude::*;

verus! {

/// A staged change: a slot of the terrain buffer and the voxel it is refilled with.
pub type Change = (usize, (i32, i32));

/// The changes are in non-decreasing slot order.
pub open spec fn sorted_by_slot(s: Seq<Change>) -> bool {
    forall|i: int, j: int| 0 <= i < j < s.len() ==> s[i].0 <= s[j].0
}

/// Copies positions `lo..hi` of `v`.
fn copy_range(v: &Vec<Change>, lo: usize, hi: usize) -> (out: Vec<Change>)
    requires
        lo <= hi <= v.len(),
    ensures
        out@ == v@.subrange(lo as int, hi as int),
{
    let mut out: Vec<Change> = Vec::new();
    for i in lo..hi
        invariant
            lo <= hi <= v.len(),
            out@ == v@.subrange(lo as int, i as int),
    {
        out.push(v[i]);
        assert(out@ =~= v@.subrange(lo as int, i + 1));
    }
    out
}

/// Merges two slot-sorted lists of changes into one.
fn merge_by_slot(left: &Vec<Change>, right: &Vec<Change>) -> (out: Vec<Change>)
    requires
        sorted_by_slot(left@),
        sorted_by_slot(right@),
    ensures
        sorted_by_slot(out@),
        out@.to_multiset() == left@.to_multiset().add(right@.to_multiset()),
{
    broadcast use vstd::seq_lib::group_to_multiset_ensures;

    let mut out: Vec<Change> = Vec::new();
    let mut i: usize = 0;
    let mut j: usize = 0;
    while i < left.len() || j < right.len()
        invariant
            i <= left.len(),
            j <= right.len(),
            sorted_by_slot(left@),
            sorted_by_slot(right@),
            sorted_by_slot(out@),
            out@.to_multiset() == left@.take(i as int).to_multiset().add(right@.take(j as int).to_multiset()),
            out.len() > 0 && i < left.len() ==> out@.last().0 <= left@[i as int].0,
            out.len() > 0 && j < right.len() ==> out@.last().0 <= right@[j as int].0,
        decreases left.len() + right.len() - i - j,
    {
        let ghost before = out@;
        let take_left = j >= right.len() || (i < left.len() && left[i].0 <= right[j].0);
        if take_left {
            let item = left[i];
            out.push(item);
            proof {
                vstd::seq_lib::to_multiset_build(before, item);
                vstd::seq_lib::to_multiset_build(left@.take(i as int), item);
                assert(left@.take(i + 1) =~= left@.take(i as int).push(item));
            }
            i = i + 1;
        } else {
            let item = right[j];
            out.push(item);
            proof {
                vstd::seq_lib::to_multiset_build(before, item);
                vstd::seq_lib::to_multiset_build(right@.take(j as int), item);
                assert(right@.take(j + 1) =~= right@.take(j as int).push(item));
            }
            j = j + 1;
        }
        assert(sorted_by_slot(out@)) by {
            assert forall|a: int, b: int| 0 <= a < b < out@.len() implies out@[a].0 <= out@[b].0 by {
                if b < before.len() {
                    assert(out@[a] == before[a] && out@[b] == before[b]);
                } else if a < before.len() - 1 {
                    assert(out@[a] == before[a]);
                    assert(before[a].0 <= before[before.len() - 1].0);
                } else if a < before.len() {
                    assert(out@[a] == before[a]);
                }
            }
        }
        assert(out@.to_multiset() =~= left@.take(i as int).to_multiset().add(
            right@.take(j as int).to_multiset(),
        ));
    }
    assert(left@.take(left.len() as int) =~= left@);
    assert(right@.take(right.len() as int) =~= right@);
    out
}

/// Sorts staged changes by slot, keeping all of them.
pub fn sort_changes_by_slot(changes: &Vec<Change>) -> (sorted: Vec<Change>)
    ensures
        sorted_by_slot(sorted@),
        sorted@.to_multiset() == changes@.to_multiset(),
    decreases changes.len(),
{
    let n = changes.len();
    if n <= 1 {
        let out = copy_range(changes, 0, n);
        assert(out@ =~= changes@);
        return out;
    }
    let mid = n / 2;
    let left = copy_range(changes, 0, mid);
    let right = copy_range(changes, mid, n);
    let sorted_left = sort_changes_by_slot(&left);
    let sorted_right = sort_changes_by_slot(&right);
    let out = merge_by_slot(&sorted_left, &sorted_right);
    proof {
        assert(changes@ =~= left@ + right@);
        vstd::seq_lib::lemma_multiset_commutative(left@, right@);
    }
    out
}

/// The voxels `(x, z)` with `x0 <= x < x1` and `z0 <= z < z1`, row by row: `z`
/// ascending, and within a row `x` ascending.
pub open spec fn rect_cells(x0: int, x1: int, z0: int, z1: int) -> Seq<(i32, i32)> {
    let w = x1 - x0;
    let h = z1 - z0;
    if w <= 0 || h <= 0 {
        Seq::empty()
    } else {
        Seq::new((w * h) as nat, |i: int| ((x0 + i % w) as i32, (z0 + i / w) as i32))
    }
}

proof fn lemma_rect_position(w: int, row: int, col: int)
    requires
        w > 0,
        row >= 0,
        0 <= col < w,
    ensures
        (row * w + col) % w == col,
        (row * w + col) / w == row,
        row * w + col < (row + 1) * w,
        (row + 1) * w == row * w + w,
{
    lemma_fundamental_div_mod_converse(row * w + col, w, row, col);
    assert((row + 1) * w == row * w + w) by (nonlinear_arith);
}

/// Lists the voxels of a rectangle, row by row.
pub fn rect_cells_vec(x0: i32, x1: i32, z0: i32, z1: i32) -> (cells: Vec<(i32, i32)>)
    ensures
        cells@ == rect_cells(x0 as int, x1 as int, z0 as int, z1 as int),
{
    let mut out: Vec<(i32, i32)> = Vec::new();
    if x1 <= x0 || z1 <= z0 {
        return out;
    }
    let ghost w = x1 - x0;
    let ghost h = z1 - z0;
    let mut z = z0;
    while z < z1
        invariant
            z0 <= z <= z1,
            x0 < x1,
            w == x1 - x0,
            out.len() == (z - z0) * w,
            forall|k: int|
                0 <= k < out.len() ==> #[trigger] out@[k] == ((x0 + k % w) as i32, (z0 + k / w) as i32),
        decreases z1 - z,
    {
        let mut x = x0;
        while x < x1
            invariant
                z0 <= z < z1,
                x0 <= x <= x1,
                x0 < x1,
                w == x1 - x0,
                out.len() == (z - z0) * w + (x - x0),
                forall|k: int|
                    0 <= k < out.len() ==> #[trigger] out@[k] == ((x0 + k % w) as i32, (z0 + k / w)
                        as i32),
            decreases x1 - x,
        {
            proof {
                lemma_rect_position(w, z - z0, x - x0);
            }
            out.push((x, z));
            x = x + 1;
        }
        proof {
            lemma_rect_position(w, z - z0, 0);
        }
        z = z + 1;
    }
    assert(out.len() == h * w);
    assert(h * w == w * h) by (nonlinear_arith);
    assert(out@ =~= rect_cells(x0 as int, x1 as int, z0 as int, z1 as int));
    out
}


/// The slot of a voxel given as a pair.
pub open spec fn cell_slot(c: (i32, i32)) -> int {
    slot_index(c.0 as int, c.1 as int)
}

/// Visits `cells` in order; a visited voxel whose slot holds another voxel is
/// regenerated: the slot is refilled and the change is staged. Gives the slots
/// afterwards and the staged changes in visiting order.
pub open spec fn refresh_spec(slots: Seq<(i32, i32)>, cells: Seq<(i32, i32)>) -> (Seq<(i32, i32)>, Seq<Change>)
    decreases cells.len(),
{
    if cells.len() == 0 {
        (slots, Seq::empty())
    } else {
        let prev = refresh_spec(slots, cells.drop_last());
        let c = cells.last();
        let i = cell_slot(c);
        if prev.0[i] == c {
            prev
        } else {
            (prev.0.update(i, c), prev.1.push((i as usize, c)))
        }
    }
}

/// Writes every voxel of `cells` into its slot, in order, regenerated or not.
pub open spec fn fill_spec(slots: Seq<(i32, i32)>, cells: Seq<(i32, i32)>) -> Seq<(i32, i32)>
    decreases cells.len(),
{
    if cells.len() == 0 {
        slots
    } else {
        fill_spec(slots, cells.drop_last()).update(cell_slot(cells.last()), cells.last())
    }
}

/// The change that regenerates a voxel in its slot.
pub open spec fn change_for(c: (i32, i32)) -> Change {
    (cell_slot(c) as usize, c)
}

/// Which voxel each slot of the terrain ring buffer currently holds.
pub struct TerrainStore {
    /// The voxel coordinates of the quad stored in each slot.
    pub quad_coords: Vec<(i32, i32)>,
    /// Whether the whole render window has been generated once.
    pub initialized: bool,
}

impl TerrainStore {
    /// One entry per slot of the `BUFFER_SIZE` by `BUFFER_SIZE` buffer.
    pub open spec fn wf(&self) -> bool {
        self.quad_coords@.len() == BUFFER_SIZE * BUFFER_SIZE
    }
}

impl Default for TerrainStore {
    /// A store of default quads (all at voxel `(0, 0)`), not yet initialized.
    fn default() -> (s: Self)
        ensures
            s.wf(),
            s.quad_coords@ == Seq::new((BUFFER_SIZE * BUFFER_SIZE) as nat, |i: int| (0i32, 0i32)),
            !s.initialized,
    {
        let n: usize = (BUFFER_SIZE * BUFFER_SIZE) as usize;
        let mut quad_coords: Vec<(i32, i32)> = Vec::new();
        for i in 0..n
            invariant
                n == BUFFER_SIZE * BUFFER_SIZE,
                quad_coords@ == Seq::new(i as nat, |k: int| (0i32, 0i32)),
        {
            quad_coords.push((0, 0));
            assert(quad_coords@ =~= Seq::new((i + 1) as nat, |k: int| (0i32, 0i32)));
        }
        TerrainStore { quad_coords, initialized: false }
    }
}

/// Regenerates, in order, each voxel of `cells` that its slot does not hold, and
/// returns the staged changes in visiting order.
pub fn refresh_cells(store: &mut TerrainStore, cells: &Vec<(i32, i32)>) -> (changes: Vec<Change>)
    requires
        old(store).wf(),
    ensures
        final(store).wf(),
        final(store).initialized == old(store).initialized,
        (final(store).quad_coords@, changes@) == refresh_spec(old(store).quad_coords@, cells@),
{
    let mut changes: Vec<Change> = Vec::new();
    let n = cells.len();
    for i in 0..n
        invariant
            n == cells.len(),
            store.wf(),
            store.initialized == old(store).initialized,
            (store.quad_coords@, changes@) == refresh_spec(old(store).quad_coords@, cells@.take(i as int)),
    {
        let c = cells[i];
        let idx = get_index(c.0, c.1);
        assert(cells@.take(i + 1).drop_last() == cells@.take(i as int));
        let held = store.quad_coords[idx];
        if held.0 != c.0 || held.1 != c.1 {
            changes.push((idx, c));
            store.quad_coords.set(idx, c);
        }
    }
    assert(cells@.take(n as int) == cells@);
    changes
}

/// Writes every voxel of `cells` into its slot and stages a change for each, in order.
pub fn fill_cells(store: &mut TerrainStore, cells: &Vec<(i32, i32)>) -> (changes: Vec<Change>)
    requires
        old(store).wf(),
    ensures
        final(store).wf(),
        final(store).initialized == old(store).initialized,
        final(store).quad_coords@ == fill_spec(old(store).quad_coords@, cells@),
        changes@ == cells@.map_values(|c: (i32, i32)| change_for(c)),
{
    let mut changes: Vec<Change> = Vec::new();
    let n = cells.len();
    for i in 0..n
        invariant
            n == cells.len(),
            store.wf(),
            store.initialized == old(store).initialized,
            store.quad_coords@ == fill_spec(old(store).quad_coords@, cells@.take(i as int)),
            changes@ == cells@.take(i as int).map_values(|c: (i32, i32)| change_for(c)),
    {
        let c = cells[i];
        let idx = get_index(c.0, c.1);
        assert(cells@.take(i + 1).drop_last() == cells@.take(i as int));
        changes.push((idx, c));
        store.quad_coords.set(idx, c);
        assert(changes@ =~= cells@.take(i + 1).map_values(|c: (i32, i32)| change_for(c)));
    }
    assert(cells@.take(n as int) == cells@);
    changes
}


/// The render window around the player's voxel: `RENDER_DIST_VOXELS` voxels on each
/// side, `BUFFER_SIZE` voxels along each edge, listed row by row.
pub open spec fn window_cells(px: int, pz: int) -> Seq<(i32, i32)> {
    let r = RENDER_DIST_VOXELS as int;
    rect_cells(px - r, px + r, pz - r, pz + r)
}

/// The voxels a moving player's frame checks: the outer `v` rows at the top and at
/// the bottom of the window, then the outer `v` columns at its left and right,
/// without the corners that the rows already cover.
pub open spec fn edge_strip_cells(px: int, pz: int, v: int) -> Seq<(i32, i32)> {
    let r = RENDER_DIST_VOXELS as int;
    rect_cells(px - r, px + r, pz + r - v, pz + r) + rect_cells(px - r, px + r, pz - r, pz - r + v)
        + rect_cells(px - r, px - r + v, pz - r + v, pz + r - v) + rect_cells(
        px + r - v,
        px + r,
        pz - r + v,
        pz + r - v,
    )
}

/// `x` is representable as an `i32`.
pub open spec fn fits_i32(x: int) -> bool {
    i32::MIN <= x <= i32::MAX
}

/// The bounds of the render window around `(px, pz)` are representable.
pub open spec fn window_fits(px: int, pz: int) -> bool {
    let r = RENDER_DIST_VOXELS as int;
    fits_i32(px - r) && fits_i32(px + r) && fits_i32(pz - r) && fits_i32(pz + r)
}

/// The bounds of the edge strips of width `v` around `(px, pz)` are representable.
pub open spec fn strips_fit(px: int, pz: int, v: int) -> bool {
    let r = RENDER_DIST_VOXELS as int;
    &&& window_fits(px, pz)
    &&& fits_i32(px - r + v)
    &&& fits_i32(px + r - v)
    &&& fits_i32(pz - r + v)
    &&& fits_i32(pz + r - v)
}

/// Lists the voxels of the render window around `(px, pz)`.
pub fn window_cells_vec(px: i32, pz: i32) -> (cells: Vec<(i32, i32)>)
    requires
        window_fits(px as int, pz as int),
    ensures
        cells@ == window_cells(px as int, pz as int),
{
    rect_cells_vec(
        px - RENDER_DIST_VOXELS,
        px + RENDER_DIST_VOXELS,
        pz - RENDER_DIST_VOXELS,
        pz + RENDER_DIST_VOXELS,
    )
}

/// Lists the voxels of the edge strips of width `v` around `(px, pz)`, in visiting order.
pub fn edge_strip_cells_vec(px: i32, pz: i32, v: i32) -> (cells: Vec<(i32, i32)>)
    requires
        strips_fit(px as int, pz as int, v as int),
    ensures
        cells@ == edge_strip_cells(px as int, pz as int, v as int),
{
    let r = RENDER_DIST_VOXELS;
    let mut cells = rect_cells_vec(px - r, px + r, pz + r - v, pz + r);
    let mut bottom = rect_cells_vec(px - r, px + r, pz - r, pz - r + v);
    let mut left = rect_cells_vec(px - r, px - r + v, pz - r + v, pz + r - v);
    let mut right = rect_cells_vec(px + r - v, px + r, pz - r + v, pz + r - v);
    cells.append(&mut bottom);
    cells.append(&mut left);
    cells.append(&mut right);
    cells
}

/// Stages one frame of terrain updates for the player at voxel `player_voxel`.
///
/// On the first call every voxel of the render window is generated and the store
/// becomes initialized. Later, nothing is staged while the player stands still;
/// while the player moves, the voxels of the edge strips `voxels_per_frame` wide are
/// regenerated where their slot holds another voxel. The staged changes come sorted
/// by slot.
pub fn stage_terrain_updates(
    store: &mut TerrainStore,
    player_voxel: (i32, i32),
    moving: bool,
    voxels_per_frame: i32,
) -> (staged: Option<Vec<Change>>)
    requires
        old(store).wf(),
        !old(store).initialized ==> window_fits(player_voxel.0 as int, player_voxel.1 as int),
        old(store).initialized && moving ==> strips_fit(
            player_voxel.0 as int,
            player_voxel.1 as int,
            voxels_per_frame as int,
        ),
    ensures
        final(store).wf(),
        final(store).initialized,
        !old(store).initialized ==> {
            let cells = window_cells(player_voxel.0 as int, player_voxel.1 as int);
            &&& final(store).quad_coords@ == fill_spec(old(store).quad_coords@, cells)
            &&& staged is Some
            &&& sorted_by_slot(staged->0@)
            &&& staged->0@.to_multiset() == cells.map_values(|c: (i32, i32)| change_for(c)).to_multiset()
        },
        old(store).initialized && !moving ==> {
            &&& final(store).quad_coords@ == old(store).quad_coords@
            &&& staged is None
        },
        old(store).initialized && moving ==> {
            let r = refresh_spec(
                old(store).quad_coords@,
                edge_strip_cells(player_voxel.0 as int, player_voxel.1 as int, voxels_per_frame as int),
            );
            &&& final(store).quad_coords@ == r.0
            &&& staged is Some
            &&& sorted_by_slot(staged->0@)
            &&& staged->0@.to_multiset() == r.1.to_multiset()
        },
{
    let (px, pz) = player_voxel;
    if !store.initialized {
        let cells = window_cells_vec(px, pz);
        let changes = fill_cells(store, &cells);
        store.initialized = true;
        return Some(sort_changes_by_slot(&changes));
    }
    if !moving {
        return None;
    }
    let cells = edge_strip_cells_vec(px, pz, voxels_per_frame);
    let changes = refresh_cells(store, &cells);
    Some(sort_changes_by_slot(&changes))
}


/// Every voxel of the render window around `(px, pz)` sits in its own slot.
pub open spec fn holds_window(slots: Seq<(i32, i32)>, px: int, pz: int) -> bool {
    let r = RENDER_DIST_VOXELS as int;
    forall|x: int, z: int|
        px - r <= x < px + r && pz - r <= z < pz + r ==> #[trigger] slots[slot_index(x, z)] == (
        x as i32,
        z as i32,
        )
}

/// No two distinct voxels of `cells` share a slot.
pub open spec fn slots_distinct(cells: Seq<(i32, i32)>) -> bool {
    forall|i: int, j: int|
        0 <= i < cells.len() && 0 <= j < cells.len() && #[trigger] cell_slot(cells[i])
            == #[trigger] cell_slot(cells[j]) ==> cells[i] == cells[j]
}

proof fn lemma_rect_offset(w: int, h: int, i: int)
    requires
        w > 0,
        h > 0,
        0 <= i < w * h,
    ensures
        0 <= i % w < w,
        0 <= i / w < h,
{
    assert(i / w < h) by {
        assert(w * h == h * w) by (nonlinear_arith);
        vstd::arithmetic::div_mod::lemma_div_by_multiple_is_strongly_ordered(i, w * h, h, w);
        vstd::arithmetic::div_mod::lemma_div_multiples_vanish(h, w);
    }
    assert(0 <= i / w) by {
        vstd::arithmetic::div_mod::lemma_div_pos_is_pos(i, w);
    }
}

proof fn lemma_rect_cells_members(x0: int, x1: int, z0: int, z1: int)
    requires
        fits_i32(x0) && fits_i32(x1) && fits_i32(z0) && fits_i32(z1),
    ensures
        forall|i: int|
            0 <= i < rect_cells(x0, x1, z0, z1).len() ==> {
                let c = #[trigger] rect_cells(x0, x1, z0, z1)[i];
                x0 <= c.0 < x1 && z0 <= c.1 < z1
            },
{
    let w = x1 - x0;
    let h = z1 - z0;
    if w > 0 && h > 0 {
        assert forall|i: int| 0 <= i < rect_cells(x0, x1, z0, z1).len() implies {
            let c = #[trigger] rect_cells(x0, x1, z0, z1)[i];
            x0 <= c.0 < x1 && z0 <= c.1 < z1
        } by {
            lemma_rect_offset(w, h, i);
        }
    }
}

proof fn lemma_rect_cells_index(x0: int, x1: int, z0: int, z1: int, x: int, z: int)
    requires
        x0 <= x < x1,
        z0 <= z < z1,
        fits_i32(x0) && fits_i32(x1) && fits_i32(z0) && fits_i32(z1),
    ensures
        rect_cells(x0, x1, z0, z1).contains((x as i32, z as i32)),
{
    let w = x1 - x0;
    let h = z1 - z0;
    let k = (z - z0) * w + (x - x0);
    lemma_rect_position(w, z - z0, x - x0);
    assert(k < h * w) by (nonlinear_arith)
        requires
            k < (z - z0 + 1) * w,
            z - z0 + 1 <= h,
            w > 0,
    ;
    assert(h * w == w * h) by (nonlinear_arith);
    assert(rect_cells(x0, x1, z0, z1)[k] == (x as i32, z as i32));
}


/// After a refresh of voxels that have pairwise distinct slots, each visited voxel
/// sits in its slot and every slot that no visited voxel maps to is unchanged.
pub proof fn lemma_refresh_places_cells(slots: Seq<(i32, i32)>, cells: Seq<(i32, i32)>)
    requires
        slots.len() == BUFFER_SIZE * BUFFER_SIZE,
        slots_distinct(cells),
    ensures
        ({
            let after = refresh_spec(slots, cells).0;
            &&& after.len() == slots.len()
            &&& forall|i: int| 0 <= i < cells.len() ==> after[cell_slot(#[trigger] cells[i])] == cells[i]
            &&& forall|s: int|
                0 <= s < slots.len() && (forall|i: int| 0 <= i < cells.len() ==> cell_slot(#[trigger] cells[i]) != s)
                    ==> #[trigger] after[s] == slots[s]
        }),
    decreases cells.len(),
{
    if cells.len() > 0 {
        let init = cells.drop_last();
        assert(slots_distinct(init)) by {
            assert forall|i: int, j: int|
                0 <= i < init.len() && 0 <= j < init.len() && #[trigger] cell_slot(init[i])
                    == #[trigger] cell_slot(init[j]) implies init[i] == init[j] by {
                assert(init[i] == cells[i] && init[j] == cells[j]);
            }
        }
        lemma_refresh_places_cells(slots, init);
        let after = refresh_spec(slots, cells).0;
        let last = cells.last();
        assert forall|i: int| 0 <= i < cells.len() implies after[cell_slot(#[trigger] cells[i])] == cells[i] by {
            if i < cells.len() - 1 {
                assert(init[i] == cells[i]);
                if cell_slot(cells[i]) == cell_slot(last) {
                    assert(cells[i] == cells[cells.len() - 1]);
                }
            }
        }
        assert forall|s: int|
            0 <= s < slots.len() && (forall|i: int| 0 <= i < cells.len() ==> cell_slot(#[trigger] cells[i]) != s)
                implies #[trigger] after[s] == slots[s] by {
            assert(cell_slot(cells[cells.len() - 1]) != s);
            assert forall|i: int| 0 <= i < init.len() implies cell_slot(#[trigger] init[i]) != s by {
                assert(init[i] == cells[i]);
            }
        }
    }
}

/// Writing voxels with pairwise distinct slots puts each in its slot and leaves every
/// other slot unchanged.
pub proof fn lemma_fill_places_cells(slots: Seq<(i32, i32)>, cells: Seq<(i32, i32)>)
    requires
        slots.len() == BUFFER_SIZE * BUFFER_SIZE,
        slots_distinct(cells),
    ensures
        ({
            let after = fill_spec(slots, cells);
            &&& after.len() == slots.len()
            &&& forall|i: int| 0 <= i < cells.len() ==> after[cell_slot(#[trigger] cells[i])] == cells[i]
            &&& forall|s: int|
                0 <= s < slots.len() && (forall|i: int| 0 <= i < cells.len() ==> cell_slot(#[trigger] cells[i]) != s)
                    ==> #[trigger] after[s] == slots[s]
        }),
    decreases cells.len(),
{
    if cells.len() > 0 {
        let init = cells.drop_last();
        assert(slots_distinct(init)) by {
            assert forall|i: int, j: int|
                0 <= i < init.len() && 0 <= j < init.len() && #[trigger] cell_slot(init[i])
                    == #[trigger] cell_slot(init[j]) implies init[i] == init[j] by {
                assert(init[i] == cells[i] && init[j] == cells[j]);
            }
        }
        lemma_fill_places_cells(slots, init);
        let after = fill_spec(slots, cells);
        let last = cells.last();
        assert forall|i: int| 0 <= i < cells.len() implies after[cell_slot(#[trigger] cells[i])] == cells[i] by {
            if i < cells.len() - 1 {
                assert(init[i] == cells[i]);
                if cell_slot(cells[i]) == cell_slot(last) {
                    assert(cells[i] == cells[cells.len() - 1]);
                }
            }
        }
        assert forall|s: int|
            0 <= s < slots.len() && (forall|i: int| 0 <= i < cells.len() ==> cell_slot(#[trigger] cells[i]) != s)
                implies #[trigger] after[s] == slots[s] by {
            assert(cell_slot(cells[cells.len() - 1]) != s);
            assert forall|i: int| 0 <= i < init.len() implies cell_slot(#[trigger] init[i]) != s by {
                assert(init[i] == cells[i]);
            }
        }
    }
}


/// The voxel `(x, z)` lies in the render window around `(px, pz)`.
pub open spec fn in_window(x: int, z: int, px: int, pz: int) -> bool {
    let r = RENDER_DIST_VOXELS as int;
    px - r <= x < px + r && pz - r <= z < pz + r
}

proof fn lemma_window_cells_distinct(cells: Seq<(i32, i32)>, px: int, pz: int)
    requires
        forall|i: int|
            0 <= i < cells.len() ==> in_window(#[trigger] cells[i].0 as int, cells[i].1 as int, px, pz),
    ensures
        slots_distinct(cells),
{
    let r = RENDER_DIST_VOXELS as int;
    lemma_window_slots_bijective(px - r, pz - r);
    assert forall|i: int, j: int|
        0 <= i < cells.len() && 0 <= j < cells.len() && #[trigger] cell_slot(cells[i])
            == #[trigger] cell_slot(cells[j]) implies cells[i] == cells[j] by {
        assert(in_window(cells[i].0 as int, cells[i].1 as int, px, pz));
        assert(in_window(cells[j].0 as int, cells[j].1 as int, px, pz));
        assert(slot_index(cells[i].0 as int, cells[i].1 as int) == slot_index(
            cells[j].0 as int,
            cells[j].1 as int,
        ));
    }
}

/// Generating the whole render window leaves every voxel of it in its own slot.
pub proof fn lemma_fill_window_holds(slots: Seq<(i32, i32)>, px: int, pz: int)
    requires
        slots.len() == BUFFER_SIZE * BUFFER_SIZE,
        window_fits(px, pz),
    ensures
        holds_window(fill_spec(slots, window_cells(px, pz)), px, pz),
{
    let r = RENDER_DIST_VOXELS as int;
    let cells = window_cells(px, pz);
    lemma_rect_cells_members(px - r, px + r, pz - r, pz + r);
    lemma_window_cells_distinct(cells, px, pz);
    lemma_fill_places_cells(slots, cells);
    let after = fill_spec(slots, cells);
    assert forall|x: int, z: int|
        px - r <= x < px + r && pz - r <= z < pz + r implies #[trigger] after[slot_index(x, z)] == (
        x as i32,
        z as i32,
    ) by {
        lemma_rect_cells_index(px - r, px + r, pz - r, pz + r, x, z);
        let k = choose|k: int| 0 <= k < cells.len() && cells[k] == (x as i32, z as i32);
        assert(after[cell_slot(cells[k])] == cells[k]);
    }
}

/// The streaming invariant of the terrain store: if the store holds the render
/// window around the old voxel and the player has moved by at most `v` voxels along
/// each axis, then refreshing the edge strips of width `v` (at most a whole buffer
/// edge) around the new voxel makes the store hold the window around the new voxel.
pub proof fn lemma_edge_refresh_keeps_window(
    slots: Seq<(i32, i32)>,
    ox: int,
    oz: int,
    nx: int,
    nz: int,
    v: int,
)
    requires
        slots.len() == BUFFER_SIZE * BUFFER_SIZE,
        window_fits(ox, oz),
        window_fits(nx, nz),
        holds_window(slots, ox, oz),
        0 <= v <= BUFFER_SIZE,
        -v <= nx - ox <= v,
        -v <= nz - oz <= v,
    ensures
        holds_window(refresh_spec(slots, edge_strip_cells(nx, nz, v)).0, nx, nz),
{
    let r = RENDER_DIST_VOXELS as int;
    let top = rect_cells(nx - r, nx + r, nz + r - v, nz + r);
    let bottom = rect_cells(nx - r, nx + r, nz - r, nz - r + v);
    let left = rect_cells(nx - r, nx - r + v, nz - r + v, nz + r - v);
    let right = rect_cells(nx + r - v, nx + r, nz - r + v, nz + r - v);
    let cells = edge_strip_cells(nx, nz, v);
    assert(cells == top + bottom + left + right);
    lemma_rect_cells_members(nx - r, nx + r, nz + r - v, nz + r);
    lemma_rect_cells_members(nx - r, nx + r, nz - r, nz - r + v);
    lemma_rect_cells_members(nx - r, nx - r + v, nz - r + v, nz + r - v);
    lemma_rect_cells_members(nx + r - v, nx + r, nz - r + v, nz + r - v);
    assert forall|i: int| 0 <= i < cells.len() implies in_window(
        #[trigger] cells[i].0 as int,
        cells[i].1 as int,
        nx,
        nz,
    ) by {
        let a = top.len() as int;
        let b = a + bottom.len();
        let c = b + left.len();
        if i < a {
            assert(cells[i] == top[i]);
        } else if i < b {
            assert(cells[i] == bottom[i - a]);
        } else if i < c {
            assert(cells[i] == left[i - b]);
        } else {
            assert(cells[i] == right[i - c]);
        }
    }
    lemma_window_cells_distinct(cells, nx, nz);
    lemma_refresh_places_cells(slots, cells);
    let after = refresh_spec(slots, cells).0;
    lemma_window_slots_bijective(nx - r, nz - r);
    assert forall|x: int, z: int|
        nx - r <= x < nx + r && nz - r <= z < nz + r implies #[trigger] after[slot_index(x, z)] == (
        x as i32,
        z as i32,
    ) by {
        let cell = (x as i32, z as i32);
        if cells.contains(cell) {
            let k = choose|k: int| 0 <= k < cells.len() && cells[k] == cell;
            assert(after[cell_slot(cells[k])] == cells[k]);
        } else {
            if z >= nz + r - v {
                lemma_rect_cells_index(nx - r, nx + r, nz + r - v, nz + r, x, z);
                let k = choose|k: int| 0 <= k < top.len() && top[k] == cell;
                assert(cells[k] == cell);
            } else if z < nz - r + v {
                lemma_rect_cells_index(nx - r, nx + r, nz - r, nz - r + v, x, z);
                let k = choose|k: int| 0 <= k < bottom.len() && bottom[k] == cell;
                assert(cells[top.len() + k] == cell);
            } else if x < nx - r + v {
                lemma_rect_cells_index(nx - r, nx - r + v, nz - r + v, nz + r - v, x, z);
                let k = choose|k: int| 0 <= k < left.len() && left[k] == cell;
                assert(cells[top.len() + bottom.len() + k] == cell);
            } else if x >= nx + r - v {
                lemma_rect_cells_index(nx + r - v, nx + r, nz - r + v, nz + r - v, x, z);
                let k = choose|k: int| 0 <= k < right.len() && right[k] == cell;
                assert(cells[top.len() + bottom.len() + left.len() + k] == cell);
            } else {
                assert(in_window(x, z, ox, oz));
                assert(slots[slot_index(x, z)] == cell);
                assert forall|i: int| 0 <= i < cells.len() implies cell_slot(#[trigger] cells[i])
                    != slot_index(x, z) by {
                    assert(in_window(cells[i].0 as int, cells[i].1 as int, nx, nz));
                    if cell_slot(cells[i]) == slot_index(x, z) {
                        assert(cells[i] == cell);
                    }
                }
            }
        }
    }
}


/// The changes a refresh stages match the slots it rewrites: each staged change
/// names a slot that held another voxel and now holds the change's voxel, no two
/// staged changes share a slot, and every slot that no change names keeps its voxel.
pub proof fn lemma_refresh_changes_match_slots(slots: Seq<(i32, i32)>, cells: Seq<(i32, i32)>)
    requires
        slots.len() == BUFFER_SIZE * BUFFER_SIZE,
        slots_distinct(cells),
    ensures
        ({
            let (after, ch) = refresh_spec(slots, cells);
            &&& after.len() == slots.len()
            &&& forall|i: int|
                0 <= i < ch.len() ==> #[trigger] ch[i].0 as int == cell_slot(ch[i].1) && after[ch[i].0 as int]
                    == ch[i].1 && cells.contains(ch[i].1) && slots[ch[i].0 as int] != ch[i].1
            &&& forall|i: int, j: int| 0 <= i < j < ch.len() ==> #[trigger] ch[i].0 != #[trigger] ch[j].0
            &&& forall|s: int|
                0 <= s < slots.len() && (forall|i: int| 0 <= i < ch.len() ==> (#[trigger] ch[i]).0 != s)
                    ==> #[trigger] after[s] == slots[s]
        }),
    decreases cells.len(),
{
    if cells.len() > 0 {
        let init = cells.drop_last();
        assert(slots_distinct(init)) by {
            assert forall|i: int, j: int|
                0 <= i < init.len() && 0 <= j < init.len() && #[trigger] cell_slot(init[i])
                    == #[trigger] cell_slot(init[j]) implies init[i] == init[j] by {
                assert(init[i] == cells[i] && init[j] == cells[j]);
            }
        }
        lemma_refresh_changes_match_slots(slots, init);
        let (prev, pch) = refresh_spec(slots, init);
        let (after, ch) = refresh_spec(slots, cells);
        let c = cells.last();
        let k = cell_slot(c);
        assert forall|i: int| 0 <= i < pch.len() implies #[trigger] cells.contains(pch[i].1) by {
            assert(pch[i].0 as int == cell_slot(pch[i].1));
            assert(init.contains(pch[i].1));
            let j = choose|j: int| 0 <= j < init.len() && init[j] == pch[i].1;
            assert(cells[j] == pch[i].1);
        }
        assert(cells[cells.len() - 1] == c);
        if prev[k] != c {
            assert forall|i: int| 0 <= i < pch.len() implies pch[i].0 != k by {
                if pch[i].0 == k {
                    let j = choose|j: int| 0 <= j < cells.len() && cells[j] == pch[i].1;
                    assert(cell_slot(cells[j]) == cell_slot(cells[cells.len() - 1]));
                }
            }
            assert(prev[k] == slots[k]);
            assert forall|i: int| 0 <= i < ch.len() implies #[trigger] ch[i].0 as int == cell_slot(ch[i].1)
                && after[ch[i].0 as int] == ch[i].1 && cells.contains(ch[i].1) && slots[ch[i].0 as int]
                != ch[i].1 by {
                if i < pch.len() {
                    assert(ch[i] == pch[i]);
                }
            }
            assert forall|i: int, j: int| 0 <= i < j < ch.len() implies #[trigger] ch[i].0 != #[trigger] ch[j].0 by {
                if j < pch.len() {
                    assert(ch[i] == pch[i] && ch[j] == pch[j]);
                } else {
                    assert(ch[i] == pch[i]);
                }
            }
            assert forall|s: int|
                0 <= s < slots.len() && (forall|i: int| 0 <= i < ch.len() ==> (#[trigger] ch[i]).0 != s)
                    implies #[trigger] after[s] == slots[s] by {
                assert(ch[ch.len() - 1].0 != s);
                assert forall|i: int| 0 <= i < pch.len() implies (#[trigger] pch[i]).0 != s by {
                    assert(ch[i] == pch[i]);
                }
            }
        }
    }
}

/// What a frame stages, in whatever order, is what the store got: each staged
/// change names a slot that held another voxel and now holds the change's voxel,
/// and every slot that no staged change names keeps its voxel.
pub proof fn lemma_staged_changes_match_store(
    slots: Seq<(i32, i32)>,
    cells: Seq<(i32, i32)>,
    staged: Seq<Change>,
)
    requires
        slots.len() == BUFFER_SIZE * BUFFER_SIZE,
        slots_distinct(cells),
        staged.to_multiset() == refresh_spec(slots, cells).1.to_multiset(),
    ensures
        ({
            let after = refresh_spec(slots, cells).0;
            &&& forall|i: int|
                0 <= i < staged.len() ==> after[(#[trigger] staged[i]).0 as int] == staged[i].1
                    && slots[staged[i].0 as int] != staged[i].1
            &&& forall|s: int|
                0 <= s < slots.len() && (forall|i: int| 0 <= i < staged.len() ==> (#[trigger] staged[i]).0 != s)
                    ==> #[trigger] after[s] == slots[s]
        }),
{
    broadcast use vstd::seq_lib::group_to_multiset_ensures;

    lemma_refresh_changes_match_slots(slots, cells);
    let (after, ch) = refresh_spec(slots, cells);
    assert forall|i: int| 0 <= i < staged.len() implies after[(#[trigger] staged[i]).0 as int] == staged[i].1
        && slots[staged[i].0 as int] != staged[i].1 by {
        assert(staged.to_multiset().count(staged[i]) > 0);
        assert(ch.contains(staged[i]));
    }
    assert forall|s: int|
        0 <= s < slots.len() && (forall|i: int| 0 <= i < staged.len() ==> (#[trigger] staged[i]).0 != s)
            implies #[trigger] after[s] == slots[s] by {
        assert forall|i: int| 0 <= i < ch.len() implies (#[trigger] ch[i]).0 != s by {
            assert(ch.to_multiset().count(ch[i]) > 0);
            assert(staged.contains(ch[i]));
        }
    }
}


/// The first frame stages every slot of the buffer: for each slot it stages the
/// voxel of the render window that belongs there, and each staged change names a
/// slot that then holds its voxel.
pub proof fn lemma_first_frame_stages_every_slot(
    slots: Seq<(i32, i32)>,
    px: int,
    pz: int,
    staged: Seq<Change>,
)
    requires
        slots.len() == BUFFER_SIZE * BUFFER_SIZE,
        window_fits(px, pz),
        staged.to_multiset() == window_cells(px, pz).map_values(|c: (i32, i32)| change_for(c)).to_multiset(),
    ensures
        staged.len() == BUFFER_SIZE * BUFFER_SIZE,
        forall|s: int|
            0 <= s < BUFFER_SIZE * BUFFER_SIZE ==> {
                let c = #[trigger] window_cell_for_slot(px - RENDER_DIST_VOXELS, pz - RENDER_DIST_VOXELS, s);
                staged.contains((s as usize, (c.0 as i32, c.1 as i32)))
            },
        forall|i: int|
            0 <= i < staged.len() ==> fill_spec(slots, window_cells(px, pz))[(#[trigger] staged[i]).0 as int]
                == staged[i].1,
{
    broadcast use vstd::seq_lib::group_to_multiset_ensures;

    let r = RENDER_DIST_VOXELS as int;
    let cells = window_cells(px, pz);
    let changes = cells.map_values(|c: (i32, i32)| change_for(c));
    lemma_rect_cells_members(px - r, px + r, pz - r, pz + r);
    lemma_window_cells_distinct(cells, px, pz);
    lemma_fill_places_cells(slots, cells);
    lemma_window_slots_bijective(px - r, pz - r);
    assert(cells.len() == BUFFER_SIZE * BUFFER_SIZE) by {
        assert((2 * r) * (2 * r) == BUFFER_SIZE * BUFFER_SIZE);
    }
    assert(staged.to_multiset().len() == changes.to_multiset().len());
    assert(staged.len() == changes.len());
    assert forall|s: int| 0 <= s < BUFFER_SIZE * BUFFER_SIZE implies {
        let c = #[trigger] window_cell_for_slot(px - RENDER_DIST_VOXELS, pz - RENDER_DIST_VOXELS, s);
        staged.contains((s as usize, (c.0 as i32, c.1 as i32)))
    } by {
        let c = window_cell_for_slot(px - r, pz - r, s);
        lemma_rect_cells_index(px - r, px + r, pz - r, pz + r, c.0, c.1);
        let k = choose|k: int| 0 <= k < cells.len() && cells[k] == (c.0 as i32, c.1 as i32);
        assert(changes[k] == (s as usize, (c.0 as i32, c.1 as i32)));
        assert(changes.to_multiset().count(changes[k]) > 0);
    }
    assert forall|i: int| 0 <= i < staged.len() implies fill_spec(slots, cells)[(#[trigger] staged[i]).0 as int]
        == staged[i].1 by {
        assert(staged.to_multiset().count(staged[i]) > 0);
        assert(changes.contains(staged[i]));
        let k = choose|k: int| 0 <= k < changes.len() && changes[k] == staged[i];
        assert(changes[k] == change_for(cells[k]));
        assert(0 <= cell_slot(cells[k]) < BUFFER_SIZE * BUFFER_SIZE);
    }
}


proof fn lemma_rect_cells_no_duplicates(x0: int, x1: int, z0: int, z1: int)
    requires
        fits_i32(x0) && fits_i32(x1) && fits_i32(z0) && fits_i32(z1),
    ensures
        rect_cells(x0, x1, z0, z1).no_duplicates(),
{
    let cells = rect_cells(x0, x1, z0, z1);
    let w = x1 - x0;
    lemma_rect_cells_members(x0, x1, z0, z1);
    assert forall|i: int, j: int| 0 <= i < cells.len() && 0 <= j < cells.len() && i != j implies cells[i]
        != cells[j] by {
        if cells[i] == cells[j] {
            assert(x0 <= cells[i].0 < x1 && z0 <= cells[i].1 < z1);
            assert(x0 <= cells[j].0 < x1 && z0 <= cells[j].1 < z1);
            lemma_rect_offset(w, z1 - z0, i);
            lemma_rect_offset(w, z1 - z0, j);
            assert(cells[i].0 == (x0 + i % w) as i32 && cells[j].0 == (x0 + j % w) as i32);
            assert(cells[i].1 == (z0 + i / w) as i32 && cells[j].1 == (z0 + j / w) as i32);
            assert(i % w == j % w && i / w == j / w);
            vstd::arithmetic::div_mod::lemma_fundamental_div_mod(i, w);
            vstd::arithmetic::div_mod::lemma_fundamental_div_mod(j, w);
        }
    }
}

/// The voxel `(x, z)` lies within `v` voxels of the edge of the render window.
pub open spec fn in_edge_band(x: int, z: int, px: int, pz: int, v: int) -> bool {
    let r = RENDER_DIST_VOXELS as int;
    z >= pz + r - v || z < pz - r + v || x < px - r + v || x >= px + r - v
}

/// For a width of at most `RENDER_DIST_VOXELS`, the edge strips list each voxel of
/// the render window that lies within `v` voxels of its edge exactly once, and no
/// other voxel.
pub proof fn lemma_edge_strips_are_band(px: int, pz: int, v: int)
    requires
        window_fits(px, pz),
        0 <= v <= RENDER_DIST_VOXELS,
    ensures
        edge_strip_cells(px, pz, v).no_duplicates(),
        forall|x: int, z: int|
            fits_i32(x) && fits_i32(z) ==> (#[trigger] edge_strip_cells(px, pz, v).contains((x as i32, z as i32))
                <==> in_window(x, z, px, pz) && in_edge_band(x, z, px, pz, v)),
{
    let r = RENDER_DIST_VOXELS as int;
    let top = rect_cells(px - r, px + r, pz + r - v, pz + r);
    let bottom = rect_cells(px - r, px + r, pz - r, pz - r + v);
    let left = rect_cells(px - r, px - r + v, pz - r + v, pz + r - v);
    let right = rect_cells(px + r - v, px + r, pz - r + v, pz + r - v);
    let cells = edge_strip_cells(px, pz, v);
    assert(cells == top + bottom + left + right);
    lemma_rect_cells_members(px - r, px + r, pz + r - v, pz + r);
    lemma_rect_cells_members(px - r, px + r, pz - r, pz - r + v);
    lemma_rect_cells_members(px - r, px - r + v, pz - r + v, pz + r - v);
    lemma_rect_cells_members(px + r - v, px + r, pz - r + v, pz + r - v);
    lemma_rect_cells_no_duplicates(px - r, px + r, pz + r - v, pz + r);
    lemma_rect_cells_no_duplicates(px - r, px + r, pz - r, pz - r + v);
    lemma_rect_cells_no_duplicates(px - r, px - r + v, pz - r + v, pz + r - v);
    lemma_rect_cells_no_duplicates(px + r - v, px + r, pz - r + v, pz + r - v);
    let a = top.len() as int;
    let b = a + bottom.len();
    let c = b + left.len();
    // which strip a position falls in: 0 top, 1 bottom, 2 left, 3 right
    assert forall|i: int| 0 <= i < cells.len() implies {
        let e = #[trigger] cells[i];
        &&& in_window(e.0 as int, e.1 as int, px, pz)
        &&& in_edge_band(e.0 as int, e.1 as int, px, pz, v)
        &&& (i < a ==> e.1 >= pz + r - v)
        &&& (a <= i < b ==> e.1 < pz - r + v)
        &&& (b <= i < c ==> pz - r + v <= e.1 < pz + r - v && e.0 < px - r + v)
        &&& (c <= i ==> pz - r + v <= e.1 < pz + r - v && e.0 >= px + r - v)
    } by {
        if i < a {
            assert(cells[i] == top[i]);
        } else if i < b {
            assert(cells[i] == bottom[i - a]);
        } else if i < c {
            assert(cells[i] == left[i - b]);
        } else {
            assert(cells[i] == right[i - c]);
        }
    }
    assert forall|i: int, j: int| 0 <= i < j < cells.len() implies cells[i] != cells[j] by {
        let ei = cells[i];
        let ej = cells[j];
        if i < a && j < a {
            assert(top[i] == ei && top[j] == ej);
        } else if a <= i && j < b {
            assert(bottom[i - a] == ei && bottom[j - a] == ej);
        } else if b <= i && j < c {
            assert(left[i - b] == ei && left[j - b] == ej);
        } else if c <= i {
            assert(right[i - c] == ei && right[j - c] == ej);
        }
    }
    assert forall|x: int, z: int| fits_i32(x) && fits_i32(z) implies (#[trigger] cells.contains((x as i32, z as i32))
        <==> in_window(x, z, px, pz) && in_edge_band(x, z, px, pz, v)) by {
        let e = (x as i32, z as i32);
        if cells.contains(e) {
            let k = choose|k: int| 0 <= k < cells.len() && cells[k] == e;
            assert(cells[k] == e);
        }
        if in_window(x, z, px, pz) && in_edge_band(x, z, px, pz, v) {
            if z >= pz + r - v {
                lemma_rect_cells_index(px - r, px + r, pz + r - v, pz + r, x, z);
                let k = choose|k: int| 0 <= k < top.len() && top[k] == e;
                assert(cells[k] == e);
            } else if z < pz - r + v {
                lemma_rect_cells_index(px - r, px + r, pz - r, pz - r + v, x, z);
                let k = choose|k: int| 0 <= k < bottom.len() && bottom[k] == e;
                assert(cells[a + k] == e);
            } else if x < px - r + v {
                lemma_rect_cells_index(px - r, px - r + v, pz - r + v, pz + r - v, x, z);
                let k = choose|k: int| 0 <= k < left.len() && left[k] == e;
                assert(cells[b + k] == e);
            } else {
                lemma_rect_cells_index(px + r - v, px + r, pz - r + v, pz + r - v, x, z);
                let k = choose|k: int| 0 <= k < right.len() && right[k] == e;
                assert(cells[c + k] == e);
            }
        }
    }
}


/// For a width of at most a whole buffer edge, every voxel of the edge strips lies in
/// the render window.
pub proof fn lemma_edge_strips_in_window(px: int, pz: int, v: int)
    requires
        window_fits(px, pz),
        0 <= v <= BUFFER_SIZE,
    ensures
        forall|i: int|
            0 <= i < edge_strip_cells(px, pz, v).len() ==> in_window(
                #[trigger] edge_strip_cells(px, pz, v)[i].0 as int,
                edge_strip_cells(px, pz, v)[i].1 as int,
                px,
                pz,
            ),
{
    let r = RENDER_DIST_VOXELS as int;
    let top = rect_cells(px - r, px + r, pz + r - v, pz + r);
    let bottom = rect_cells(px - r, px + r, pz - r, pz - r + v);
    let left = rect_cells(px - r, px - r + v, pz - r + v, pz + r - v);
    let right = rect_cells(px + r - v, px + r, pz - r + v, pz + r - v);
    let cells = edge_strip_cells(px, pz, v);
    assert(cells == top + bottom + left + right);
    lemma_rect_cells_members(px - r, px + r, pz + r - v, pz + r);
    lemma_rect_cells_members(px - r, px + r, pz - r, pz - r + v);
    lemma_rect_cells_members(px - r, px - r + v, pz - r + v, pz + r - v);
    lemma_rect_cells_members(px + r - v, px + r, pz - r + v, pz + r - v);
    assert forall|i: int| 0 <= i < cells.len() implies in_window(
        #[trigger] cells[i].0 as int,
        cells[i].1 as int,
        px,
        pz,
    ) by {
        let a = top.len() as int;
        let b = a + bottom.len();
        let c = b + left.len();
        if i < a {
            assert(cells[i] == top[i]);
        } else if i < b {
            assert(cells[i] == bottom[i - a]);
        } else if i < c {
            assert(cells[i] == left[i - b]);
        } else {
            assert(cells[i] == right[i - c]);
        }
    }
}

/// A slot-sorted permutation of changes whose slots are pairwise distinct lists the
/// slots in strictly ascending order.
pub proof fn lemma_sorted_permutation_strictly_ascending(staged: Seq<Change>, ch: Seq<Change>)
    requires
        sorted_by_slot(staged),
        staged.to_multiset() == ch.to_multiset(),
        forall|i: int, j: int| 0 <= i < j < ch.len() ==> #[trigger] ch[i].0 != #[trigger] ch[j].0,
    ensures
        forall|i: int, j: int| 0 <= i < j < staged.len() ==> #[trigger] staged[i].0 < #[trigger] staged[j].0,
{
    broadcast use vstd::seq_lib::group_to_multiset_ensures;

    assert(ch.no_duplicates()) by {
        assert forall|i: int, j: int| 0 <= i < ch.len() && 0 <= j < ch.len() && i != j implies ch[i]
            != ch[j] by {
            if i < j {
                assert(ch[i].0 != ch[j].0);
            } else {
                assert(ch[j].0 != ch[i].0);
            }
        }
    }
    ch.lemma_multiset_has_no_duplicates();
    staged.lemma_multiset_has_no_duplicates_conv();
    assert forall|i: int, j: int| 0 <= i < j < staged.len() implies #[trigger] staged[i].0
        < #[trigger] staged[j].0 by {
        assert(staged[i].0 <= staged[j].0);
        if staged[i].0 == staged[j].0 {
            assert(staged.to_multiset().count(staged[i]) > 0);
            assert(staged.to_multiset().count(staged[j]) > 0);
            let a = choose|a: int| 0 <= a < ch.len() && ch[a] == staged[i];
            let b = choose|b: int| 0 <= b < ch.len() && ch[b] == staged[j];
            if a < b {
                assert(ch[a].0 != ch[b].0);
            } else if b < a {
                assert(ch[b].0 != ch[a].0);
            }
            assert(staged[i] == staged[j]);
        }
    }
}

/// A moving frame with strips at most a whole buffer edge wide: each strip voxel
/// ends up in its slot, every slot that no strip voxel maps to is unchanged, and the
/// staged changes are exactly the strip voxels whose slot held another voxel, one
/// per slot, in strictly ascending slot order, each naming its voxel's own slot.
pub proof fn lemma_moving_frame_staged(
    slots: Seq<(i32, i32)>,
    px: int,
    pz: int,
    v: int,
    staged: Seq<Change>,
)
    requires
        slots.len() == BUFFER_SIZE * BUFFER_SIZE,
        window_fits(px, pz),
        0 <= v <= BUFFER_SIZE,
        sorted_by_slot(staged),
        staged.to_multiset() == refresh_spec(slots, edge_strip_cells(px, pz, v)).1.to_multiset(),
    ensures
        ({
            let cells = edge_strip_cells(px, pz, v);
            let after = refresh_spec(slots, cells).0;
            &&& after.len() == slots.len()
            &&& forall|i: int| 0 <= i < cells.len() ==> after[cell_slot(#[trigger] cells[i])] == cells[i]
            &&& forall|s: int|
                0 <= s < slots.len() && (forall|i: int| 0 <= i < cells.len() ==> cell_slot(#[trigger] cells[i]) != s)
                    ==> #[trigger] after[s] == slots[s]
            &&& forall|i: int|
                0 <= i < cells.len() ==> (#[trigger] staged.contains(change_for(cells[i])) <==> slots[cell_slot(
                    cells[i],
                )] != cells[i])
            &&& forall|i: int|
                0 <= i < staged.len() ==> cells.contains((#[trigger] staged[i]).1) && staged[i] == change_for(
                    staged[i].1,
                ) && slots[staged[i].0 as int] != staged[i].1 && after[staged[i].0 as int] == staged[i].1
            &&& forall|i: int, j: int| 0 <= i < j < staged.len() ==> #[trigger] staged[i].0 < #[trigger] staged[j].0
        }),
{
    broadcast use vstd::seq_lib::group_to_multiset_ensures;

    let cells = edge_strip_cells(px, pz, v);
    lemma_edge_strips_in_window(px, pz, v);
    lemma_window_cells_distinct(cells, px, pz);
    lemma_refresh_places_cells(slots, cells);
    lemma_refresh_changes_match_slots(slots, cells);
    let (after, ch) = refresh_spec(slots, cells);
    lemma_sorted_permutation_strictly_ascending(staged, ch);
    assert forall|i: int| 0 <= i < staged.len() implies cells.contains((#[trigger] staged[i]).1) && staged[i]
        == change_for(staged[i].1) && slots[staged[i].0 as int] != staged[i].1 && after[staged[i].0 as int]
        == staged[i].1 by {
        assert(staged.to_multiset().count(staged[i]) > 0);
        let a = choose|a: int| 0 <= a < ch.len() && ch[a] == staged[i];
        assert(ch[a].0 as int == cell_slot(ch[a].1));
        assert(0 <= cell_slot(ch[a].1) < BUFFER_SIZE * BUFFER_SIZE);
    }
    assert forall|i: int| 0 <= i < cells.len() implies (#[trigger] staged.contains(change_for(cells[i]))
        <==> slots[cell_slot(cells[i])] != cells[i]) by {
        let c = cells[i];
        let k = cell_slot(c);
        assert(0 <= k < BUFFER_SIZE * BUFFER_SIZE);
        if staged.contains(change_for(c)) {
            let j = choose|j: int| 0 <= j < staged.len() && staged[j] == change_for(c);
            assert(staged[j].1 == c);
        }
        if slots[k] != c {
            assert(after[k] == c);
            if forall|m: int| 0 <= m < ch.len() ==> (#[trigger] ch[m]).0 != k {
                assert(after[k] == slots[k]);
            }
            let m = choose|m: int| 0 <= m < ch.len() && (#[trigger] ch[m]).0 == k;
            assert(ch[m].0 as int == cell_slot(ch[m].1) && after[ch[m].0 as int] == ch[m].1);
            assert(ch[m] == change_for(c));
            assert(ch.to_multiset().count(ch[m]) > 0);
            assert(staged.to_multiset().count(ch[m]) > 0);
        }
    }
}


/// The first frame stages one change per slot in strictly ascending slot order, each
/// naming its voxel's own slot, a voxel of the render window that the slot then holds.
pub proof fn lemma_first_frame_staged_ascending(
    slots: Seq<(i32, i32)>,
    px: int,
    pz: int,
    staged: Seq<Change>,
)
    requires
        slots.len() == BUFFER_SIZE * BUFFER_SIZE,
        window_fits(px, pz),
        sorted_by_slot(staged),
        staged.to_multiset() == window_cells(px, pz).map_values(|c: (i32, i32)| change_for(c)).to_multiset(),
    ensures
        forall|i: int, j: int| 0 <= i < j < staged.len() ==> #[trigger] staged[i].0 < #[trigger] staged[j].0,
        forall|i: int|
            0 <= i < staged.len() ==> window_cells(px, pz).contains((#[trigger] staged[i]).1) && staged[i]
                == change_for(staged[i].1) && fill_spec(slots, window_cells(px, pz))[staged[i].0 as int]
                == staged[i].1,
{
    broadcast use vstd::seq_lib::group_to_multiset_ensures;

    let r = RENDER_DIST_VOXELS as int;
    let cells = window_cells(px, pz);
    let changes = cells.map_values(|c: (i32, i32)| change_for(c));
    lemma_rect_cells_members(px - r, px + r, pz - r, pz + r);
    lemma_rect_cells_no_duplicates(px - r, px + r, pz - r, pz + r);
    lemma_window_cells_distinct(cells, px, pz);
    lemma_first_frame_stages_every_slot(slots, px, pz, staged);
    assert forall|a: int, b: int| 0 <= a < b < changes.len() implies #[trigger] changes[a].0
        != #[trigger] changes[b].0 by {
        assert(changes[a] == change_for(cells[a]) && changes[b] == change_for(cells[b]));
        assert(0 <= cell_slot(cells[a]) < BUFFER_SIZE * BUFFER_SIZE);
        assert(0 <= cell_slot(cells[b]) < BUFFER_SIZE * BUFFER_SIZE);
        if changes[a].0 == changes[b].0 {
            assert(cell_slot(cells[a]) == cell_slot(cells[b]));
            assert(cells[a] == cells[b]);
        }
    }
    lemma_sorted_permutation_strictly_ascending(staged, changes);
    assert forall|i: int| 0 <= i < staged.len() implies cells.contains((#[trigger] staged[i]).1) && staged[i]
        == change_for(staged[i].1) && fill_spec(slots, cells)[staged[i].0 as int] == staged[i].1 by {
        assert(staged.to_multiset().count(staged[i]) > 0);
        let k = choose|k: int| 0 <= k < changes.len() && changes[k] == staged[i];
        assert(changes[k] == change_for(cells[k]));
    }
}

} // verus!
