//! Power-of-two sizing of the terrain ring buffer and the mapping from voxel
//! coordinates to slots in it.
use vstd::arithmetic::div_mod::{lemma_fundamental_div_mod, lemma_fundamental_div_mod_converse};
use vstd::prelude::*;

verus! {

/// Number of voxels along one edge of the rendered square: `(2 * 5000) / 15`, rounded down.
pub const DESIRED_CHUNKS_PER_EDGE: u32 = 666;

/// Edge length, in voxels, of the square terrain ring buffer.
pub const BUFFER_SIZE: i32 = 512;

/// Half the buffer edge: how many voxels are rendered on each side of the player.
pub const RENDER_DIST_VOXELS: i32 = 256;

/// `BUFFER_SIZE - 1`, the mask that reduces a coordinate into the buffer.
pub const BUFFER_MASK: usize = 511;

/// `log2(BUFFER_SIZE)`.
pub const BUFFER_SHIFT: usize = 9;

/// Whole-number edge length of one voxel in world units: `(2 * 5000) / 512`, rounded down.
pub const VOXEL_SIZE: i32 = 19;

/// `2^e`.
pub open spec fn two_pow(e: nat) -> nat
    decreases e,
{
    if e == 0 {
        1
    } else {
        2 * two_pow((e - 1) as nat)
    }
}

/// Exponent of the largest power of two that is not above `x` (0 for `x <= 1`).
pub open spec fn floor_log2(x: nat) -> nat
    decreases x,
{
    if x <= 1 {
        0
    } else {
        1 + floor_log2(x / 2)
    }
}

/// `x` is `2^e` for some `e`.
pub open spec fn is_power_of_two(x: nat) -> bool {
    exists|e: nat| two_pow(e) == x
}

/// The power of two closest to `x`; on a tie the smaller one. Zero maps to zero.
pub open spec fn spec_nearest_power_of_two(x: nat) -> nat {
    if x == 0 {
        0
    } else {
        let lower = two_pow(floor_log2(x));
        let upper = 2 * lower;
        if lower == x {
            x
        } else if x - lower <= upper - x {
            lower
        } else {
            upper
        }
    }
}

pub proof fn lemma_two_pow_pos(e: nat)
    ensures
        two_pow(e) >= 1,
    decreases e,
{
    if e > 0 {
        lemma_two_pow_pos((e - 1) as nat);
    }
}

/// `two_pow` is strictly increasing.
pub proof fn lemma_two_pow_increases(a: nat, b: nat)
    requires
        a < b,
    ensures
        two_pow(a) < two_pow(b),
        2 * two_pow(a) <= two_pow(b),
    decreases b,
{
    lemma_two_pow_pos(a);
    if a + 1 < b {
        lemma_two_pow_increases(a, (b - 1) as nat);
    }
}

/// `floor_log2(x)` names the power of two that brackets `x`.
pub proof fn lemma_floor_log2_bounds(x: nat)
    requires
        x >= 1,
    ensures
        two_pow(floor_log2(x)) <= x < 2 * two_pow(floor_log2(x)),
    decreases x,
{
    if x > 1 {
        lemma_floor_log2_bounds(x / 2);
    }
}

/// Only one power of two brackets `x` from below.
pub proof fn lemma_floor_log2_unique(x: nat, k: nat)
    requires
        two_pow(k) <= x < 2 * two_pow(k),
    ensures
        floor_log2(x) == k,
{
    lemma_two_pow_pos(k);
    lemma_floor_log2_bounds(x);
    let f = floor_log2(x);
    if k < f {
        lemma_two_pow_increases(k, f);
    } else if f < k {
        lemma_two_pow_increases(f, k);
    }
}

/// Rounds `x` to the nearest power of two, preferring the smaller one on a tie.
pub fn nearest_power_of_two(x: u32) -> (r: u32)
    requires
        x <= 0x8000_0000,
    ensures
        r == spec_nearest_power_of_two(x as nat),
{
    // smallest power of two not below x
    let mut next: u32 = 1;
    let ghost mut k: nat = 0;
    while next < x
        invariant
            next == two_pow(k),
            next >= 1,
            x <= 0x8000_0000,
            k > 0 ==> two_pow((k - 1) as nat) < x,
        decreases 2 * (x as int) - (next as int),
    {
        next = next * 2;
        proof {
            k = k + 1;
        }
    }
    let prev = next / 2;
    proof {
        lemma_two_pow_pos(k);
        if x > 0 && k > 0 {
            if next == x {
                lemma_floor_log2_unique(x as nat, k);
            } else {
                lemma_floor_log2_unique(x as nat, (k - 1) as nat);
            }
        } else if x > 0 {
            lemma_floor_log2_unique(x as nat, 0);
        }
    }
    if next == x {
        return x;
    }
    if x - prev <= next - x {
        prev
    } else {
        next
    }
}


/// `|a - b|`.
pub open spec fn distance(a: nat, b: nat) -> nat {
    if a >= b {
        (a - b) as nat
    } else {
        (b - a) as nat
    }
}

/// For every positive `x`, the rounded value is a power of two, no power of two
/// lies closer to `x`, and of two equally close powers of two it is the smaller.
pub proof fn lemma_nearest_power_of_two_is_nearest(x: nat, e: nat)
    requires
        x >= 1,
    ensures
        is_power_of_two(spec_nearest_power_of_two(x)),
        distance(x, spec_nearest_power_of_two(x)) <= distance(x, two_pow(e)),
        distance(x, spec_nearest_power_of_two(x)) == distance(x, two_pow(e))
            ==> spec_nearest_power_of_two(x) <= two_pow(e),
{
    let k = floor_log2(x);
    lemma_floor_log2_bounds(x);
    assert(two_pow(k + 1) == 2 * two_pow(k));
    let r = spec_nearest_power_of_two(x);
    assert(r == two_pow(k) || r == two_pow(k + 1));
    if e < k {
        lemma_two_pow_increases(e, k);
    } else if e > k + 1 {
        lemma_two_pow_increases(k + 1, e);
    }
}

/// A power of two is its own nearest power of two.
pub proof fn lemma_nearest_power_of_two_fixes_powers(e: nat)
    ensures
        spec_nearest_power_of_two(two_pow(e)) == two_pow(e),
{
    lemma_two_pow_pos(e);
    lemma_floor_log2_unique(two_pow(e), e);
}


/// The derived sizes of the terrain ring buffer.
#[derive(Clone, Copy, Debug, PartialEq, Eq)]
pub struct GridLayout {
    /// Edge length of the square buffer, in voxels.
    pub buffer_size: i32,
    /// Voxels rendered on each side of the player.
    pub render_dist_voxels: i32,
    /// `buffer_size - 1`, as a bit mask.
    pub buffer_mask: usize,
    /// Number of trailing zero bits of `buffer_size`.
    pub buffer_shift: usize,
}

/// The layout derived from a desired number of voxels per buffer edge: the edge is
/// rounded to the nearest power of two and the other sizes follow from it.
pub open spec fn spec_grid_layout(chunks_per_edge: nat) -> GridLayout {
    let b = spec_nearest_power_of_two(chunks_per_edge);
    GridLayout {
        buffer_size: b as i32,
        render_dist_voxels: (b / 2) as i32,
        buffer_mask: if b == 0 { usize::MAX } else { (b - 1) as usize },
        buffer_shift: if b == 0 { 32 } else { floor_log2(b) as usize },
    }
}

proof fn lemma_two_pow_30()
    ensures
        two_pow(30) == 0x4000_0000,
{
    reveal_with_fuel(two_pow, 31);
}

proof fn lemma_floor_log2_at_most_30(x: nat)
    requires
        1 <= x <= 0x4000_0000,
    ensures
        floor_log2(x) <= 30,
{
    lemma_floor_log2_bounds(x);
    lemma_two_pow_30();
    if floor_log2(x) > 30 {
        lemma_two_pow_increases(30, floor_log2(x));
    }
}

proof fn lemma_nearest_below_two_pow_30(x: nat)
    requires
        x <= 0x6000_0000,
    ensures
        spec_nearest_power_of_two(x) <= 0x4000_0000,
{
    if x >= 1 {
        let k = floor_log2(x);
        lemma_floor_log2_bounds(x);
        lemma_two_pow_30();
        if k > 30 {
            lemma_two_pow_increases(30, k);
        } else if k < 30 {
            lemma_two_pow_increases(k, 30);
        }
    }
}

/// Derives the buffer layout from the desired number of voxels per edge.
pub fn grid_layout(chunks_per_edge: u32) -> (g: GridLayout)
    requires
        chunks_per_edge <= 0x6000_0000,
    ensures
        g == spec_grid_layout(chunks_per_edge as nat),
{
    proof {
        lemma_nearest_below_two_pow_30(chunks_per_edge as nat);
    }
    let b = nearest_power_of_two(chunks_per_edge);
    let buffer_size = b as i32;
    let render_dist_voxels = buffer_size >> 1;
    assert(render_dist_voxels == buffer_size / 2) by (bit_vector)
        requires
            render_dist_voxels == buffer_size >> 1,
            buffer_size >= 0,
    ;
    let buffer_mask: usize = if b == 0 {
        usize::MAX
    } else {
        (buffer_size - 1) as usize
    };
    let buffer_shift: usize = if b == 0 {
        32
    } else {
        proof {
            lemma_floor_log2_at_most_30(b as nat);
        }
        let mut m: u32 = b;
        let mut s: usize = 0;
        while m > 1
            invariant
                m >= 1,
                s + floor_log2(m as nat) == floor_log2(b as nat),
                floor_log2(b as nat) <= 30,
                b <= 0x4000_0000,
                m <= b,
            decreases m,
        {
            m = m / 2;
            s = s + 1;
        }
        s
    };
    GridLayout { buffer_size, render_dist_voxels, buffer_mask, buffer_shift }
}

/// A layout from a positive voxel count has a power-of-two edge `2^buffer_shift`,
/// a mask one below it, and renders half the edge on each side.
pub proof fn lemma_grid_layout_consistent(chunks_per_edge: nat)
    requires
        1 <= chunks_per_edge <= 0x6000_0000,
    ensures
        ({
            let g = spec_grid_layout(chunks_per_edge);
            &&& g.buffer_size >= 1
            &&& g.buffer_size as nat == two_pow(g.buffer_shift as nat)
            &&& g.buffer_mask == g.buffer_size - 1
            &&& g.render_dist_voxels * 2 <= g.buffer_size <= g.render_dist_voxels * 2 + 1
        }),
{
    lemma_nearest_below_two_pow_30(chunks_per_edge);
    let k = floor_log2(chunks_per_edge);
    lemma_floor_log2_bounds(chunks_per_edge);
    lemma_two_pow_pos(k);
    let b = spec_nearest_power_of_two(chunks_per_edge);
    assert(two_pow(k + 1) == 2 * two_pow(k));
    let e = if b == two_pow(k) { k } else { k + 1 };
    assert(b == two_pow(e));
    lemma_two_pow_pos(e);
    lemma_floor_log2_unique(b, e);
    let g = spec_grid_layout(chunks_per_edge);
    assert(b <= 0x4000_0000);
    lemma_floor_log2_at_most_30(b);
    assert(g.buffer_size == b);
    assert(g.buffer_shift == e);
    assert(g.buffer_mask == g.buffer_size - 1);
}

/// The module constants are the layout derived from `DESIRED_CHUNKS_PER_EDGE`.
pub proof fn lemma_constants_match_layout()
    ensures
        spec_grid_layout(DESIRED_CHUNKS_PER_EDGE as nat) == (GridLayout {
            buffer_size: BUFFER_SIZE,
            render_dist_voxels: RENDER_DIST_VOXELS,
            buffer_mask: BUFFER_MASK,
            buffer_shift: BUFFER_SHIFT,
        }),
{
    reveal_with_fuel(floor_log2, 11);
    reveal_with_fuel(two_pow, 10);
    assert(floor_log2(666) == 9);
    assert(two_pow(9) == 512);
    assert(floor_log2(512) == 9);
}


/// The slot of the ring buffer that holds voxel `(x, z)`: both coordinates are
/// reduced into `[0, BUFFER_SIZE)` and laid out row by row (`z` selects the row).
pub open spec fn slot_index(x: int, z: int) -> int {
    (z % (BUFFER_SIZE as int)) * (BUFFER_SIZE as int) + x % (BUFFER_SIZE as int)
}

/// `x & BUFFER_MASK` on the sign-extended coordinate is its remainder modulo the buffer size.
proof fn lemma_mask_is_mod(x: i32)
    ensures
        ((x as usize) & BUFFER_MASK) as int == (x as int) % (BUFFER_SIZE as int),
{
    let r = (x as usize) & 511usize;
    assert(r < 512usize && (x as i64) - (r as i64) == ((x >> 9u32) as i64) * 512) by (bit_vector)
        requires
            r == (x as usize) & 511usize,
    ;
    lemma_fundamental_div_mod_converse(
        x as int,
        512,
        (x >> 9u32) as int,
        r as int,
    );
}

/// Takes the `x` and `z` voxel coordinates of a quad and returns its index within the
/// terrain buffer.
pub fn get_index(x: i32, z: i32) -> (idx: usize)
    ensures
        idx as int == slot_index(x as int, z as int),
        idx < (BUFFER_SIZE * BUFFER_SIZE) as usize,
{
    let xi = (x as usize) & BUFFER_MASK;
    let zi = (z as usize) & BUFFER_MASK;
    proof {
        lemma_mask_is_mod(x);
        lemma_mask_is_mod(z);
    }
    assert((zi << 9usize) | xi == zi * 512 + xi) by (bit_vector)
        requires
            zi < 512,
            xi < 512,
    ;
    (zi << BUFFER_SHIFT) | xi
}

/// Every slot index lies inside the buffer.
pub proof fn lemma_slot_index_in_buffer(x: int, z: int)
    ensures
        0 <= slot_index(x, z) < (BUFFER_SIZE * BUFFER_SIZE) as int,
{
}

/// Moving a voxel by a whole buffer edge along either axis keeps its slot.
pub proof fn lemma_slot_index_periodic(x: int, z: int)
    ensures
        slot_index(x + BUFFER_SIZE, z) == slot_index(x, z),
        slot_index(x, z + BUFFER_SIZE) == slot_index(x, z),
        slot_index(x - BUFFER_SIZE, z) == slot_index(x, z),
        slot_index(x, z - BUFFER_SIZE) == slot_index(x, z),
{
}

/// The voxel of the `BUFFER_SIZE`-square window with lower corner `(x0, z0)` that
/// the slot `s` holds.
pub open spec fn window_cell_for_slot(x0: int, z0: int, s: int) -> (int, int) {
    let b = BUFFER_SIZE as int;
    (x0 + (s % b - x0) % b, z0 + (s / b - z0) % b)
}

/// Within any `BUFFER_SIZE`-square window of voxels, distinct voxels get distinct
/// slots, and every slot of the buffer belongs to exactly one voxel of the window.
pub proof fn lemma_window_slots_bijective(x0: int, z0: int)
    ensures
        forall|x1: int, z1: int, x2: int, z2: int|
            x0 <= x1 < x0 + BUFFER_SIZE && z0 <= z1 < z0 + BUFFER_SIZE && x0 <= x2 < x0
                + BUFFER_SIZE && z0 <= z2 < z0 + BUFFER_SIZE && #[trigger] slot_index(x1, z1)
                == #[trigger] slot_index(x2, z2) ==> x1 == x2 && z1 == z2,
        forall|s: int|
            0 <= s < BUFFER_SIZE * BUFFER_SIZE ==> {
                let c = #[trigger] window_cell_for_slot(x0, z0, s);
                &&& x0 <= c.0 < x0 + BUFFER_SIZE
                &&& z0 <= c.1 < z0 + BUFFER_SIZE
                &&& slot_index(c.0, c.1) == s
            },
{
    assert forall|x1: int, z1: int, x2: int, z2: int|
        x0 <= x1 < x0 + BUFFER_SIZE && z0 <= z1 < z0 + BUFFER_SIZE && x0 <= x2 < x0
            + BUFFER_SIZE && z0 <= z2 < z0 + BUFFER_SIZE && #[trigger] slot_index(x1, z1)
            == #[trigger] slot_index(x2, z2) implies x1 == x2 && z1 == z2 by {
        lemma_slot_components(x1, z1, x2, z2);
    }
    assert forall|s: int| 0 <= s < BUFFER_SIZE * BUFFER_SIZE implies {
        let c = #[trigger] window_cell_for_slot(x0, z0, s);
        &&& x0 <= c.0 < x0 + BUFFER_SIZE
        &&& z0 <= c.1 < z0 + BUFFER_SIZE
        &&& slot_index(c.0, c.1) == s
    } by {
        lemma_window_cell_for_slot(x0, z0, s);
    }
}

proof fn lemma_slot_components(x1: int, z1: int, x2: int, z2: int)
    requires
        slot_index(x1, z1) == slot_index(x2, z2),
        -512 < x1 - x2 < 512,
        -512 < z1 - z2 < 512,
    ensures
        x1 == x2 && z1 == z2,
{
    assert(x1 % 512 == x2 % 512 && z1 % 512 == z2 % 512);
}

proof fn lemma_window_cell_for_slot(x0: int, z0: int, s: int)
    requires
        0 <= s < 512 * 512,
    ensures
        ({
            let c = window_cell_for_slot(x0, z0, s);
            &&& x0 <= c.0 < x0 + 512
            &&& z0 <= c.1 < z0 + 512
            &&& slot_index(c.0, c.1) == s
        }),
{
    let c = window_cell_for_slot(x0, z0, s);
    assert(c.0 % 512 == s % 512);
    assert(c.1 % 512 == s / 512);
}

/// The remainder of `a / b` as Rust computes it: it takes the sign of `a`.
pub open spec fn trunc_rem(a: int, b: int) -> int {
    let m = if b < 0 { -b } else { b };
    if a >= 0 {
        a % m
    } else {
        -((-a) % m)
    }
}

/// The remainder of `a / b` under truncating division, as the `%` operator gives it,
/// except for `i32::MIN` by `-1`: there `%` overflows and panics, while this returns
/// the remainder 0.
pub fn truncated_rem(a: i32, b: i32) -> (t: i32)
    requires
        b != 0,
    ensures
        t == trunc_rem(a as int, b as int),
{
    let bm: u32 = if b < 0 {
        if b == i32::MIN {
            0x8000_0000u32
        } else {
            (-b) as u32
        }
    } else {
        b as u32
    };
    let am: u32 = if a < 0 {
        if a == i32::MIN {
            0x8000_0000u32
        } else {
            (-a) as u32
        }
    } else {
        a as u32
    };
    let rm = am % bm;
    assert(rm < 0x8000_0000u32);
    if a >= 0 {
        rm as i32
    } else {
        -(rm as i32)
    }
}

/// `((a % b) + b) % b`, converted to `usize`.
pub fn positive_mod(a: i32, b: i32) -> (r: usize)
    requires
        b != 0,
        !(a == i32::MIN && b == -1),
        i32::MIN <= trunc_rem(a as int, b as int) + b <= i32::MAX,
    ensures
        r == (trunc_rem(trunc_rem(a as int, b as int) + b, b as int)) as usize,
{
    let t = truncated_rem(a, b);
    let u = truncated_rem(t + b, b);
    u as usize
}

/// For a positive modulus, the result is the non-negative remainder of `a`.
pub proof fn lemma_positive_mod_is_euclidean(a: int, b: int)
    requires
        b > 0,
    ensures
        trunc_rem(trunc_rem(a, b) + b, b) == a % b,
        0 <= a % b < b,
{
    if a >= 0 {
        let t = a % b;
        lemma_fundamental_div_mod_converse(t + b, b, 1, t);
    } else {
        let m = (-a) % b;
        let q = (-a) / b;
        lemma_fundamental_div_mod(-a, b);
        assert(a == (-q) * b - m && a == (-q - 1) * b + (b - m)) by (nonlinear_arith)
            requires
                -a == b * q + m,
        ;
        if m == 0 {
            lemma_fundamental_div_mod_converse(a, b, -q, 0);
            lemma_fundamental_div_mod_converse(b, b, 1, 0);
        } else {
            lemma_fundamental_div_mod_converse(a, b, -q - 1, b - m);
            lemma_fundamental_div_mod_converse(b - m, b, 0, b - m);
        }
    }
}


/// Slots are laid out row by row: the row of a voxel's slot is its `z` reduced into
/// the buffer, and the column is its `x` reduced into the buffer.
pub proof fn lemma_slot_index_rows(x: int, z: int)
    ensures
        slot_index(x, z) / (BUFFER_SIZE as int) == z % (BUFFER_SIZE as int),
        slot_index(x, z) % (BUFFER_SIZE as int) == x % (BUFFER_SIZE as int),
{
    lemma_fundamental_div_mod_converse(slot_index(x, z), 512, z % 512, x % 512);
}

/// `trunc_rem` is the remainder of truncating division: `a` is a multiple of `b`
/// plus the remainder, the remainder is smaller than `b` in size, and it is zero or
/// has the sign of `a`.
pub proof fn lemma_trunc_rem_is_truncating(a: int, b: int) -> (q: int)
    requires
        b != 0,
    ensures
        a == q * b + trunc_rem(a, b),
        -b < trunc_rem(a, b) < b || b < trunc_rem(a, b) < -b,
        a >= 0 ==> trunc_rem(a, b) >= 0,
        a <= 0 ==> trunc_rem(a, b) <= 0,
{
    let m = if b < 0 { -b } else { b };
    if a >= 0 {
        lemma_fundamental_div_mod(a, m);
        let q = a / m;
        let qq = if b < 0 { -q } else { q };
        assert(a == qq * b + trunc_rem(a, b)) by (nonlinear_arith)
            requires
                a == m * q + a % m,
                trunc_rem(a, b) == a % m,
                m == if b < 0 { -b } else { b },
                qq == if b < 0 { -q } else { q },
        ;
        qq
    } else {
        lemma_fundamental_div_mod(-a, m);
        let q = (-a) / m;
        let qq = if b < 0 { q } else { -q };
        assert(a == qq * b + trunc_rem(a, b)) by (nonlinear_arith)
            requires
                -a == m * q + (-a) % m,
                trunc_rem(a, b) == -((-a) % m),
                m == if b < 0 { -b } else { b },
                qq == if b < 0 { q } else { -q },
        ;
        qq
    }
}

} // verus!
