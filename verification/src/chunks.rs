//! Bookkeeping of the planet's rendered chunks: the keys that identify chunks, a
//! set of keys, and the decision which chunk entities to despawn and which to spawn.
use vstd::arithmetic::div_mod::lemma_fundamental_div_mod_converse;
use vstd::prelude::*;

verus! {

/// An integer vector in space: the outward axis of a cube face.
#[derive(Clone, Copy, Debug, PartialEq, Eq, Structural, Hash, Default)]
pub struct FaceAxis {
    pub x: i32,
    pub y: i32,
    pub z: i32,
}

/// Integer coordinates of a chunk on its face.
#[derive(Clone, Copy, Debug, PartialEq, Eq, Structural, Hash, Default)]
pub struct FaceCoords {
    pub x: i32,
    pub y: i32,
}

/// Identifies a chunk: the cube face it lies on, its coordinates on that face, and
/// its level of detail.
#[derive(Clone, Copy, Debug, PartialEq, Eq, Structural, Hash, Default)]
pub struct ChunkKey {
    /// Outward axis of the cube face, one of the six unit vectors.
    pub direction: FaceAxis,
    /// Chunk coordinates on the face.
    pub coords: FaceCoords,
    /// Number of subdivisions of the chunk's mesh.
    pub lod: u8,
}

/// Connects a chunk entity to its key.
pub struct Chunk(pub ChunkKey);

/// A set of chunk keys, kept as a list without repetitions in insertion order.
pub struct ChunkSet {
    pub keys: Vec<ChunkKey>,
}

impl View for ChunkSet {
    type V = Set<ChunkKey>;

    open spec fn view(&self) -> Set<ChunkKey> {
        self.keys@.to_set()
    }
}

impl ChunkSet {
    /// No key is listed twice.
    pub open spec fn wf(&self) -> bool {
        self.keys@.no_duplicates()
    }

    /// An empty set.
    pub fn new() -> (s: Self)
        ensures
            s.wf(),
            s.keys@ == Seq::<ChunkKey>::empty(),
            s@ == Set::<ChunkKey>::empty(),
    {
        let s = ChunkSet { keys: Vec::new() };
        assert(s@ =~= Set::<ChunkKey>::empty());
        s
    }

    /// Position of `key` in the list, if it is there.
    fn position(&self, key: &ChunkKey) -> (pos: Option<usize>)
        ensures
            match pos {
                Some(i) => i < self.keys@.len() && self.keys@[i as int] == *key,
                None => !self.keys@.contains(*key),
            },
    {
        let n = self.keys.len();
        for i in 0..n
            invariant
                n == self.keys@.len(),
                forall|j: int| 0 <= j < i ==> self.keys@[j] != *key,
        {
            if self.keys[i] == *key {
                return Some(i);
            }
        }
        None
    }

    /// Whether `key` is in the set.
    pub fn contains(&self, key: &ChunkKey) -> (b: bool)
        ensures
            b == self@.contains(*key),
    {
        self.position(key).is_some()
    }

    /// Adds `key`; tells whether it was not there before.
    pub fn insert(&mut self, key: ChunkKey) -> (added: bool)
        requires
            old(self).wf(),
        ensures
            final(self).wf(),
            added == !old(self)@.contains(key),
            final(self)@ == old(self)@.insert(key),
            final(self).keys@ == if added {
                old(self).keys@.push(key)
            } else {
                old(self).keys@
            },
    {
        match self.position(&key) {
            Some(_) => {
                assert(self@ =~= old(self)@.insert(key));
                false
            },
            None => {
                self.keys.push(key);
                assert(self@ =~= old(self)@.insert(key)) by {
                    assert forall|k: ChunkKey| self@.contains(k) <==> old(self)@.insert(key).contains(k) by {
                        if self.keys@.contains(k) {
                            let j = choose|j: int| 0 <= j < self.keys@.len() && self.keys@[j] == k;
                            if j < old(self).keys@.len() {
                                assert(old(self).keys@[j] == k);
                            }
                        }
                        if old(self).keys@.contains(k) {
                            let j = choose|j: int| 0 <= j < old(self).keys@.len() && old(self).keys@[j] == k;
                            assert(self.keys@[j] == k);
                        }
                        assert(self.keys@[old(self).keys@.len() as int] == key);
                    }
                }
                true
            },
        }
    }

    /// Removes `key`; tells whether it was there.
    pub fn remove(&mut self, key: &ChunkKey) -> (removed: bool)
        requires
            old(self).wf(),
        ensures
            final(self).wf(),
            removed == old(self)@.contains(*key),
            final(self)@ == old(self)@.remove(*key),
    {
        match self.position(key) {
            Some(i) => {
                let ghost before = self.keys@;
                self.keys.remove(i);
                assert(self.keys@ == before.remove(i as int));
                assert(self@ =~= old(self)@.remove(*key)) by {
                    assert forall|k: ChunkKey| self@.contains(k) <==> old(self)@.remove(*key).contains(k) by {
                        if self.keys@.contains(k) {
                            let j = choose|j: int| 0 <= j < self.keys@.len() && self.keys@[j] == k;
                            if j < i {
                                assert(before[j] == k);
                            } else {
                                assert(before[j + 1] == k);
                            }
                        }
                        if old(self)@.remove(*key).contains(k) {
                            let j = choose|j: int| 0 <= j < before.len() && before[j] == k;
                            if j < i {
                                assert(self.keys@[j] == k);
                            } else {
                                assert(self.keys@[j - 1] == k);
                            }
                        }
                    }
                }
                true
            },
            None => {
                assert(self@ =~= old(self)@.remove(*key));
                false
            },
        }
    }

    /// Number of keys in the set.
    pub fn len(&self) -> (n: usize)
        requires
            self.wf(),
        ensures
            n == self@.len(),
    {
        proof {
            self.keys@.unique_seq_to_set();
        }
        self.keys.len()
    }
}


/// The set of chunks that currently have an entity.
pub struct RenderedChunks {
    pub set: ChunkSet,
}

impl Default for RenderedChunks {
    /// No chunk rendered.
    fn default() -> (r: Self)
        ensures
            r.set.wf(),
            r.set@ == Set::<ChunkKey>::empty(),
    {
        RenderedChunks { set: ChunkSet::new() }
    }
}

/// What one frame of chunk management does to the world.
pub struct ChunkActions {
    /// Positions, in the list of existing chunk entities, of the entities to despawn.
    pub despawn: Vec<usize>,
    /// Keys of the chunks to generate and spawn, in order.
    pub spawn: Vec<ChunkKey>,
}

/// Whether the entity at position `p` holds a chunk that is no longer wanted.
pub open spec fn unwanted_at(existing: Seq<ChunkKey>, wanted: Set<ChunkKey>) -> spec_fn(usize) -> bool {
    |p: usize| (p as int) < existing.len() && !wanted.contains(existing[p as int])
}

/// Whether a key is outside `s`.
pub open spec fn outside(s: Set<ChunkKey>) -> spec_fn(ChunkKey) -> bool {
    |k: ChunkKey| !s.contains(k)
}

/// The positions `0, 1, ..., n - 1`.
pub open spec fn positions(n: nat) -> Seq<usize> {
    Seq::new(n, |p: int| p as usize)
}

/// The positions of the existing entities whose chunk is no longer wanted, ascending.
pub open spec fn despawn_positions(existing: Seq<ChunkKey>, wanted: Set<ChunkKey>) -> Seq<usize> {
    positions(existing.len()).filter(unwanted_at(existing, wanted))
}

proof fn lemma_push_to_set(s: Seq<ChunkKey>, a: ChunkKey)
    ensures
        s.push(a).to_set() == s.to_set().insert(a),
{
    assert forall|k: ChunkKey| s.push(a).to_set().contains(k) <==> s.to_set().insert(a).contains(k) by {
        if s.push(a).contains(k) {
            let j = choose|j: int| 0 <= j < s.push(a).len() && s.push(a)[j] == k;
            if j < s.len() {
                assert(s[j] == k);
            }
        }
        if s.contains(k) {
            let j = choose|j: int| 0 <= j < s.len() && s[j] == k;
            assert(s.push(a)[j] == k);
        }
        assert(s.push(a)[s.len() as int] == a);
    }
    assert(s.push(a).to_set() =~= s.to_set().insert(a));
}

/// The rendered set once the chunks that are no longer wanted have been removed.
pub open spec fn rendered_after_removal(
    rendered: Set<ChunkKey>,
    existing: Seq<ChunkKey>,
    wanted: Set<ChunkKey>,
) -> Set<ChunkKey> {
    rendered.difference(existing.to_set().difference(wanted))
}

proof fn lemma_despawn_prefix(existing: Seq<ChunkKey>, wanted: Set<ChunkKey>, n: nat)
    requires
        n <= existing.len() <= usize::MAX,
    ensures
        ({
            let d = positions(n).filter(unwanted_at(existing, wanted));
            &&& forall|i: int| 0 <= i < d.len() ==> (#[trigger] d[i] as int) < n && !wanted.contains(existing[d[i] as int])
            &&& forall|p: int| 0 <= p < n && !wanted.contains(#[trigger] existing[p]) ==> d.contains(p as usize)
            &&& forall|i: int, j: int| 0 <= i < j < d.len() ==> #[trigger] d[i] < #[trigger] d[j]
        }),
    decreases n,
{
    let f = unwanted_at(existing, wanted);
    if n == 0 {
        positions(0).lemma_filter_len(f);
    } else {
        let m = (n - 1) as nat;
        lemma_despawn_prefix(existing, wanted, m);
        assert(positions(n) =~= positions(m).push(m as usize));
        positions(m).lemma_filter_push(m as usize, f);
        let prev = positions(m).filter(f);
        let d = positions(n).filter(f);
        assert forall|p: int| 0 <= p < n && !wanted.contains(#[trigger] existing[p]) implies d.contains(p as usize) by {
            if p < m {
                let k = choose|k: int| 0 <= k < prev.len() && prev[k] == p as usize;
                assert(d[k] == p as usize);
            } else {
                assert(f(m as usize));
                assert(d[d.len() - 1] == p as usize);
            }
        }
    }
}

/// The despawned positions are exactly, in ascending order, the positions of the
/// existing entities whose chunk is not wanted.
pub proof fn lemma_despawn_positions_exact(existing: Seq<ChunkKey>, wanted: Set<ChunkKey>)
    requires
        existing.len() <= usize::MAX,
    ensures
        ({
            let d = despawn_positions(existing, wanted);
            &&& forall|i: int|
                0 <= i < d.len() ==> (#[trigger] d[i] as int) < existing.len() && !wanted.contains(existing[d[i] as int])
            &&& forall|p: int| 0 <= p < existing.len() && !wanted.contains(#[trigger] existing[p]) ==> d.contains(p as usize)
            &&& forall|i: int, j: int| 0 <= i < j < d.len() ==> #[trigger] d[i] < #[trigger] d[j]
        }),
{
    lemma_despawn_prefix(existing, wanted, existing.len());
}

/// The spawned chunks are exactly the wanted chunks that were not rendered before.
pub proof fn lemma_spawned_are_new_wanted(rendered: Set<ChunkKey>, existing: Seq<ChunkKey>, wanted: Seq<ChunkKey>)
    ensures
        ({
            let spawn = wanted.filter(outside(rendered_after_removal(rendered, existing, wanted.to_set())));
            &&& forall|i: int|
                0 <= i < spawn.len() ==> wanted.contains(#[trigger] spawn[i]) && !rendered.contains(spawn[i])
            &&& forall|k: ChunkKey| wanted.contains(k) && !rendered.contains(k) ==> #[trigger] spawn.contains(k)
        }),
{
    broadcast use vstd::seq_lib::group_filter_ensures;

    let mid = rendered_after_removal(rendered, existing, wanted.to_set());
    let spawn = wanted.filter(outside(mid));
    assert forall|i: int| 0 <= i < spawn.len() implies wanted.contains(#[trigger] spawn[i]) && !rendered.contains(
        spawn[i],
    ) by {
        wanted.lemma_filter_pred(outside(mid), i);
        wanted.lemma_filter_contains_rev(outside(mid), spawn[i]);
        assert(wanted.to_set().contains(spawn[i]));
    }
    assert forall|k: ChunkKey| wanted.contains(k) && !rendered.contains(k) implies #[trigger] spawn.contains(k) by {
        let j = choose|j: int| 0 <= j < wanted.len() && wanted[j] == k;
        wanted.lemma_filter_contains(outside(mid), j);
    }
}

/// Decides which chunk entities to despawn and which chunks to spawn.
///
/// Each existing entity whose chunk is not in `to_render` is despawned and its key
/// leaves the rendered set. Then every key of `to_render` is added to the rendered
/// set, and those that were not yet in it are spawned.
pub fn manage_chunks(rendered: &mut RenderedChunks, existing: &Vec<ChunkKey>, to_render: &ChunkSet) -> (actions: ChunkActions)
    requires
        old(rendered).set.wf(),
        to_render.wf(),
    ensures
        final(rendered).set.wf(),
        actions.despawn@ == despawn_positions(existing@, to_render@),
        final(rendered).set@ == rendered_after_removal(old(rendered).set@, existing@, to_render@).union(to_render@),
        actions.spawn@ == to_render.keys@.filter(
            outside(rendered_after_removal(old(rendered).set@, existing@, to_render@)),
        ),
        forall|i: int|
            0 <= i < actions.despawn@.len() ==> (#[trigger] actions.despawn@[i] as int) < existing@.len()
                && !to_render@.contains(existing@[actions.despawn@[i] as int]),
        forall|p: int|
            0 <= p < existing@.len() && !to_render@.contains(#[trigger] existing@[p])
                ==> actions.despawn@.contains(p as usize),
        forall|i: int, j: int|
            0 <= i < j < actions.despawn@.len() ==> #[trigger] actions.despawn@[i] < #[trigger] actions.despawn@[j],
        forall|i: int|
            0 <= i < actions.spawn@.len() ==> to_render@.contains(#[trigger] actions.spawn@[i])
                && !old(rendered).set@.contains(actions.spawn@[i]),
        forall|k: ChunkKey|
            to_render@.contains(k) && !old(rendered).set@.contains(k) ==> #[trigger] actions.spawn@.contains(k),
{
    let ghost wanted = to_render@;
    let mut despawn: Vec<usize> = Vec::new();
    let n = existing.len();
    proof {
        lemma_despawn_positions_exact(existing@, to_render@);
        lemma_spawned_are_new_wanted(old(rendered).set@, existing@, to_render.keys@);
    }
    for i in 0..n
        invariant
            n == existing.len(),
            rendered.set.wf(),
            wanted == to_render@,
            despawn@ == positions(i as nat).filter(unwanted_at(existing@, wanted)),
            rendered.set@ == old(rendered).set@.difference(existing@.take(i as int).to_set().difference(wanted)),
    {
        let key = existing[i];
        proof {
            lemma_push_to_set(existing@.take(i as int), key);
        }
        let ghost f = unwanted_at(existing@, wanted);
        assert(positions((i + 1) as nat) =~= positions(i as nat).push(i as usize));
        proof {
            positions(i as nat).lemma_filter_push(i as usize, f);
        }
        if !to_render.contains(&key) {
            despawn.push(i);
            rendered.set.remove(&key);
        }
        assert(existing@.take(i + 1) =~= existing@.take(i as int).push(key));
        assert(rendered.set@ =~= old(rendered).set@.difference(
            existing@.take(i + 1).to_set().difference(wanted),
        ));
    }
    assert(existing@.take(n as int) =~= existing@);
    let ghost mid = rendered.set@;
    let mut spawn: Vec<ChunkKey> = Vec::new();
    let m = to_render.keys.len();
    for i in 0..m
        invariant
            m == to_render.keys@.len(),
            to_render.wf(),
            rendered.set.wf(),
            wanted == to_render@,
            rendered.set@ == mid.union(to_render.keys@.take(i as int).to_set()),
            spawn@ == to_render.keys@.take(i as int).filter(outside(mid)),
    {
        let key = to_render.keys[i];
        assert(to_render.keys@.take(i + 1) =~= to_render.keys@.take(i as int).push(key));
        assert(!to_render.keys@.take(i as int).contains(key)) by {
            if to_render.keys@.take(i as int).contains(key) {
                let j = choose|j: int| 0 <= j < i && to_render.keys@.take(i as int)[j] == key;
                assert(to_render.keys@[j] == to_render.keys@[i as int]);
            }
        }
        proof {
            lemma_push_to_set(to_render.keys@.take(i as int), key);
        }
        assert(to_render.keys@.take(i + 1).drop_last() =~= to_render.keys@.take(i as int));
        let ghost g = outside(mid);
        proof {
            to_render.keys@.take(i as int).lemma_filter_push(key, g);
        }
        if rendered.set.insert(key) {
            spawn.push(key);
        }
        assert(rendered.set@ =~= mid.union(to_render.keys@.take(i + 1).to_set()));
    }
    assert(to_render.keys@.take(m as int) =~= to_render.keys@);
    ChunkActions { despawn, spawn }
}


/// When the rendered set names exactly the chunks that have an entity, one frame of
/// chunk management leaves it naming exactly the wanted chunks; every entity that is
/// kept holds a wanted chunk, and the spawned chunks are the wanted ones that had no
/// entity.
pub proof fn lemma_manage_chunks_mirrors_entities(
    rendered: Set<ChunkKey>,
    existing: Seq<ChunkKey>,
    to_render: Seq<ChunkKey>,
)
    requires
        rendered == existing.to_set(),
        to_render.no_duplicates(),
        existing.len() <= usize::MAX,
    ensures
        rendered_after_removal(rendered, existing, to_render.to_set()).union(to_render.to_set())
            == to_render.to_set(),
        to_render.filter(outside(rendered_after_removal(rendered, existing, to_render.to_set()))).to_set()
            == to_render.to_set().difference(existing.to_set()),
        forall|p: int|
            0 <= p < existing.len() && !despawn_positions(existing, to_render.to_set()).contains(p as usize)
                ==> to_render.contains(#[trigger] existing[p]),
{
    broadcast use vstd::seq_lib::group_filter_ensures;

    let wanted = to_render.to_set();
    let mid = rendered_after_removal(rendered, existing, wanted);
    assert(mid.union(wanted) =~= wanted);
    let spawned = to_render.filter(outside(mid));
    assert forall|k: ChunkKey| spawned.to_set().contains(k) <==> wanted.difference(existing.to_set()).contains(k) by {
        if spawned.contains(k) {
            to_render.lemma_filter_contains_rev(outside(mid), k);
            let j = choose|j: int| 0 <= j < spawned.len() && spawned[j] == k;
            to_render.lemma_filter_pred(outside(mid), j);
        }
        if wanted.difference(existing.to_set()).contains(k) {
            let j = choose|j: int| 0 <= j < to_render.len() && to_render[j] == k;
            to_render.lemma_filter_contains(outside(mid), j);
        }
    }
    assert(spawned.to_set() =~= wanted.difference(existing.to_set()));
    assert forall|p: int|
        0 <= p < existing.len() && !despawn_positions(existing, wanted).contains(p as usize) implies to_render.contains(
        #[trigger] existing[p],
    ) by {
        if !to_render.contains(existing[p]) {
            assert(!wanted.contains(existing[p]));
            assert(positions(existing.len())[p] == p as usize);
            positions(existing.len()).lemma_filter_contains(unwanted_at(existing, wanted), p);
        }
    }
}


/// The offsets `(x, y)` with `-r <= x, y <= r`, `x` ascending and, for each `x`, `y`
/// ascending.
pub open spec fn square_offsets(r: int) -> Seq<(i32, i32)> {
    let w = 2 * r + 1;
    if r < 0 {
        Seq::empty()
    } else {
        Seq::new((w * w) as nat, |i: int| ((-r + i / w) as i32, (-r + i % w) as i32))
    }
}

/// Whether an offset lies within distance `r` of the origin.
pub open spec fn within_radius(r: int) -> spec_fn((i32, i32)) -> bool {
    |c: (i32, i32)| (c.0 as int) * (c.0 as int) + (c.1 as int) * (c.1 as int) <= r * r
}

/// The chunk offsets around the player that are rendered: those of the square of
/// half-width `r` that lie within distance `r`, in scanning order.
pub open spec fn disc_offsets_spec(r: int) -> Seq<(i32, i32)> {
    square_offsets(r).filter(within_radius(r))
}

proof fn lemma_square_position(w: int, row: int, col: int)
    requires
        w > 0,
        0 <= row < w,
        0 <= col < w,
    ensures
        (row * w + col) % w == col,
        (row * w + col) / w == row,
        row * w + col < w * w,
        (row + 1) * w == row * w + w,
{
    lemma_fundamental_div_mod_converse(row * w + col, w, row, col);
    assert((row + 1) * w == row * w + w) by (nonlinear_arith);
    assert(row * w + col < w * w) by (nonlinear_arith)
        requires
            0 <= row < w,
            0 <= col < w,
    ;
}

/// Lists the offsets of the chunks within distance `r` of the player's chunk.
pub fn disc_offsets(r: i32) -> (offsets: Vec<(i32, i32)>)
    requires
        r < 0 ==> r > i32::MIN,
        r >= 0 ==> 2 * r * r <= i32::MAX,
    ensures
        offsets@ == disc_offsets_spec(r as int),
{
    let mut out: Vec<(i32, i32)> = Vec::new();
    if r < 0 {
        return out;
    }
    assert(r <= 32767) by (nonlinear_arith)
        requires
            r >= 0,
            2 * r * r <= i32::MAX,
    ;
    let ghost w = 2 * r + 1;
    let ghost all = square_offsets(r as int);
    let ghost pred = within_radius(r as int);
    proof {
        assert(all.take(0) =~= Seq::<(i32, i32)>::empty());
        all.take(0).lemma_filter_len(pred);
        assert(all.take(0).filter(pred) =~= Seq::<(i32, i32)>::empty());
    }
    let mut x: i32 = -r;
    assert((x + r) * w == 0) by (nonlinear_arith)
        requires
            x + r == 0,
    ;
    while x <= r
        invariant
            0 <= r <= 32767,
            w == 2 * r + 1,
            all == square_offsets(r as int),
            pred == within_radius(r as int),
            -r <= x <= r + 1,
            out@ == all.take((x + r) * w).filter(pred),
        decreases r + 1 - x,
    {
        let mut y: i32 = -r;
        while y <= r
            invariant
                0 <= r <= 32767,
                w == 2 * r + 1,
                all == square_offsets(r as int),
                pred == within_radius(r as int),
                -r <= x <= r,
                -r <= y <= r + 1,
                out@ == all.take((x + r) * w + (y + r)).filter(pred),
            decreases r + 1 - y,
        {
            let ghost k = (x + r) * w + (y + r);
            proof {
                lemma_square_position(w, x + r, y + r);
                assert(all[k] == (x, y));
                assert(all.take(k + 1) =~= all.take(k).push((x, y)));
                all.take(k).lemma_filter_push((x, y), pred);
                assert(0 <= x * x <= 32767 * 32767 && 0 <= y * y <= 32767 * 32767) by (nonlinear_arith)
                    requires
                        -32767 <= x <= 32767,
                        -32767 <= y <= 32767,
                ;
                assert(0 <= r * r <= 32767 * 32767) by (nonlinear_arith)
                    requires
                        0 <= r <= 32767,
                ;
            }
            if x * x + y * y <= r * r {
                out.push((x, y));
            }
            y = y + 1;
        }
        proof {
            lemma_square_position(w, x + r, 0);
        }
        x = x + 1;
    }
    assert(all.take((r + 1 + r) * w) =~= all);
    out
}


/// An offset is rendered exactly when it lies within distance `r` of the origin.
pub proof fn lemma_disc_offsets_members(r: int, x: i32, y: i32)
    requires
        0 <= r <= 32767,
    ensures
        disc_offsets_spec(r).contains((x, y)) <==> (x as int) * (x as int) + (y as int) * (y as int) <= r
            * r,
{
    broadcast use vstd::seq_lib::group_filter_ensures;

    let w = 2 * r + 1;
    let all = square_offsets(r);
    let pred = within_radius(r);
    if disc_offsets_spec(r).contains((x, y)) {
        let j = choose|j: int| 0 <= j < all.filter(pred).len() && all.filter(pred)[j] == (x, y);
        all.lemma_filter_pred(pred, j);
    }
    if (x as int) * (x as int) + (y as int) * (y as int) <= r * r {
        assert(-r <= x <= r && -r <= y <= r) by (nonlinear_arith)
            requires
                (x as int) * (x as int) + (y as int) * (y as int) <= r * r,
                r >= 0,
        ;
        lemma_square_position(w, x + r, y + r);
        let k = (x + r) * w + (y + r);
        assert(all[k] == (x, y));
        all.lemma_filter_contains(pred, k);
    }
}

} // verus!
