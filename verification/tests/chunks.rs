use terrain_raymarch::chunks::{
    disc_offsets, manage_chunks, ChunkKey, ChunkSet, FaceAxis, FaceCoords, RenderedChunks,
};

fn key(x: i32, y: i32, lod: u8) -> ChunkKey {
    ChunkKey { direction: FaceAxis { x: 0, y: 1, z: 0 }, coords: FaceCoords { x, y }, lod }
}

#[test]
fn chunk_set_insert_remove_contains() {
    let mut s = ChunkSet::new();
    assert_eq!(s.len(), 0);
    assert!(s.insert(key(1, 2, 3)));
    assert!(!s.insert(key(1, 2, 3)));
    assert!(s.insert(key(1, 2, 4)));
    assert_eq!(s.len(), 2);
    assert!(s.contains(&key(1, 2, 4)));
    assert!(s.remove(&key(1, 2, 3)));
    assert!(!s.remove(&key(1, 2, 3)));
    assert!(!s.contains(&key(1, 2, 3)));
    assert_eq!(s.len(), 1);
}

#[test]
fn manage_chunks_despawns_unwanted_and_spawns_new() {
    let mut rendered = RenderedChunks::default();
    for k in [key(0, 0, 5), key(1, 0, 5), key(2, 0, 5)] {
        rendered.set.insert(k);
    }
    let existing = vec![key(0, 0, 5), key(1, 0, 5), key(2, 0, 5)];
    let mut wanted = ChunkSet::new();
    for k in [key(1, 0, 5), key(3, 0, 5), key(0, 0, 2)] {
        wanted.insert(k);
    }
    let actions = manage_chunks(&mut rendered, &existing, &wanted);
    assert_eq!(actions.despawn, vec![0, 2]);
    assert_eq!(actions.spawn, vec![key(3, 0, 5), key(0, 0, 2)]);
    assert_eq!(rendered.set.len(), 3);
    for k in [key(1, 0, 5), key(3, 0, 5), key(0, 0, 2)] {
        assert!(rendered.set.contains(&k));
    }
}

#[test]
fn manage_chunks_with_nothing_rendered_spawns_all() {
    let mut rendered = RenderedChunks::default();
    let mut wanted = ChunkSet::new();
    wanted.insert(key(4, 4, 1));
    let actions = manage_chunks(&mut rendered, &Vec::new(), &wanted);
    assert!(actions.despawn.is_empty());
    assert_eq!(actions.spawn, vec![key(4, 4, 1)]);
}

#[test]
fn disc_offsets_of_radius_one_and_two() {
    assert_eq!(disc_offsets(0), vec![(0, 0)]);
    assert_eq!(disc_offsets(1), vec![(-1, 0), (0, -1), (0, 0), (0, 1), (1, 0)]);
    let d = disc_offsets(2);
    assert_eq!(d.len(), 13);
    assert!(!d.contains(&(2, 1)));
    assert!(d.contains(&(2, 0)));
    assert!(d.contains(&(-1, -1)));
    assert!(disc_offsets(-3).is_empty());
}

#[test]
fn disc_offsets_members_are_within_radius() {
    let r = 7;
    let d = disc_offsets(r);
    for x in -10..=10 {
        for y in -10..=10 {
            assert_eq!(d.contains(&(x, y)), x * x + y * y <= r * r);
        }
    }
}
