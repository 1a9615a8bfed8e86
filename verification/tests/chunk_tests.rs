use space_explorer::chunk::{
    chunk_key, generate_chunk, key_coord, ObjectKind, SpaceObject, World, ASTEROID_ROLL_LIMIT,
    STATION_ROLL_LIMIT,
};
use space_explorer::seed::hash_seed_string;

fn obj(id: u64, x: u32, y: u32, r: Option<u32>, kind: ObjectKind) -> SpaceObject {
    SpaceObject { id, local_x: x, local_y: y, radius_draw: r, kind }
}

#[test]
fn sparse_chunk_is_empty() {
    let c = generate_chunk(hash_seed_string("hello"), 4, -9, None);
    assert_eq!(c.coord, (4, -9));
    assert!(c.objects.is_empty());
}

#[test]
fn dense_chunk_known_objects() {
    let w = hash_seed_string("hello");
    let c = generate_chunk(w, 0, 0, Some(1));
    assert_eq!(c.coord, (0, 0));
    assert_eq!(
        c.objects,
        vec![
            obj(0x4c3c22e05ef50a, 4111488, 451487, Some(14114107), ObjectKind::Asteroid),
            obj(0x10bb226b1f372210, 15896234, 4481498, Some(9245507), ObjectKind::Asteroid),
            obj(0x2f02adcc7759ba03, 6088209, 2832719, Some(10902612), ObjectKind::Asteroid),
        ]
    );
}

#[test]
fn station_takes_no_size_draw() {
    let w = hash_seed_string("hello");
    let c = generate_chunk(w, 3, -2, Some(0));
    assert_eq!(
        c.objects,
        vec![
            obj(0xb387675533c391fb, 3730251, 16753456, None, ObjectKind::Station),
            obj(0x5e751ce7e5fb2f31, 4331474, 15673812, Some(816120), ObjectKind::Asteroid),
        ]
    );
}

#[test]
fn dungeon_generated() {
    let w = hash_seed_string("hello");
    let c = generate_chunk(w, 6, 5, Some(1));
    assert_eq!(
        c.objects,
        vec![
            obj(0xedd986c89f3b005e, 3790173, 7198246, None, ObjectKind::Dungeon),
            obj(0x785a6d3f454f08c9, 14602202, 14227291, Some(10718059), ObjectKind::Asteroid),
            obj(0x1a5ef8e5af73e4b4, 13486740, 9413371, None, ObjectKind::Station),
        ]
    );
}

#[test]
fn other_seed_known_objects() {
    let c = generate_chunk(7, 1, 1, Some(2));
    assert_eq!(c.objects.len(), 4);
    assert_eq!(c.objects[0], obj(0x316ee81607e3c95b, 2680480, 16229890, None, ObjectKind::Station));
    assert_eq!(c.objects[3], obj(0x41bd6784e8587e47, 15157842, 13467677, Some(2962514), ObjectKind::Asteroid));
}

#[test]
fn negative_count_gives_no_objects() {
    let c = generate_chunk(7, 1, 1, Some(-10));
    assert!(c.objects.is_empty());
}

#[test]
fn same_seed_same_chunk() {
    let a = generate_chunk(99, -3, 8, Some(2));
    let b = generate_chunk(99, -3, 8, Some(2));
    assert_eq!(a.objects, b.objects);
}

#[test]
fn chunk_ids_are_distinct() {
    let c = generate_chunk(hash_seed_string("ids"), 2, 2, Some(40));
    for i in 0..c.objects.len() {
        for j in (i + 1)..c.objects.len() {
            assert_ne!(c.objects[i].id, c.objects[j].id);
        }
    }
}

#[test]
fn roll_limits_are_the_f32_thresholds() {
    assert_eq!(ASTEROID_ROLL_LIMIT as f32 / 16777216.0, 0.70f32);
    assert_eq!(STATION_ROLL_LIMIT as f32 / 16777216.0, 0.92f32);
    assert!(((ASTEROID_ROLL_LIMIT - 1) as f32 / 16777216.0) < 0.70f32);
    assert!(((STATION_ROLL_LIMIT - 1) as f32 / 16777216.0) < 0.92f32);
}

#[test]
fn chunk_key_known_values() {
    assert_eq!(chunk_key(0, 0), 0x8000_0000_8000_0000);
    assert_eq!(chunk_key(-1, 2), 0x7fff_ffff_8000_0002);
    assert_eq!(chunk_key(i32::MIN, i32::MAX), 0xffff_ffff);
}

#[test]
fn chunk_key_round_trips() {
    for &c in &[(0, 0), (-1, 2), (i32::MIN, i32::MAX), (i32::MAX, i32::MIN), (17, -4)] {
        assert_eq!(key_coord(chunk_key(c.0, c.1)), c);
    }
    assert_eq!(key_coord(0), (i32::MIN, i32::MIN));
    assert_eq!(key_coord(u64::MAX), (i32::MAX, i32::MAX));
}

#[test]
fn new_world_is_empty() {
    let w = World::new(5);
    assert_eq!(w.seed, 5);
    assert!(w.loaded.is_empty());
    assert!(w.pending.is_empty());
}

#[test]
fn ensure_chunk_loads_once() {
    let mut w = World::new(hash_seed_string("hello"));
    w.ensure_chunk(0, 0, Some(1));
    assert_eq!(w.loaded.len(), 1);
    assert_eq!(w.loaded[&chunk_key(0, 0)].objects.len(), 3);
    // a second call keeps the chunk already there
    w.ensure_chunk(0, 0, None);
    assert_eq!(w.loaded[&chunk_key(0, 0)].objects.len(), 3);
    w.ensure_chunk(1, 0, None);
    assert_eq!(w.loaded.len(), 2);
    assert_eq!(w.loaded[&chunk_key(1, 0)].coord, (1, 0));
}

#[test]
fn stream_around_requests_square_row_by_row() {
    let mut w = World::new(1);
    let req = w.stream_around((0, 0), 1, Vec::new());
    assert_eq!(
        req,
        vec![(-1, -1), (0, -1), (1, -1), (-1, 0), (0, 0), (1, 0), (-1, 1), (0, 1), (1, 1)]
    );
    assert_eq!(w.pending.len(), 9);
    assert!(w.loaded.is_empty());
}

#[test]
fn stream_around_skips_pending_and_loaded() {
    let mut w = World::new(1);
    w.stream_around((0, 0), 1, Vec::new());
    let finished = vec![generate_chunk(1, 0, 0, None)];
    let req = w.stream_around((1, 0), 1, finished);
    assert_eq!(req, vec![(2, -1), (2, 0), (2, 1)]);
    assert!(w.loaded.contains_key(&chunk_key(0, 0)));
    assert!(!w.pending.contains(&chunk_key(0, 0)));
    assert_eq!(w.pending.len(), 11);
}

#[test]
fn stream_around_unloads_far_chunks() {
    let mut w = World::new(1);
    w.stream_around((0, 0), 1, vec![generate_chunk(1, 0, 0, None), generate_chunk(1, -1, -1, None)]);
    assert_eq!(w.loaded.len(), 2);
    let req = w.stream_around((3, 0), 1, Vec::new());
    // (0, 0) is three chunks away: beyond radius + 1, so it is unloaded
    assert!(!w.loaded.contains_key(&chunk_key(0, 0)));
    assert!(!w.loaded.contains_key(&chunk_key(-1, -1)));
    // the pending (1, _) chunks are within two chunks and are kept
    assert!(w.pending.contains(&chunk_key(1, 0)));
    assert!(!w.pending.contains(&chunk_key(0, 1)));
    assert_eq!(req.len(), 9);
    for (x, y) in req {
        assert!(x >= 2 && x <= 4 && y >= -1 && y <= 1);
    }
}

#[test]
fn stream_around_late_chunk_for_forgotten_request() {
    let mut w = World::new(1);
    w.stream_around((0, 0), 0, Vec::new());
    w.stream_around((5, 5), 0, Vec::new());
    assert!(!w.pending.contains(&chunk_key(0, 0)));
    // the chunk arrives after the request was forgotten: it is loaded, then unloaded as far
    w.stream_around((5, 5), 0, vec![generate_chunk(1, 0, 0, None)]);
    assert!(!w.loaded.contains_key(&chunk_key(0, 0)));
    // arriving while near, it stays
    let req = w.stream_around((0, 0), 0, vec![generate_chunk(1, 0, 0, None)]);
    assert_eq!(req, vec![(0, 0)]);
    assert!(w.loaded.contains_key(&chunk_key(0, 0)));
    assert!(!w.pending.contains(&chunk_key(0, 0)));
}

#[test]
fn stream_around_stays_bounded() {
    let mut w = World::new(3);
    let mut x = 0;
    for step in 0..30 {
        let finished: Vec<_> = w
            .pending
            .iter()
            .take(4)
            .map(|&k| {
                let (cx, cy) = key_coord(k);
                generate_chunk(3, cx, cy, if step % 2 == 0 { Some(0) } else { None })
            })
            .collect();
        w.stream_around((x, -x), 2, finished);
        x += 1;
        assert!(w.loaded.len() <= 49);
        assert!(w.pending.len() <= 49);
    }
}

#[test]
fn negative_radius_requests_nothing() {
    let mut w = World::new(3);
    let req = w.stream_around((0, 0), -1, vec![generate_chunk(3, 0, 0, None)]);
    assert!(req.is_empty());
    // keep is zero: only the centre chunk may stay
    assert_eq!(w.loaded.len(), 1);
}

#[test]
fn dense_chunk_count_within_extra_and_extra_plus_two() {
    for cx in 0..20 {
        let c = generate_chunk(11, cx, 0, Some(1));
        assert!(c.objects.len() >= 1 && c.objects.len() <= 3);
    }
}

#[test]
fn stream_settles_when_everything_arrives() {
    let mut w = World::new(4);
    let req = w.stream_around((2, 2), 1, Vec::new());
    let finished: Vec<_> = req.iter().map(|&(x, y)| generate_chunk(4, x, y, None)).collect();
    let again = w.stream_around((2, 2), 1, finished);
    assert!(again.is_empty());
    assert!(w.pending.is_empty());
    assert_eq!(w.loaded.len(), 9);
    for &(x, y) in &req {
        assert!(w.loaded.contains_key(&chunk_key(x, y)));
    }
}

#[test]
fn loaded_and_pending_stay_disjoint() {
    let mut w = World::new(4);
    w.stream_around((0, 0), 1, Vec::new());
    w.stream_around((1, 0), 1, vec![generate_chunk(4, 0, 0, None), generate_chunk(4, 5, 5, None)]);
    for k in w.loaded.keys() {
        assert!(!w.pending.contains(k));
    }
}
