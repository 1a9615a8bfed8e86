//! Chunks of space and the objects in them, generated from the world seed,
//! and the set of chunks kept loaded around the player.
use std::collections::{HashMap, HashSet};
use vstd::prelude::*;
use crate::seed::{
    chunk_seed, lemma_golden_mul_injective, lemma_mix_injective, mix, spec_chunk_seed, spec_mix, spec_step, unit_bits, wrap_add, wrap_mul, SeedRng,
    CHUNK_Y_MULTIPLIER, GOLDEN_GAMMA,
};

verus! {

broadcast use vstd::std_specs::hash::group_hash_axioms;

/// A roll below this many 2^-24 units (the `f32` value 0.70) yields an asteroid.
pub const ASTEROID_ROLL_LIMIT: u32 = 11744051;

/// A roll below this many 2^-24 units (the `f32` value 0.92) and not below
/// [`ASTEROID_ROLL_LIMIT`] yields a station; any other roll yields a dungeon.
pub const STATION_ROLL_LIMIT: u32 = 15435039;

#[derive(Clone, Copy, Debug, PartialEq, Eq, Structural)]
pub enum ObjectKind {
    Asteroid,
    Station,
    Dungeon,
}

/// An object of a chunk. Its position inside the chunk and, for an
/// asteroid, its size are draws of 24 bits: fractions of 2^24.
#[derive(Clone, Copy, Debug, PartialEq, Eq)]
pub struct SpaceObject {
    pub id: u64,
    /// Offset from the chunk's left edge, in 2^-24 of the chunk's width.
    pub local_x: u32,
    /// Offset from the chunk's top edge, in 2^-24 of the chunk's height.
    pub local_y: u32,
    /// The draw that sizes an asteroid; stations and dungeons have fixed sizes.
    pub radius_draw: Option<u32>,
    pub kind: ObjectKind,
}

pub struct Chunk {
    pub coord: (i32, i32),
    pub objects: Vec<SpaceObject>,
}

/// The kind of object that a roll of 24 bits selects.
pub open spec fn spec_kind_of_roll(roll: u32) -> ObjectKind {
    if roll < ASTEROID_ROLL_LIMIT {
        ObjectKind::Asteroid
    } else if roll < STATION_ROLL_LIMIT {
        ObjectKind::Station
    } else {
        ObjectKind::Dungeon
    }
}

/// The `i`-th object of the chunk seeded with `seed`, drawn from a generator in
/// state `state`, and the generator's state after the draws it takes:
/// x, y and kind, then the size if it is an asteroid.
pub open spec fn spec_object(seed: u64, state: u64, i: int) -> (SpaceObject, u64) {
    let s1 = spec_step(state);
    let s2 = spec_step(s1);
    let s3 = spec_step(s2);
    let kind = spec_kind_of_roll(unit_bits(spec_mix(s3)));
    let s4 = spec_step(s3);
    let obj = SpaceObject {
        id: spec_mix(seed ^ wrap_mul(i as u64, GOLDEN_GAMMA)),
        local_x: unit_bits(spec_mix(s1)),
        local_y: unit_bits(spec_mix(s2)),
        radius_draw: if kind == ObjectKind::Asteroid {
            Some(unit_bits(spec_mix(s4)))
        } else {
            None
        },
        kind,
    };
    (obj, if kind == ObjectKind::Asteroid { s4 } else { s3 })
}

/// The first `n` objects of the chunk seeded with `seed`, drawn from a
/// generator in state `state`, and the generator's state afterwards.
pub open spec fn spec_objects(seed: u64, state: u64, n: nat) -> (Seq<SpaceObject>, u64)
    decreases n,
{
    if n == 0 {
        (Seq::empty(), state)
    } else {
        let prev = spec_objects(seed, state, (n - 1) as nat);
        let next = spec_object(seed, prev.1, n - 1);
        (prev.0.push(next.0), next.1)
    }
}

/// How many objects a chunk seeded with `seed` holds: none where the nebula
/// is thin (`dense_extra` is `None`), else a draw in [0, 3) plus the extra
/// that the density gives.
pub open spec fn spec_object_count(seed: u64, dense_extra: Option<i32>) -> int {
    match dense_extra {
        None => 0,
        Some(extra) => (spec_mix(spec_step(seed)) % 3) as int + extra,
    }
}

/// The objects of chunk `(cx, cy)` of the world seeded with `world_seed`.
pub open spec fn spec_chunk_objects(world_seed: u64, cx: i32, cy: i32, dense_extra: Option<i32>) -> Seq<SpaceObject> {
    let seed = spec_chunk_seed(world_seed, cx, cy);
    let count = spec_object_count(seed, dense_extra);
    let start = if dense_extra is Some { spec_step(seed) } else { seed };
    if count <= 0 {
        Seq::empty()
    } else {
        spec_objects(seed, start, count as nat).0
    }
}

/// Draws the `i`-th object of the chunk seeded with `seed` from `rng`.
fn draw_object(seed: u64, rng: &mut SeedRng, i: i32) -> (obj: SpaceObject)
    requires
        0 <= i,
    ensures
        (obj, final(rng).state) == spec_object(seed, old(rng).state, i as int),
{
    let local_x = rng.next_unit_bits();
    let local_y = rng.next_unit_bits();
    let roll = rng.next_unit_bits();
    let kind = if roll < ASTEROID_ROLL_LIMIT {
        ObjectKind::Asteroid
    } else if roll < STATION_ROLL_LIMIT {
        ObjectKind::Station
    } else {
        ObjectKind::Dungeon
    };
    let radius_draw = match kind {
        ObjectKind::Asteroid => Some(rng.next_unit_bits()),
        ObjectKind::Station => None,
        ObjectKind::Dungeon => None,
    };
    SpaceObject {
        id: mix(seed ^ (i as u64).wrapping_mul(GOLDEN_GAMMA)),
        local_x,
        local_y,
        radius_draw,
        kind,
    }
}

/// Generates chunk `(cx, cy)` of the world seeded with `world_seed`.
/// `dense_extra` is `None` where the nebula density is below the threshold
/// for objects, and otherwise the number of objects that the density adds.
pub fn generate_chunk(world_seed: u64, cx: i32, cy: i32, dense_extra: Option<i32>) -> (chunk: Chunk)
    requires
        dense_extra matches Some(extra) ==> extra <= i32::MAX - 2,
    ensures
        chunk.coord == (cx, cy),
        chunk.objects@ == spec_chunk_objects(world_seed, cx, cy, dense_extra),
        dense_extra is None ==> chunk.objects@.len() == 0,
        dense_extra matches Some(extra) ==> (extra >= -2 ==> chunk.objects@.len() <= extra + 2),
        dense_extra matches Some(extra) ==> (extra >= 0 ==> chunk.objects@.len() >= extra),
        dense_extra matches Some(extra) ==> ({
            let seed = spec_mix(world_seed ^ wrap_mul(cx as u64, GOLDEN_GAMMA) ^ wrap_mul(cy as u64, CHUNK_Y_MULTIPLIER));
            let count = extra + spec_mix(wrap_add(seed, GOLDEN_GAMMA)) % 3;
            chunk.objects@.len() == if count > 0 { count } else { 0 }
        }),
        forall|i: int| 0 <= i < chunk.objects@.len() ==> {
            let o = #[trigger] chunk.objects@[i];
            let seed = spec_mix(world_seed ^ wrap_mul(cx as u64, GOLDEN_GAMMA) ^ wrap_mul(cy as u64, CHUNK_Y_MULTIPLIER));
            &&& o.id == spec_mix(seed ^ wrap_mul(i as u64, GOLDEN_GAMMA))
            &&& (o.radius_draw is Some <==> o.kind == ObjectKind::Asteroid)
            &&& o.local_x < 0x100_0000
            &&& o.local_y < 0x100_0000
            &&& (o.radius_draw matches Some(r) ==> r < 0x100_0000)
        },
{
    let seed = chunk_seed(world_seed, cx, cy);
    let mut rng = SeedRng::new(seed);
    let count: i32 = match dense_extra {
        None => 0,
        Some(extra) => rng.range_i32(0, 3) + extra,
    };
    assert(count == spec_object_count(seed, dense_extra));
    let ghost start = rng.state;
    assert(start == if dense_extra is Some { spec_step(seed) } else { seed });
    let mut objects: Vec<SpaceObject> = Vec::new();
    let mut i: i32 = 0;
    while i < count
        invariant
            0 <= i,
            count > 0 ==> i <= count,
            count <= 0 ==> i == 0,
            (objects@, rng.state) == spec_objects(seed, start, i as nat),
        decreases count - i,
    {
        let obj = draw_object(seed, &mut rng, i);
        objects.push(obj);
        i = i + 1;
    }
    proof {
        lemma_objects_len(seed, start, i as nat);
        reveal(crate::seed::spec_step);
        assert forall|j: int| 0 <= j < objects@.len() implies {
            let o = #[trigger] objects@[j];
            &&& o.id == spec_mix(seed ^ wrap_mul(j as u64, GOLDEN_GAMMA))
            &&& (o.radius_draw is Some <==> o.kind == ObjectKind::Asteroid)
            &&& o.local_x < 0x100_0000
            &&& o.local_y < 0x100_0000
            &&& (o.radius_draw matches Some(r) ==> r < 0x100_0000)
        } by {
            lemma_object_ids(seed, start, i as nat, j);
            lemma_object_shape(seed, start, i as nat, j);
        }
    }
    Chunk { coord: (cx, cy), objects }
}


/// [`spec_objects`] yields `n` objects.
proof fn lemma_objects_len(seed: u64, state: u64, n: nat)
    ensures
        spec_objects(seed, state, n).0.len() == n,
    decreases n,
{
    if n > 0 {
        lemma_objects_len(seed, state, (n - 1) as nat);
    }
}

/// The `i`-th object of [`spec_objects`] has id `mix(seed ^ i * GOLDEN_GAMMA)`.
proof fn lemma_object_ids(seed: u64, state: u64, n: nat, i: int)
    requires
        0 <= i < n,
    ensures
        spec_objects(seed, state, n).0[i].id == spec_mix(seed ^ wrap_mul(i as u64, GOLDEN_GAMMA)),
    decreases n,
{
    let prev = spec_objects(seed, state, (n - 1) as nat);
    let next = spec_object(seed, prev.1, n - 1);
    lemma_objects_len(seed, state, (n - 1) as nat);
    assert(spec_objects(seed, state, n).0 == prev.0.push(next.0));
    if i < n - 1 {
        lemma_object_ids(seed, state, (n - 1) as nat, i);
        assert(prev.0.push(next.0)[i] == prev.0[i]);
    } else {
        assert(prev.0.push(next.0)[i] == next.0);
    }
}

/// Each object of [`spec_objects`] has a size draw exactly when it is an
/// asteroid, and its position draws are fractions of 2^24.
proof fn lemma_object_shape(seed: u64, state: u64, n: nat, i: int)
    requires
        0 <= i < n,
    ensures
        ({
            let o = spec_objects(seed, state, n).0[i];
            &&& (o.radius_draw is Some <==> o.kind == ObjectKind::Asteroid)
            &&& o.local_x < 0x100_0000
            &&& o.local_y < 0x100_0000
            &&& (o.radius_draw matches Some(r) ==> r < 0x100_0000)
        }),
    decreases n,
{
    let prev = spec_objects(seed, state, (n - 1) as nat);
    let next = spec_object(seed, prev.1, n - 1);
    lemma_objects_len(seed, state, (n - 1) as nat);
    assert(spec_objects(seed, state, n).0 == prev.0.push(next.0));
    if i < n - 1 {
        lemma_object_shape(seed, state, (n - 1) as nat, i);
        assert(prev.0.push(next.0)[i] == prev.0[i]);
    } else {
        assert(prev.0.push(next.0)[i] == next.0);
        let s1 = spec_step(prev.1);
        let s2 = spec_step(s1);
        let s4 = spec_step(spec_step(s2));
        let d1 = spec_mix(s1);
        let d2 = spec_mix(s2);
        let d4 = spec_mix(s4);
        assert(((d1 >> 40u64) as u32) < 0x100_0000u32) by (bit_vector);
        assert(((d2 >> 40u64) as u32) < 0x100_0000u32) by (bit_vector);
        assert(((d4 >> 40u64) as u32) < 0x100_0000u32) by (bit_vector);
    }
}

/// No two objects of a chunk share an id.
pub proof fn lemma_chunk_ids_distinct(world_seed: u64, cx: i32, cy: i32, dense_extra: Option<i32>, i: int, j: int)
    requires
        0 <= i < j < spec_chunk_objects(world_seed, cx, cy, dense_extra).len(),
    ensures
        spec_chunk_objects(world_seed, cx, cy, dense_extra)[i].id
            != spec_chunk_objects(world_seed, cx, cy, dense_extra)[j].id,
{
    let seed = spec_chunk_seed(world_seed, cx, cy);
    let count = spec_object_count(seed, dense_extra);
    let start = if dense_extra is Some { spec_step(seed) } else { seed };
    if count > 0 {
        lemma_objects_len(seed, start, count as nat);
    }
    lemma_object_ids(seed, start, count as nat, i);
    lemma_object_ids(seed, start, count as nat, j);
    let wi = wrap_mul(i as u64, GOLDEN_GAMMA);
    let wj = wrap_mul(j as u64, GOLDEN_GAMMA);
    lemma_mix_injective(seed ^ wi, seed ^ wj);
    assert(seed ^ wi == seed ^ wj ==> wi == wj) by (bit_vector);
    lemma_golden_mul_injective(i as u64, j as u64);
}

/// Offset that maps an `i32` coordinate onto [0, 2^32).
pub open spec fn coord_offset(c: i32) -> int {
    c as int + 0x8000_0000
}

/// Key of chunk `(cx, cy)` in the maps of a [`World`]: the two coordinates,
/// each shifted onto [0, 2^32), as the high and low halves of a `u64`.
pub open spec fn spec_chunk_key(coord: (i32, i32)) -> u64 {
    (coord_offset(coord.0) * 0x1_0000_0000 + coord_offset(coord.1)) as u64
}

/// The chunk coordinates that a key stands for.
pub open spec fn spec_key_coord(key: u64) -> (i32, i32) {
    (
        (key as int / 0x1_0000_0000 - 0x8000_0000) as i32,
        (key as int % 0x1_0000_0000 - 0x8000_0000) as i32,
    )
}

pub fn chunk_key(cx: i32, cy: i32) -> (key: u64)
    ensures
        key == spec_chunk_key((cx, cy)),
{
    let hi = (cx as i64 + 0x8000_0000) as u64;
    let lo = (cy as i64 + 0x8000_0000) as u64;
    hi * 0x1_0000_0000 + lo
}

pub fn key_coord(key: u64) -> (coord: (i32, i32))
    ensures
        coord == spec_key_coord(key),
{
    let hi = (key / 0x1_0000_0000) as i64;
    let lo = (key % 0x1_0000_0000) as i64;
    ((hi - 0x8000_0000) as i32, (lo - 0x8000_0000) as i32)
}

/// Keys and coordinates are in one-to-one correspondence: decoding a key
/// gives back the coordinates it was made from, and every key is the key of
/// the coordinates it decodes to.
pub proof fn lemma_chunk_key_bijective(coord: (i32, i32), key: u64)
    ensures
        spec_key_coord(spec_chunk_key(coord)) == coord,
        spec_chunk_key(spec_key_coord(key)) == key,
{
    let a = coord_offset(coord.0);
    let b = coord_offset(coord.1);
    let k = a * 0x1_0000_0000 + b;
    vstd::arithmetic::div_mod::lemma_fundamental_div_mod_converse(k, 0x1_0000_0000, a, b);
    vstd::arithmetic::div_mod::lemma_fundamental_div_mod(key as int, 0x1_0000_0000);
}

/// Distinct coordinates have distinct keys.
pub proof fn lemma_chunk_key_injective(c1: (i32, i32), c2: (i32, i32))
    ensures
        spec_chunk_key(c1) == spec_chunk_key(c2) <==> c1 == c2,
{
    lemma_chunk_key_bijective(c1, 0);
    lemma_chunk_key_bijective(c2, 0);
}


/// Chunk `coord` lies within `keep` chunks of `center` on both axes.
pub open spec fn spec_near(coord: (i32, i32), center: (i32, i32), keep: int) -> bool {
    &&& coord.0 - center.0 <= keep
    &&& center.0 - coord.0 <= keep
    &&& coord.1 - center.1 <= keep
    &&& center.1 - coord.1 <= keep
}

/// Row `cy` of a square of chunks: `width` chunks from column `x0` rightwards.
pub open spec fn spec_row(x0: int, cy: int, width: nat) -> Seq<(i32, i32)> {
    Seq::new(width, |i: int| ((x0 + i) as i32, cy as i32))
}

/// The first `rows` rows, from row `y0` downwards, of a square of chunks
/// `width` chunks wide whose left column is `x0`.
pub open spec fn spec_rows(x0: int, y0: int, width: nat, rows: nat) -> Seq<(i32, i32)>
    decreases rows,
{
    if rows == 0 {
        Seq::empty()
    } else {
        spec_rows(x0, y0, width, (rows - 1) as nat) + spec_row(x0, y0 + rows - 1, width)
    }
}

/// The chunks within `radius` of `center`, row by row from the top.
pub open spec fn spec_square(center: (i32, i32), radius: int) -> Seq<(i32, i32)> {
    if radius < 0 {
        Seq::empty()
    } else {
        spec_rows(center.0 - radius, center.1 - radius, (2 * radius + 1) as nat, (2 * radius + 1) as nat)
    }
}

/// The coordinates of `coords`, in their order, whose key is in neither
/// `loaded` nor `pending`.
pub open spec fn spec_missing(coords: Seq<(i32, i32)>, loaded: Set<u64>, pending: Set<u64>) -> Seq<(i32, i32)>
    decreases coords.len(),
{
    if coords.len() == 0 {
        Seq::empty()
    } else {
        let prev = spec_missing(coords.drop_last(), loaded, pending);
        let c = coords.last();
        if !loaded.contains(spec_chunk_key(c)) && !pending.contains(spec_chunk_key(c)) {
            prev.push(c)
        } else {
            prev
        }
    }
}

/// The keys of a sequence of coordinates.
pub open spec fn spec_coord_keys(coords: Seq<(i32, i32)>) -> Set<u64>
    decreases coords.len(),
{
    if coords.len() == 0 {
        Set::empty()
    } else {
        spec_coord_keys(coords.drop_last()).insert(spec_chunk_key(coords.last()))
    }
}

/// The keys of a sequence of chunks.
pub open spec fn spec_chunk_keys(chunks: Seq<Chunk>) -> Set<u64>
    decreases chunks.len(),
{
    if chunks.len() == 0 {
        Set::empty()
    } else {
        spec_chunk_keys(chunks.drop_last()).insert(spec_chunk_key(chunks.last().coord))
    }
}

/// `m` with the chunks of `chunks` stored under their keys, in order, so
/// that a later chunk replaces an earlier one with the same coordinates.
pub open spec fn spec_insert_chunks(m: Map<u64, Chunk>, chunks: Seq<Chunk>) -> Map<u64, Chunk>
    decreases chunks.len(),
{
    if chunks.len() == 0 {
        m
    } else {
        spec_insert_chunks(m, chunks.drop_last()).insert(spec_chunk_key(chunks.last().coord), chunks.last())
    }
}

/// The entries of `m` whose key stands for a chunk within `keep` of `center`.
pub open spec fn spec_near_entries(m: Map<u64, Chunk>, center: (i32, i32), keep: int) -> Map<u64, Chunk> {
    Map::new(|k: u64| m.contains_key(k) && spec_near(spec_key_coord(k), center, keep), |k: u64| m[k])
}

/// The keys of `s` that stand for a chunk within `keep` of `center`.
pub open spec fn spec_near_keys(s: Set<u64>, center: (i32, i32), keep: int) -> Set<u64> {
    Set::new(|k: u64| s.contains(k) && spec_near(spec_key_coord(k), center, keep))
}

/// Whether the chunk that `key` stands for lies within `keep` of `center`.
fn key_near(key: u64, center: (i32, i32), keep: i64) -> (near: bool)
    ensures
        near == spec_near(spec_key_coord(key), center, keep as int),
{
    let coord = key_coord(key);
    let dx = coord.0 as i64 - center.0 as i64;
    let dy = coord.1 as i64 - center.1 as i64;
    dx <= keep && -dx <= keep && dy <= keep && -dy <= keep
}

/// Calls `HashMap::retain`, which keeps exactly the entries for which the
/// predicate holds; the predicate is [`key_near`] on the entry's key.
#[verifier::external_body]
fn retain_near_chunks(map: &mut HashMap<u64, Chunk>, center: (i32, i32), keep: i64)
    ensures
        final(map)@ == spec_near_entries(old(map)@, center, keep as int),
{
    map.retain(|k, _| key_near(*k, center, keep));
}

/// Calls `HashSet::retain`, which keeps exactly the elements for which the
/// predicate holds; the predicate is [`key_near`].
#[verifier::external_body]
fn retain_near_keys(set: &mut HashSet<u64>, center: (i32, i32), keep: i64)
    ensures
        final(set)@ == spec_near_keys(old(set)@, center, keep as int),
{
    set.retain(|k| key_near(*k, center, keep));
}

/// A key is among the keys of a sequence of coordinates exactly when it is
/// the key of one of them.
pub proof fn lemma_coord_keys_contains(coords: Seq<(i32, i32)>, k: u64)
    ensures
        spec_coord_keys(coords).contains(k) <==> exists|i: int|
            0 <= i < coords.len() && spec_chunk_key(#[trigger] coords[i]) == k,
    decreases coords.len(),
{
    if coords.len() > 0 {
        let prefix = coords.drop_last();
        lemma_coord_keys_contains(prefix, k);
        if spec_coord_keys(coords).contains(k) {
            if spec_chunk_key(coords.last()) == k {
                assert(spec_chunk_key(coords[coords.len() - 1]) == k);
            } else {
                let i = choose|i: int| 0 <= i < prefix.len() && spec_chunk_key(#[trigger] prefix[i]) == k;
                assert(spec_chunk_key(coords[i]) == k);
            }
        }
        if exists|i: int| 0 <= i < coords.len() && spec_chunk_key(#[trigger] coords[i]) == k {
            let i = choose|i: int| 0 <= i < coords.len() && spec_chunk_key(#[trigger] coords[i]) == k;
            if i < coords.len() - 1 {
                assert(spec_chunk_key(prefix[i]) == k);
            }
        }
    }
}

/// Every chunk of the `rows` by `width` block whose top left chunk is
/// `(x0, y0)` occurs in [`spec_rows`].
pub proof fn lemma_rows_contains(x0: int, y0: int, width: nat, rows: nat, c: (i32, i32))
    requires
        x0 <= c.0 < x0 + width,
        y0 <= c.1 < y0 + rows,
    ensures
        spec_rows(x0, y0, width, rows).contains(c),
    decreases rows,
{
    let prefix = spec_rows(x0, y0, width, (rows - 1) as nat);
    let row = spec_row(x0, y0 + rows - 1, width);
    let all = spec_rows(x0, y0, width, rows);
    if c.1 == y0 + rows - 1 {
        let j = c.0 - x0;
        assert(row[j] == c);
        assert(all[prefix.len() + j] == c);
    } else {
        lemma_rows_contains(x0, y0, width, (rows - 1) as nat, c);
        let i = choose|i: int| 0 <= i < prefix.len() && prefix[i] == c;
        assert(all[i] == c);
    }
}

/// Every chunk within `radius` of `center` occurs in [`spec_square`].
pub proof fn lemma_square_contains(center: (i32, i32), radius: int, c: (i32, i32))
    requires
        spec_near(c, center, radius),
    ensures
        spec_square(center, radius).contains(c),
{
    lemma_rows_contains(center.0 - radius, center.1 - radius, (2 * radius + 1) as nat, (2 * radius + 1) as nat, c);
}

/// A coordinate of `coords` whose key is in neither `loaded` nor `pending`
/// has its key among the keys of [`spec_missing`].
pub proof fn lemma_missing_keys(coords: Seq<(i32, i32)>, loaded: Set<u64>, pending: Set<u64>, c: (i32, i32))
    requires
        coords.contains(c),
        !loaded.contains(spec_chunk_key(c)),
        !pending.contains(spec_chunk_key(c)),
    ensures
        spec_coord_keys(spec_missing(coords, loaded, pending)).contains(spec_chunk_key(c)),
    decreases coords.len(),
{
    let prefix = coords.drop_last();
    let prev = spec_missing(prefix, loaded, pending);
    if coords.last() == c {
        assert(prev.push(c).drop_last() =~= prev);
    } else {
        let i = choose|i: int| 0 <= i < coords.len() && coords[i] == c;
        assert(prefix[i] == c);
        lemma_missing_keys(prefix, loaded, pending, c);
        if !loaded.contains(spec_chunk_key(coords.last())) && !pending.contains(spec_chunk_key(coords.last())) {
            assert(prev.push(coords.last()).drop_last() =~= prev);
        }
    }
}

/// The keys of [`spec_insert_chunks`] are those of the map and those of the chunks.
pub proof fn lemma_insert_chunks_dom(m: Map<u64, Chunk>, chunks: Seq<Chunk>)
    ensures
        spec_insert_chunks(m, chunks).dom() == m.dom().union(spec_chunk_keys(chunks)),
    decreases chunks.len(),
{
    if chunks.len() > 0 {
        lemma_insert_chunks_dom(m, chunks.drop_last());
    }
    assert(spec_insert_chunks(m, chunks).dom() =~= m.dom().union(spec_chunk_keys(chunks)));
}

/// Position of chunk `c` in the square of side `2 * keep + 1` centred on `center`,
/// counted row-major from its top left chunk.
pub open spec fn spec_square_index(c: (i32, i32), center: (i32, i32), keep: int) -> int {
    (c.1 - (center.1 - keep)) * (2 * keep + 1) + (c.0 - (center.0 - keep))
}

/// A finite set of keys of chunks, all within `keep` of `center`, has at most
/// `(2 * keep + 1)^2` elements.
pub proof fn lemma_near_keys_bounded(keys: Set<u64>, center: (i32, i32), keep: int)
    requires
        keep >= 0,
        forall|k: u64| #[trigger] keys.contains(k) ==> spec_near(spec_key_coord(k), center, keep),
    ensures
        keys.finite(),
        keys.len() <= (2 * keep + 1) * (2 * keep + 1),
{
    let w = 2 * keep + 1;
    let g = |i: int| spec_chunk_key((((center.0 - keep) + i % w) as i32, ((center.1 - keep) + i / w) as i32));
    let range = vstd::set_lib::set_int_range(0, w * w);
    vstd::set_lib::lemma_int_range(0, w * w);
    range.lemma_map_finite(g);
    assert forall|k: u64| #[trigger] keys.contains(k) implies range.map(g).contains(k) by {
        let c = spec_key_coord(k);
        let a = c.1 - (center.1 - keep);
        let b = c.0 - (center.0 - keep);
        let i = a * w + b;
        vstd::arithmetic::div_mod::lemma_fundamental_div_mod_converse(i, w, a, b);
        assert(0 <= a * w + b < w * w) by (nonlinear_arith)
            requires
                0 <= a < w,
                0 <= b < w,
        ;
        lemma_chunk_key_bijective(c, k);
        assert(g(i) == k);
        assert(range.contains(i));
    }
    vstd::set_lib::lemma_len_subset(keys, range.map(g));
    let f = |k: u64| spec_square_index(spec_key_coord(k), center, keep);
    assert forall|k1: u64, k2: u64|
        keys.contains(k1) && keys.contains(k2) && #[trigger] f(k1) == #[trigger] f(k2) implies k1 == k2 by {
        let c1 = spec_key_coord(k1);
        let c2 = spec_key_coord(k2);
        let a1 = c1.1 - (center.1 - keep);
        let b1 = c1.0 - (center.0 - keep);
        let a2 = c2.1 - (center.1 - keep);
        let b2 = c2.0 - (center.0 - keep);
        vstd::arithmetic::div_mod::lemma_fundamental_div_mod_converse(f(k1), w, a1, b1);
        vstd::arithmetic::div_mod::lemma_fundamental_div_mod_converse(f(k2), w, a2, b2);
        lemma_chunk_key_bijective(c1, k1);
        lemma_chunk_key_bijective(c2, k2);
    }
    let image = keys.map(f);
    vstd::set_lib::lemma_map_size(keys, image, f);
    assert forall|i: int| #[trigger] image.contains(i) implies vstd::set_lib::set_int_range(0, w * w).contains(i) by {
        let k = choose|k: u64| keys.contains(k) && f(k) == i;
        let c = spec_key_coord(k);
        let a = c.1 - (center.1 - keep);
        let b = c.0 - (center.0 - keep);
        assert(0 <= a * w + b < w * w) by (nonlinear_arith)
            requires
                0 <= a < w,
                0 <= b < w,
        ;
    }
    vstd::set_lib::lemma_int_range(0, w * w);
    vstd::set_lib::lemma_len_subset(image, vstd::set_lib::set_int_range(0, w * w));
}

/// The keys that [`spec_missing`] yields are in neither `loaded` nor `pending`.
pub proof fn lemma_missing_keys_not_stored(coords: Seq<(i32, i32)>, loaded: Set<u64>, pending: Set<u64>, k: u64)
    requires
        spec_coord_keys(spec_missing(coords, loaded, pending)).contains(k),
    ensures
        !loaded.contains(k),
        !pending.contains(k),
    decreases coords.len(),
{
    if coords.len() > 0 {
        let prev = spec_missing(coords.drop_last(), loaded, pending);
        let c = coords.last();
        if !loaded.contains(spec_chunk_key(c)) && !pending.contains(spec_chunk_key(c)) {
            assert(prev.push(c).drop_last() =~= prev);
            if k != spec_chunk_key(c) {
                lemma_missing_keys_not_stored(coords.drop_last(), loaded, pending, k);
            }
        } else {
            lemma_missing_keys_not_stored(coords.drop_last(), loaded, pending, k);
        }
    }
}

/// When every coordinate of `coords` has its key in `loaded` or in
/// `pending`, [`spec_missing`] yields nothing.
pub proof fn lemma_missing_empty(coords: Seq<(i32, i32)>, loaded: Set<u64>, pending: Set<u64>)
    requires
        forall|i: int| 0 <= i < coords.len() ==>
            loaded.contains(spec_chunk_key(#[trigger] coords[i])) || pending.contains(spec_chunk_key(coords[i])),
    ensures
        spec_missing(coords, loaded, pending) == Seq::<(i32, i32)>::empty(),
    decreases coords.len(),
{
    if coords.len() > 0 {
        let prefix = coords.drop_last();
        assert forall|i: int| 0 <= i < prefix.len() implies
            loaded.contains(spec_chunk_key(#[trigger] prefix[i])) || pending.contains(spec_chunk_key(prefix[i])) by {
            assert(prefix[i] == coords[i]);
        }
        lemma_missing_empty(prefix, loaded, pending);
        assert(coords.last() == coords[coords.len() - 1]);
    }
}

/// Every chunk of [`spec_rows`] lies in its block, when the block's
/// coordinates fit in `i32`.
pub proof fn lemma_rows_elements(x0: int, y0: int, width: nat, rows: nat)
    requires
        i32::MIN <= x0,
        x0 + width - 1 <= i32::MAX,
        i32::MIN <= y0,
        y0 + rows - 1 <= i32::MAX,
    ensures
        forall|i: int| 0 <= i < spec_rows(x0, y0, width, rows).len() ==> {
            let c = #[trigger] spec_rows(x0, y0, width, rows)[i];
            &&& x0 <= c.0 < x0 + width
            &&& y0 <= c.1 < y0 + rows
        },
    decreases rows,
{
    if rows > 0 {
        lemma_rows_elements(x0, y0, width, (rows - 1) as nat);
        let prev = spec_rows(x0, y0, width, (rows - 1) as nat);
        let row = spec_row(x0, y0 + rows - 1, width);
        let all = spec_rows(x0, y0, width, rows);
        assert forall|i: int| 0 <= i < all.len() implies {
            let c = #[trigger] all[i];
            &&& x0 <= c.0 < x0 + width
            &&& y0 <= c.1 < y0 + rows
        } by {
            if i < prev.len() {
                assert(all[i] == prev[i]);
            } else {
                assert(all[i] == row[i - prev.len()]);
            }
        }
    }
}

/// The chunk holds the objects that the world seeded with `seed` generates
/// at its coordinates, for some nebula density.
pub open spec fn spec_is_generated(seed: u64, chunk: Chunk) -> bool {
    exists|extra: Option<i32>| chunk.objects@ == #[trigger] spec_chunk_objects(seed, chunk.coord.0, chunk.coord.1, extra)
}

/// Inserting generated chunks into a map of generated chunks leaves only
/// generated chunks.
pub proof fn lemma_insert_chunks_generated(seed: u64, m: Map<u64, Chunk>, chunks: Seq<Chunk>)
    requires
        forall|k: u64| #[trigger] m.contains_key(k) ==> spec_is_generated(seed, m[k]),
        forall|i: int| 0 <= i < chunks.len() ==> spec_is_generated(seed, #[trigger] chunks[i]),
    ensures
        forall|k: u64| #[trigger] spec_insert_chunks(m, chunks).contains_key(k)
            ==> spec_is_generated(seed, spec_insert_chunks(m, chunks)[k]),
    decreases chunks.len(),
{
    if chunks.len() > 0 {
        let prefix = chunks.drop_last();
        assert forall|i: int| 0 <= i < prefix.len() implies spec_is_generated(seed, #[trigger] prefix[i]) by {
            assert(prefix[i] == chunks[i]);
        }
        lemma_insert_chunks_generated(seed, m, prefix);
        let last = chunks[chunks.len() - 1];
        assert(spec_is_generated(seed, last));
        let prev = spec_insert_chunks(m, prefix);
        let all = spec_insert_chunks(m, chunks);
        assert(all == prev.insert(spec_chunk_key(last.coord), last));
        assert forall|k: u64| #[trigger] all.contains_key(k) implies spec_is_generated(seed, all[k]) by {
            if k != spec_chunk_key(last.coord) {
                assert(prev.contains_key(k));
            }
        }
    }
}

/// Each coordinate that [`spec_missing`] yields is one of `coords`, and its
/// key is in neither `loaded` nor `pending`.
pub proof fn lemma_missing_elements(coords: Seq<(i32, i32)>, loaded: Set<u64>, pending: Set<u64>)
    ensures
        forall|i: int| 0 <= i < spec_missing(coords, loaded, pending).len() ==> {
            let c = #[trigger] spec_missing(coords, loaded, pending)[i];
            &&& coords.contains(c)
            &&& !loaded.contains(spec_chunk_key(c))
            &&& !pending.contains(spec_chunk_key(c))
        },
    decreases coords.len(),
{
    if coords.len() > 0 {
        let prefix = coords.drop_last();
        lemma_missing_elements(prefix, loaded, pending);
        let prev = spec_missing(prefix, loaded, pending);
        let all = spec_missing(coords, loaded, pending);
        assert forall|i: int| 0 <= i < all.len() implies {
            let c = #[trigger] all[i];
            &&& coords.contains(c)
            &&& !loaded.contains(spec_chunk_key(c))
            &&& !pending.contains(spec_chunk_key(c))
        } by {
            if i < prev.len() {
                assert(all[i] == prev[i]);
                let j = choose|j: int| 0 <= j < prefix.len() && prefix[j] == prev[i];
                assert(coords[j] == prefix[j]);
            } else {
                assert(all[i] == coords[coords.len() - 1]);
            }
        }
    }
}

/// With nothing loaded and nothing pending, [`spec_missing`] yields every coordinate.
pub proof fn lemma_missing_all(coords: Seq<(i32, i32)>)
    ensures
        spec_missing(coords, Set::empty(), Set::empty()) == coords,
    decreases coords.len(),
{
    if coords.len() > 0 {
        lemma_missing_all(coords.drop_last());
        assert(coords.drop_last().push(coords.last()) =~= coords);
    }
}

/// [`spec_rows`] holds `width * rows` chunks.
pub proof fn lemma_rows_len(x0: int, y0: int, width: nat, rows: nat)
    ensures
        spec_rows(x0, y0, width, rows).len() == width * rows,
    decreases rows,
{
    if rows > 0 {
        lemma_rows_len(x0, y0, width, (rows - 1) as nat);
        let r1: nat = (rows - 1) as nat;
        assert(width * r1 + width == width * rows) by (nonlinear_arith)
            requires
                r1 + 1 == rows,
        ;
    } else {
        assert(width * rows == 0) by (nonlinear_arith)
            requires
                rows == 0,
        ;
    }
}

/// The chunks that are loaded, by key, and the keys of the chunks that were
/// requested from the generator and have not arrived.
pub struct World {
    pub seed: u64,
    pub loaded: HashMap<u64, Chunk>,
    pub pending: HashSet<u64>,
}

impl World {
    /// Each loaded chunk is stored under the key of its own coordinates.
    pub open spec fn wf(&self) -> bool {
        forall|k: u64| #[trigger]
            self.loaded@.contains_key(k) ==> spec_chunk_key(self.loaded@[k].coord) == k
    }

    /// No chunk is both loaded and pending.
    pub open spec fn disjoint(&self) -> bool {
        forall|k: u64| !(#[trigger] self.loaded@.contains_key(k) && #[trigger] self.pending@.contains(k))
    }

    /// Every loaded chunk holds what the world's seed generates at its coordinates.
    pub open spec fn all_generated(&self) -> bool {
        forall|k: u64| #[trigger] self.loaded@.contains_key(k) ==> spec_is_generated(self.seed, self.loaded@[k])
    }

    pub open spec fn is_loaded(&self, coord: (i32, i32)) -> bool {
        self.loaded@.contains_key(spec_chunk_key(coord))
    }

    pub open spec fn is_pending(&self, coord: (i32, i32)) -> bool {
        self.pending@.contains(spec_chunk_key(coord))
    }

    pub fn new(seed: u64) -> (world: World)
        ensures
            world.wf(),
            world.disjoint(),
            world.all_generated(),
            world.seed == seed,
            world.loaded@ == Map::<u64, Chunk>::empty(),
            world.pending@ == Set::<u64>::empty(),
    {
        World { seed, loaded: HashMap::new(), pending: HashSet::new() }
    }

    /// Loads chunk `(cx, cy)`, generating it from the world seed, unless it
    /// is loaded already. `dense_extra` is as for [`generate_chunk`].
    pub fn ensure_chunk(&mut self, cx: i32, cy: i32, dense_extra: Option<i32>)
        requires
            old(self).wf(),
            dense_extra matches Some(extra) ==> extra <= i32::MAX - 2,
        ensures
            final(self).wf(),
            final(self).seed == old(self).seed,
            final(self).pending@ == old(self).pending@,
            old(self).all_generated() ==> final(self).all_generated(),
            old(self).is_loaded((cx, cy)) ==> final(self).loaded@ == old(self).loaded@,
            !old(self).is_loaded((cx, cy)) ==> {
                let k = spec_chunk_key((cx, cy));
                &&& final(self).loaded@.dom() == old(self).loaded@.dom().insert(k)
                &&& final(self).loaded@.remove(k) == old(self).loaded@
                &&& final(self).loaded@[k].coord == (cx, cy)
                &&& final(self).loaded@[k].objects@ == spec_chunk_objects(old(self).seed, cx, cy, dense_extra)
            },
    {
        let key = chunk_key(cx, cy);
        if !self.loaded.contains_key(&key) {
            let chunk = generate_chunk(self.seed, cx, cy, dense_extra);
            self.loaded.insert(key, chunk);
            proof {
                assert(chunk.objects@ == spec_chunk_objects(self.seed, cx, cy, dense_extra));
                assert(self.loaded@.remove(key) =~= old(self).loaded@);
            }
        }
    }

    /// Marks as pending, and returns in order, every chunk within `radius`
    /// of `center`, row by row from the top, that is neither loaded nor
    /// pending.
    fn request_missing(&mut self, center: (i32, i32), radius: i32) -> (requests: Vec<(i32, i32)>)
        requires
            old(self).wf(),
            center.0 - radius >= i32::MIN,
            center.0 + radius <= i32::MAX,
            center.1 - radius >= i32::MIN,
            center.1 + radius <= i32::MAX,
        ensures
            final(self).wf(),
            final(self).seed == old(self).seed,
            final(self).loaded@ == old(self).loaded@,
            requests@ == spec_missing(
                spec_square(center, radius as int),
                old(self).loaded@.dom(),
                old(self).pending@,
            ),
            final(self).pending@ == old(self).pending@.union(spec_coord_keys(requests@)),
    {
        let ghost loaded0 = self.loaded@.dom();
        let ghost pending0 = self.pending@;
        let mut requests: Vec<(i32, i32)> = Vec::new();
        if radius < 0 {
            assert(self.pending@ =~= pending0.union(spec_coord_keys(requests@)));
            return requests;
        }
        let x0: i64 = center.0 as i64 - radius as i64;
        let x1: i64 = center.0 as i64 + radius as i64;
        let y0: i64 = center.1 as i64 - radius as i64;
        let y1: i64 = center.1 as i64 + radius as i64;
        let ghost width: nat = (2 * radius + 1) as nat;
        let mut cy: i64 = y0;
        while cy <= y1
            invariant
                x0 == center.0 - radius,
                x1 == center.0 + radius,
                y0 == center.1 - radius,
                y1 == center.1 + radius,
                width == 2 * radius + 1,
                i32::MIN <= x0 <= x1 <= i32::MAX,
                i32::MIN <= y0 <= y1 <= i32::MAX,
                y0 <= cy <= y1 + 1,
                self.wf(),
                self.seed == old(self).seed,
                self.loaded@ == old(self).loaded@,
                loaded0 == old(self).loaded@.dom(),
                pending0 == old(self).pending@,
                requests@ == spec_missing(spec_rows(x0 as int, y0 as int, width, (cy - y0) as nat), loaded0, pending0),
                self.pending@ == pending0.union(spec_coord_keys(requests@)),
                forall|i: int| 0 <= i < requests@.len() ==> (#[trigger] requests@[i]).1 < cy,
            decreases y1 + 1 - cy,
        {
            let ghost rows: nat = (cy - y0) as nat;
            let mut cx: i64 = x0;
            while cx <= x1
                invariant
                    x0 == center.0 - radius,
                    x1 == center.0 + radius,
                    y0 <= cy <= y1,
                    y1 == center.1 + radius,
                    width == 2 * radius + 1,
                    rows == cy - y0,
                    i32::MIN <= x0 <= x1 <= i32::MAX,
                    i32::MIN <= y0 <= y1 <= i32::MAX,
                    x0 <= cx <= x1 + 1,
                    self.wf(),
                    self.seed == old(self).seed,
                    self.loaded@ == old(self).loaded@,
                    loaded0 == old(self).loaded@.dom(),
                    requests@ == spec_missing(
                        spec_rows(x0 as int, y0 as int, width, rows) + spec_row(x0 as int, cy as int, (cx - x0) as nat),
                        loaded0,
                        pending0,
                    ),
                    self.pending@ == pending0.union(spec_coord_keys(requests@)),
                    forall|i: int| 0 <= i < requests@.len() ==>
                        (#[trigger] requests@[i]).1 < cy || (requests@[i].1 == cy && requests@[i].0 < cx),
                decreases x1 + 1 - cx,
            {
                let c: (i32, i32) = (cx as i32, cy as i32);
                let key = chunk_key(c.0, c.1);
                let ghost before = spec_rows(x0 as int, y0 as int, width, rows) + spec_row(x0 as int, cy as int, (cx - x0) as nat);
                let ghost requests_before = requests@;
                proof {
                    lemma_coord_keys_contains(requests@, key);
                    if spec_coord_keys(requests@).contains(key) {
                        let i = choose|i: int| 0 <= i < requests@.len() && spec_chunk_key(#[trigger] requests@[i]) == key;
                        lemma_chunk_key_injective(requests@[i], c);
                    }
                    assert(spec_rows(x0 as int, y0 as int, width, rows) + spec_row(x0 as int, cy as int, (cx - x0 + 1) as nat)
                        =~= before.push(c));
                    assert(before.push(c).drop_last() =~= before);
                }
                if !self.loaded.contains_key(&key) && !self.pending.contains(&key) {
                    self.pending.insert(key);
                    requests.push(c);
                    proof {
                        assert(requests@.drop_last() =~= requests_before);
                        assert(self.pending@ =~= pending0.union(spec_coord_keys(requests@)));
                    }
                }
                cx = cx + 1;
            }
            proof {
                assert(spec_rows(x0 as int, y0 as int, width, rows + 1) =~= spec_rows(x0 as int, y0 as int, width, rows)
                    + spec_row(x0 as int, cy as int, (cx - x0) as nat));
            }
            cy = cy + 1;
        }
        requests
    }

    /// Loads the chunks that the generator has finished, in order, and
    /// takes them off the pending set.
    fn accept_chunks(&mut self, finished: Vec<Chunk>)
        requires
            old(self).wf(),
        ensures
            final(self).wf(),
            final(self).seed == old(self).seed,
            final(self).loaded@ == spec_insert_chunks(old(self).loaded@, finished@),
            final(self).pending@ == old(self).pending@.difference(spec_chunk_keys(finished@)),
    {
        let ghost all = finished@;
        let ghost loaded0 = self.loaded@;
        let ghost pending0 = self.pending@;
        let ghost mut j: int = 0;
        let mut rest = finished;
        while rest.len() > 0
            invariant
                0 <= j <= all.len(),
                rest@ == all.skip(j),
                self.wf(),
                self.seed == old(self).seed,
                self.loaded@ == spec_insert_chunks(loaded0, all.take(j)),
                self.pending@ == pending0.difference(spec_chunk_keys(all.take(j))),
            decreases rest@.len(),
        {
            let chunk = rest.remove(0);
            let key = chunk_key(chunk.coord.0, chunk.coord.1);
            self.pending.remove(&key);
            self.loaded.insert(key, chunk);
            proof {
                assert(all.take(j + 1).drop_last() =~= all.take(j));
                assert(all.take(j + 1).last() == all[j]);
                assert(self.pending@ =~= pending0.difference(spec_chunk_keys(all.take(j + 1))));
                assert(rest@ =~= all.skip(j + 1));
                j = j + 1;
            }
        }
        proof {
            assert(all.take(j) =~= all);
        }
    }

    /// Brings the world up to date around the player's chunk `center`:
    /// requests every chunk within `radius` that is neither loaded nor
    /// pending (marking it pending), loads the chunks in `finished` that the
    /// generator has delivered, then unloads every chunk, and forgets every
    /// pending request, further than `radius + 1` chunks away on either axis.
    /// Returns the requests, row by row from the top.
    pub fn stream_around(&mut self, center: (i32, i32), radius: i32, finished: Vec<Chunk>) -> (requests: Vec<(i32, i32)>)
        requires
            old(self).wf(),
            center.0 - radius >= i32::MIN,
            center.0 + radius <= i32::MAX,
            center.1 - radius >= i32::MIN,
            center.1 + radius <= i32::MAX,
            radius < i32::MAX,
        ensures
            final(self).wf(),
            final(self).seed == old(self).seed,
            requests@ == spec_missing(
                spec_square(center, radius as int),
                old(self).loaded@.dom(),
                old(self).pending@,
            ),
            final(self).loaded@ == spec_near_entries(
                spec_insert_chunks(old(self).loaded@, finished@),
                center,
                radius + 1,
            ),
            final(self).pending@ == spec_near_keys(
                old(self).pending@.union(spec_coord_keys(requests@)).difference(spec_chunk_keys(finished@)),
                center,
                radius + 1,
            ),
            forall|c: (i32, i32)| spec_near(c, center, radius as int)
                ==> #[trigger] final(self).is_loaded(c) || final(self).is_pending(c),
            forall|k: u64| #[trigger] final(self).loaded@.contains_key(k)
                ==> spec_near(spec_key_coord(k), center, radius + 1),
            forall|k: u64| #[trigger] final(self).pending@.contains(k)
                ==> spec_near(spec_key_coord(k), center, radius + 1),
            radius >= 0 ==> forall|cx: i32, cy: i32|
                #![trigger spec_chunk_key((cx, cy))]
                center.0 - radius <= cx <= center.0 + radius && center.1 - radius <= cy <= center.1 + radius
                ==> final(self).loaded@.contains_key(spec_chunk_key((cx, cy)))
                    || final(self).pending@.contains(spec_chunk_key((cx, cy))),
            forall|cx: i32, cy: i32|
                #![trigger spec_chunk_key((cx, cy))]
                center.0 - (radius + 1) <= cx <= center.0 + (radius + 1)
                && center.1 - (radius + 1) <= cy <= center.1 + (radius + 1)
                && old(self).loaded@.contains_key(spec_chunk_key((cx, cy)))
                ==> final(self).loaded@.contains_key(spec_chunk_key((cx, cy))),
            forall|k: u64| #[trigger] final(self).loaded@.contains_key(k) ==> {
                let c = spec_key_coord(k);
                &&& center.0 - (radius + 1) <= c.0 <= center.0 + (radius + 1)
                &&& center.1 - (radius + 1) <= c.1 <= center.1 + (radius + 1)
            },
            forall|k: u64| #[trigger] final(self).pending@.contains(k) ==> {
                let c = spec_key_coord(k);
                &&& center.0 - (radius + 1) <= c.0 <= center.0 + (radius + 1)
                &&& center.1 - (radius + 1) <= c.1 <= center.1 + (radius + 1)
            },
            forall|i: int| 0 <= i < requests@.len() ==> {
                let c = #[trigger] requests@[i];
                &&& center.0 - radius <= c.0 <= center.0 + radius
                &&& center.1 - radius <= c.1 <= center.1 + radius
                &&& !old(self).loaded@.contains_key(spec_chunk_key(c))
                &&& !old(self).pending@.contains(spec_chunk_key(c))
            },
            radius >= 0 && old(self).loaded@.dom() == Set::<u64>::empty() && old(self).pending@ == Set::<u64>::empty()
                ==> requests@.len() == (2 * radius + 1) * (2 * radius + 1),
            old(self).disjoint() ==> final(self).disjoint(),
            old(self).all_generated() && (forall|i: int| 0 <= i < finished@.len()
                ==> spec_is_generated(old(self).seed, #[trigger] finished@[i])) ==> final(self).all_generated(),
            (forall|c: (i32, i32)| spec_near(c, center, radius as int)
                ==> #[trigger] old(self).is_loaded(c) || old(self).is_pending(c))
                && (forall|k: u64| #[trigger] old(self).pending@.contains(k) && spec_near(spec_key_coord(k), center, radius + 1)
                ==> spec_chunk_keys(finished@).contains(k)) ==> {
                &&& requests@.len() == 0
                &&& final(self).pending@ == Set::<u64>::empty()
                &&& forall|c: (i32, i32)| spec_near(c, center, radius as int) ==> #[trigger] final(self).is_loaded(c)
            },
    {
        let ghost loaded0 = self.loaded@;
        let ghost pending0 = self.pending@;
        let ghost chunks = finished@;
        let requests = self.request_missing(center, radius);
        let ghost pending1 = self.pending@;
        self.accept_chunks(finished);
        let ghost loaded2 = self.loaded@;
        let ghost pending2 = self.pending@;
        let keep: i64 = radius as i64 + 1;
        retain_near_chunks(&mut self.loaded, center, keep);
        retain_near_keys(&mut self.pending, center, keep);
        proof {
            lemma_insert_chunks_dom(loaded0, chunks);
            assert forall|c: (i32, i32)| spec_near(c, center, radius as int)
                implies #[trigger] self.is_loaded(c) || self.is_pending(c) by {
                let k = spec_chunk_key(c);
                lemma_chunk_key_bijective(c, k);
                lemma_square_contains(center, radius as int, c);
                if !loaded0.dom().contains(k) && !pending0.contains(k) {
                    lemma_missing_keys(spec_square(center, radius as int), loaded0.dom(), pending0, c);
                }
                assert(loaded2.dom().contains(k) || pending2.contains(k));
            }
            assert forall|cx: i32, cy: i32|
                #![trigger spec_chunk_key((cx, cy))]
                radius >= 0 && center.0 - radius <= cx <= center.0 + radius && center.1 - radius <= cy <= center.1 + radius
                implies self.loaded@.contains_key(spec_chunk_key((cx, cy)))
                    || self.pending@.contains(spec_chunk_key((cx, cy))) by {
                assert(spec_near((cx, cy), center, radius as int));
                assert(self.is_loaded((cx, cy)) || self.is_pending((cx, cy)));
            }
            assert forall|cx: i32, cy: i32|
                #![trigger spec_chunk_key((cx, cy))]
                center.0 - (radius + 1) <= cx <= center.0 + (radius + 1)
                && center.1 - (radius + 1) <= cy <= center.1 + (radius + 1)
                && loaded0.contains_key(spec_chunk_key((cx, cy)))
                implies self.loaded@.contains_key(spec_chunk_key((cx, cy))) by {
                lemma_chunk_key_bijective((cx, cy), 0);
                assert(loaded2.contains_key(spec_chunk_key((cx, cy))));
            }
            let square = spec_square(center, radius as int);
            lemma_missing_elements(square, loaded0.dom(), pending0);
            if radius >= 0 {
                lemma_rows_elements(center.0 - radius, center.1 - radius, (2 * radius + 1) as nat, (2 * radius + 1) as nat);
                lemma_rows_len(center.0 - radius, center.1 - radius, (2 * radius + 1) as nat, (2 * radius + 1) as nat);
            }
            assert forall|i: int| 0 <= i < requests@.len() implies {
                let c = #[trigger] requests@[i];
                &&& center.0 - radius <= c.0 <= center.0 + radius
                &&& center.1 - radius <= c.1 <= center.1 + radius
            } by {
                let j = choose|j: int| 0 <= j < square.len() && square[j] == requests@[i];
                assert(spec_near(square[j], center, radius as int));
            }
            if radius >= 0 && loaded0.dom() == Set::<u64>::empty() && pending0 == Set::<u64>::empty() {
                lemma_missing_all(square);
            }
            let keys1 = spec_coord_keys(requests@);
            if forall|k: u64| !(#[trigger] loaded0.contains_key(k) && #[trigger] pending0.contains(k)) {
                assert forall|k: u64| !(#[trigger] self.loaded@.contains_key(k) && #[trigger] self.pending@.contains(k)) by {
                    if self.loaded@.contains_key(k) && self.pending@.contains(k) {
                        assert(loaded2.dom().contains(k));
                        assert(pending2.contains(k));
                        if keys1.contains(k) {
                            lemma_missing_keys_not_stored(spec_square(center, radius as int), loaded0.dom(), pending0, k);
                        }
                    }
                }
            }
            if (forall|k: u64| #[trigger] loaded0.contains_key(k) ==> spec_is_generated(old(self).seed, loaded0[k]))
                && (forall|i: int| 0 <= i < chunks.len() ==> spec_is_generated(old(self).seed, #[trigger] chunks[i])) {
                lemma_insert_chunks_generated(old(self).seed, loaded0, chunks);
                assert forall|k: u64| #[trigger] self.loaded@.contains_key(k)
                    implies spec_is_generated(self.seed, self.loaded@[k]) by {
                    assert(loaded2.contains_key(k));
                }
            }
            if (forall|c: (i32, i32)| spec_near(c, center, radius as int)
                ==> #[trigger] old(self).is_loaded(c) || old(self).is_pending(c))
                && (forall|k: u64| #[trigger] pending0.contains(k) && spec_near(spec_key_coord(k), center, radius + 1)
                ==> spec_chunk_keys(chunks).contains(k)) {
                let square = spec_square(center, radius as int);
                if radius >= 0 {
                    lemma_rows_elements(center.0 - radius, center.1 - radius, (2 * radius + 1) as nat, (2 * radius + 1) as nat);
                    assert forall|i: int| 0 <= i < square.len() implies
                        loaded0.dom().contains(spec_chunk_key(#[trigger] square[i])) || pending0.contains(spec_chunk_key(square[i])) by {
                        assert(spec_near(square[i], center, radius as int));
                        assert(old(self).is_loaded(square[i]) || old(self).is_pending(square[i]));
                    }
                    lemma_missing_empty(square, loaded0.dom(), pending0);
                }
                assert(requests@.len() == 0);
                assert forall|k: u64| !self.pending@.contains(k) by {
                    if self.pending@.contains(k) {
                        assert(pending2.contains(k));
                        assert(!keys1.contains(k));
                    }
                }
                assert(self.pending@ =~= Set::<u64>::empty());
            }
        }
        requests
    }

    /// The world stays small wherever the player goes: when every loaded
    /// chunk and every pending request lies within `keep` chunks of one
    /// centre, as [`World::stream_around`] leaves them with
    /// `keep == radius + 1`, at most `(2 * keep + 1)^2` chunks are loaded and
    /// at most as many are pending.
    pub proof fn lemma_world_stays_bounded(&self, center: (i32, i32), keep: int)
        requires
            keep >= 0,
            forall|k: u64| #[trigger] self.loaded@.contains_key(k) ==> spec_near(spec_key_coord(k), center, keep),
            forall|k: u64| #[trigger] self.pending@.contains(k) ==> spec_near(spec_key_coord(k), center, keep),
        ensures
            self.loaded@.len() <= (2 * keep + 1) * (2 * keep + 1),
            self.pending@.len() <= (2 * keep + 1) * (2 * keep + 1),
    {
        lemma_near_keys_bounded(self.loaded@.dom(), center, keep);
        lemma_near_keys_bounded(self.pending@, center, keep);
    }
}

} // verus!
