//! Seeding: the splitmix64 finalizer and generator, FNV-1a hashing of seed
//! strings, and the per-chunk seed derived from the world seed.
use vstd::prelude::*;

verus! {

use vstd::string::StringSliceAdditionalSpecFns;

/// Increment of the splitmix64 generator (the 64-bit golden ratio).
pub const GOLDEN_GAMMA: u64 = 0x9E3779B97F4A7C15;

/// Multiplier applied to the y coordinate when deriving a chunk seed.
pub const CHUNK_Y_MULTIPLIER: u64 = 0xC2B2AE3D27D4EB4F;

/// FNV-1a 64-bit offset basis.
pub const FNV_OFFSET_BASIS: u64 = 0xcbf29ce484222325;

/// FNV-1a 64-bit prime.
pub const FNV_PRIME: u64 = 0x100000001b3;

/// Multiplication modulo 2^64.
pub open spec fn wrap_mul(a: u64, b: u64) -> u64 {
    ((a as nat * b as nat) % 0x1_0000_0000_0000_0000) as u64
}

/// Addition modulo 2^64.
pub open spec fn wrap_add(a: u64, b: u64) -> u64 {
    ((a as nat + b as nat) % 0x1_0000_0000_0000_0000) as u64
}

/// The splitmix64 finalizer.
#[verifier::opaque]
pub open spec fn spec_mix(x: u64) -> u64 {
    let a = wrap_mul(x ^ (x >> 30u64), 0xBF58476D1CE4E5B9);
    let b = wrap_mul(a ^ (a >> 27u64), 0x94D049BB133111EB);
    b ^ (b >> 31u64)
}

/// splitmix64 finalizer: scrambles a `u64` thoroughly.
pub fn mix(x: u64) -> (r: u64)
    ensures
        r == spec_mix(x),
{
    reveal(spec_mix);
    let a = (x ^ (x >> 30)).wrapping_mul(0xBF58476D1CE4E5B9);
    let b = (a ^ (a >> 27)).wrapping_mul(0x94D049BB133111EB);
    b ^ (b >> 31)
}


/// State after one step of the generator.
#[verifier::opaque]
pub open spec fn spec_step(state: u64) -> u64 {
    wrap_add(state, GOLDEN_GAMMA)
}

/// State of a generator after `k` steps from `state`.
pub open spec fn spec_advance(state: u64, k: nat) -> u64
    decreases k,
{
    if k == 0 {
        state
    } else {
        spec_step(spec_advance(state, (k - 1) as nat))
    }
}

/// The 24 high bits of a 64-bit draw: the numerator of a fraction of 2^24.
pub open spec fn unit_bits(draw: u64) -> u32 {
    (draw >> 40u64) as u32
}

/// A minimal deterministic PRNG (splitmix64).
pub struct SeedRng {
    pub state: u64,
}

impl SeedRng {
    pub fn new(seed: u64) -> (rng: SeedRng)
        ensures
            rng.state == seed,
    {
        SeedRng { state: seed }
    }

    /// Advances the state by the golden gamma and returns its finalized value.
    pub fn next_u64(&mut self) -> (r: u64)
        ensures
            final(self).state == spec_step(old(self).state),
            final(self).state as int == (old(self).state as int + 0x9E3779B97F4A7C15) % 0x1_0000_0000_0000_0000,
            r == spec_mix(final(self).state),
    {
        reveal(spec_step);
        self.state = self.state.wrapping_add(GOLDEN_GAMMA);
        mix(self.state)
    }

    /// The 24 high bits of the next draw: the numerator of a float in
    /// [0.0, 1.0) whose denominator is 2^24.
    pub fn next_unit_bits(&mut self) -> (r: u32)
        ensures
            final(self).state == spec_step(old(self).state),
            r == unit_bits(spec_mix(final(self).state)),
            r < 0x100_0000,
    {
        let draw = self.next_u64();
        assert((draw >> 40u64) < 0x100_0000u64) by (bit_vector);
        (draw >> 40) as u32
    }

    /// An integer in [lo, hi).
    pub fn range_i32(&mut self, lo: i32, hi: i32) -> (r: i32)
        requires
            lo < hi,
        ensures
            final(self).state == spec_step(old(self).state),
            r == lo + spec_mix(final(self).state) % ((hi - lo) as u64),
            lo <= r < hi,
    {
        let span = (hi as i64 - lo as i64) as u64;
        let offset = self.next_u64() % span;
        (lo as i64 + offset as i64) as i32
    }
}

/// FNV-1a over a byte sequence, continued from the hash `start`.
pub open spec fn spec_fnv1a_from(start: u64, bytes: Seq<u8>) -> u64
    decreases bytes.len(),
{
    if bytes.len() == 0 {
        start
    } else {
        wrap_mul(spec_fnv1a_from(start, bytes.drop_last()) ^ (bytes.last() as u64), FNV_PRIME)
    }
}

/// FNV-1a over a byte sequence.
pub open spec fn spec_fnv1a(bytes: Seq<u8>) -> u64 {
    spec_fnv1a_from(FNV_OFFSET_BASIS, bytes)
}

/// Hashing `a` then `b` from `start` is hashing `b` from the hash of `a`.
pub proof fn lemma_fnv1a_concat(start: u64, a: Seq<u8>, b: Seq<u8>)
    ensures
        spec_fnv1a_from(start, a + b) == spec_fnv1a_from(spec_fnv1a_from(start, a), b),
    decreases b.len(),
{
    if b.len() > 0 {
        lemma_fnv1a_concat(start, a, b.drop_last());
        assert((a + b).drop_last() =~= a + b.drop_last());
    } else {
        assert(a + b =~= a);
    }
}

/// The UTF-8 encoding of two strings one after the other is the encoding of
/// the first followed by that of the second.
pub proof fn lemma_encode_utf8_concat(a: Seq<char>, b: Seq<char>)
    ensures
        vstd::utf8::encode_utf8(a + b) == vstd::utf8::encode_utf8(a) + vstd::utf8::encode_utf8(b),
    decreases a.len(),
{
    if a.len() == 0 {
        assert(a + b =~= b);
        assert(vstd::utf8::encode_utf8(a) + vstd::utf8::encode_utf8(b) =~= vstd::utf8::encode_utf8(b));
    } else {
        lemma_encode_utf8_concat(a.drop_first(), b);
        assert((a + b).drop_first() =~= a.drop_first() + b);
        assert((a + b)[0] == a[0]);
        let e = vstd::utf8::encode_scalar(a[0] as u32);
        assert(e + (vstd::utf8::encode_utf8(a.drop_first()) + vstd::utf8::encode_utf8(b))
            =~= (e + vstd::utf8::encode_utf8(a.drop_first())) + vstd::utf8::encode_utf8(b));
    }
}

/// The hash of a seed string extended by a second string is FNV-1a over the
/// second string's bytes, continued from the hash of the first.
pub proof fn lemma_hash_seed_string_extend(s: &str, t: &str, st: &str)
    requires
        st@ == s@ + t@,
    ensures
        spec_fnv1a(st.spec_bytes()) == spec_fnv1a_from(spec_fnv1a(s.spec_bytes()), t.spec_bytes()),
{
    lemma_encode_utf8_concat(s@, t@);
    lemma_fnv1a_concat(FNV_OFFSET_BASIS, s.spec_bytes(), t.spec_bytes());
}

/// FNV-1a hash of the UTF-8 bytes of a seed string.
pub fn hash_seed_string(s: &str) -> (h: u64)
    ensures
        h == spec_fnv1a(s.spec_bytes()),
        s.spec_bytes().len() == 0 ==> h == FNV_OFFSET_BASIS,
        s.spec_bytes().len() == 1 ==> h == wrap_mul(FNV_OFFSET_BASIS ^ (s.spec_bytes()[0] as u64), FNV_PRIME),
{
    let bytes = s.as_bytes();
    let mut hash: u64 = FNV_OFFSET_BASIS;
    let n = bytes.len();
    for i in 0..n
        invariant
            n == bytes@.len(),
            bytes@ == s.spec_bytes(),
            hash == spec_fnv1a(bytes@.take(i as int)),
    {
        assert(bytes@.take(i + 1).drop_last() == bytes@.take(i as int));
        hash = hash ^ (bytes[i] as u64);
        hash = hash.wrapping_mul(FNV_PRIME);
    }
    assert(bytes@.take(n as int) == bytes@);
    proof {
        if n == 1 {
            assert(bytes@.drop_last() =~= Seq::<u8>::empty());
            assert(spec_fnv1a_from(FNV_OFFSET_BASIS, bytes@.drop_last()) == FNV_OFFSET_BASIS);
            assert(bytes@.last() == bytes@[0]);
            assert(hash == spec_fnv1a_from(FNV_OFFSET_BASIS, bytes@));
        }
    }
    hash
}

/// Seed of chunk `(cx, cy)` in the world seeded with `world_seed`.
pub open spec fn spec_chunk_seed(world_seed: u64, cx: i32, cy: i32) -> u64 {
    spec_mix(world_seed ^ wrap_mul(cx as u64, GOLDEN_GAMMA) ^ wrap_mul(cy as u64, CHUNK_Y_MULTIPLIER))
}

pub fn chunk_seed(world_seed: u64, cx: i32, cy: i32) -> (r: u64)
    ensures
        r == spec_chunk_seed(world_seed, cx, cy),
        r == spec_mix(world_seed ^ wrap_mul(cx as u64, GOLDEN_GAMMA) ^ wrap_mul(cy as u64, CHUNK_Y_MULTIPLIER)),
{
    let a = world_seed;
    let b = (cx as u64).wrapping_mul(GOLDEN_GAMMA);
    let c = (cy as u64).wrapping_mul(CHUNK_Y_MULTIPLIER);
    mix(a ^ b ^ c)
}

/// The generator is counter based: after `k` draws from `seed`, its state is
/// `seed + k * GOLDEN_GAMMA` modulo 2^64, so the `k`-th value it yields is
/// `mix(seed + k * GOLDEN_GAMMA)` and depends on nothing but `seed` and `k`.
pub proof fn lemma_stream_is_counter_based(seed: u64, k: nat)
    ensures
        spec_advance(seed, k) == ((seed as nat + k * (GOLDEN_GAMMA as nat)) % 0x1_0000_0000_0000_0000) as u64,
    decreases k,
{
    reveal(spec_step);
    if k > 0 {
        lemma_stream_is_counter_based(seed, (k - 1) as nat);
        let m: int = 0x1_0000_0000_0000_0000;
        let prev: int = seed as int + (k - 1) * (GOLDEN_GAMMA as int);
        vstd::arithmetic::div_mod::lemma_add_mod_noop(prev, GOLDEN_GAMMA as int, m);
        vstd::arithmetic::div_mod::lemma_mod_twice(GOLDEN_GAMMA as int, m);
        assert(prev + GOLDEN_GAMMA == seed as int + k * (GOLDEN_GAMMA as int)) by (nonlinear_arith)
            requires prev == seed as int + (k - 1) * (GOLDEN_GAMMA as int);
    }
}


/// Multiplying by `c` modulo 2^64 is undone by multiplying by `c_inv`
/// when `c * c_inv` is 1 modulo 2^64.
proof fn lemma_wrap_mul_undo(a: u64, c: u64, c_inv: u64)
    requires
        (c as int * c_inv as int) % 0x1_0000_0000_0000_0000 == 1,
    ensures
        (wrap_mul(a, c) as int * c_inv as int) % 0x1_0000_0000_0000_0000 == a,
{
    let m: int = 0x1_0000_0000_0000_0000;
    let ac: int = a as int * c as int;
    vstd::arithmetic::div_mod::lemma_mul_mod_noop_left(ac, c_inv as int, m);
    vstd::arithmetic::mul::lemma_mul_is_associative(a as int, c as int, c_inv as int);
    vstd::arithmetic::div_mod::lemma_mul_mod_noop_right(a as int, c as int * c_inv as int, m);
    vstd::arithmetic::div_mod::lemma_small_mod(a as nat, m as nat);
}

/// Multiplication modulo 2^64 by an invertible constant is injective.
proof fn lemma_wrap_mul_cancel(a: u64, b: u64, c: u64, c_inv: u64)
    requires
        (c as int * c_inv as int) % 0x1_0000_0000_0000_0000 == 1,
        wrap_mul(a, c) == wrap_mul(b, c),
    ensures
        a == b,
{
    lemma_wrap_mul_undo(a, c, c_inv);
    lemma_wrap_mul_undo(b, c, c_inv);
}

/// Multiplication modulo 2^64 by the golden gamma is injective.
pub proof fn lemma_golden_mul_injective(a: u64, b: u64)
    ensures
        wrap_mul(a, GOLDEN_GAMMA) == wrap_mul(b, GOLDEN_GAMMA) ==> a == b,
{
    if wrap_mul(a, GOLDEN_GAMMA) == wrap_mul(b, GOLDEN_GAMMA) {
        lemma_wrap_mul_cancel(a, b, GOLDEN_GAMMA, 0xf1de83e19937733d);
    }
}

/// The finalizer is a bijection: distinct inputs give distinct outputs.
pub proof fn lemma_mix_injective(x: u64, y: u64)
    ensures
        spec_mix(x) == spec_mix(y) ==> x == y,
{
    reveal(spec_mix);
    if spec_mix(x) == spec_mix(y) {
        let ax = wrap_mul(x ^ (x >> 30u64), 0xBF58476D1CE4E5B9);
        let ay = wrap_mul(y ^ (y >> 30u64), 0xBF58476D1CE4E5B9);
        let bx = wrap_mul(ax ^ (ax >> 27u64), 0x94D049BB133111EB);
        let by = wrap_mul(ay ^ (ay >> 27u64), 0x94D049BB133111EB);
        assert(bx ^ (bx >> 31u64) == by ^ (by >> 31u64) ==> bx == by) by (bit_vector);
        lemma_wrap_mul_cancel(ax ^ (ax >> 27u64), ay ^ (ay >> 27u64), 0x94D049BB133111EB, 0x319642b2d24d8ec3);
        assert(ax ^ (ax >> 27u64) == ay ^ (ay >> 27u64) ==> ax == ay) by (bit_vector);
        lemma_wrap_mul_cancel(x ^ (x >> 30u64), y ^ (y >> 30u64), 0xBF58476D1CE4E5B9, 0x96de1b173f119089);
        assert(x ^ (x >> 30u64) == y ^ (y >> 30u64) ==> x == y) by (bit_vector);
    }
}


/// Each step of FNV-1a XORs the raw next byte into the hash so far and
/// multiplies by the FNV prime modulo 2^64.
pub proof fn lemma_fnv1a_step(start: u64, bytes: Seq<u8>, b: u8)
    ensures
        spec_fnv1a_from(start, bytes.push(b)) == ((((spec_fnv1a_from(start, bytes) ^ (b as u64)) as nat)
            * (FNV_PRIME as nat)) % 0x1_0000_0000_0000_0000) as u64,
        spec_fnv1a_from(start, Seq::<u8>::empty()) == start,
{
    assert(bytes.push(b).drop_last() =~= bytes);
}

/// Strings of one byte hash apart whenever their bytes differ.
pub proof fn lemma_fnv1a_one_byte_distinct(b1: u8, b2: u8)
    ensures
        spec_fnv1a(seq![b1]) == spec_fnv1a(seq![b2]) ==> b1 == b2,
{
    lemma_fnv1a_step(FNV_OFFSET_BASIS, Seq::<u8>::empty(), b1);
    lemma_fnv1a_step(FNV_OFFSET_BASIS, Seq::<u8>::empty(), b2);
    assert(Seq::<u8>::empty().push(b1) =~= seq![b1]);
    assert(Seq::<u8>::empty().push(b2) =~= seq![b2]);
    let x1 = FNV_OFFSET_BASIS ^ (b1 as u64);
    let x2 = FNV_OFFSET_BASIS ^ (b2 as u64);
    if spec_fnv1a(seq![b1]) == spec_fnv1a(seq![b2]) {
        lemma_wrap_mul_cancel(x1, x2, FNV_PRIME, 0xce965057aff6957b);
        assert(x1 == x2 ==> b1 == b2) by (bit_vector)
            requires
                x1 == 0xcbf29ce484222325u64 ^ (b1 as u64),
                x2 == 0xcbf29ce484222325u64 ^ (b2 as u64),
        ;
    }
}

/// Within a row, distinct columns give distinct chunk seeds, and within a
/// column, distinct rows do: the world never repeats along an axis.
pub proof fn lemma_chunk_seed_injective(world_seed: u64, cx1: i32, cx2: i32, cy1: i32, cy2: i32)
    ensures
        spec_chunk_seed(world_seed, cx1, cy1) == spec_chunk_seed(world_seed, cx2, cy1) ==> cx1 == cx2,
        spec_chunk_seed(world_seed, cx1, cy1) == spec_chunk_seed(world_seed, cx1, cy2) ==> cy1 == cy2,
{
    let a1 = wrap_mul(cx1 as u64, GOLDEN_GAMMA);
    let a2 = wrap_mul(cx2 as u64, GOLDEN_GAMMA);
    let c1 = wrap_mul(cy1 as u64, CHUNK_Y_MULTIPLIER);
    let c2 = wrap_mul(cy2 as u64, CHUNK_Y_MULTIPLIER);
    if spec_chunk_seed(world_seed, cx1, cy1) == spec_chunk_seed(world_seed, cx2, cy1) {
        lemma_mix_injective(world_seed ^ a1 ^ c1, world_seed ^ a2 ^ c1);
        assert(world_seed ^ a1 ^ c1 == world_seed ^ a2 ^ c1 ==> a1 == a2) by (bit_vector);
        lemma_golden_mul_injective(cx1 as u64, cx2 as u64);
        assert(cx1 as u64 == cx2 as u64 ==> cx1 == cx2) by (bit_vector);
    }
    if spec_chunk_seed(world_seed, cx1, cy1) == spec_chunk_seed(world_seed, cx1, cy2) {
        lemma_mix_injective(world_seed ^ a1 ^ c1, world_seed ^ a1 ^ c2);
        assert(world_seed ^ a1 ^ c1 == world_seed ^ a1 ^ c2 ==> c1 == c2) by (bit_vector);
        lemma_wrap_mul_cancel(cy1 as u64, cy2 as u64, CHUNK_Y_MULTIPLIER, 0x0ba79078168d4baf);
        assert(cy1 as u64 == cy2 as u64 ==> cy1 == cy2) by (bit_vector);
    }
}

} // verus!
