//! Small, self-contained pseudo-random number generator.
//!
//! The generator is `xoshiro256**` seeded through `SplitMix64`, both of which
//! are fully specified integer algorithms, so a dataset generated from a seed
//! is reproducible on every platform.

use vstd::prelude::*;

verus! {

/// Left rotation of a 64-bit word by `k` bits, `0 < k < 64`.
pub open spec fn spec_rotl(x: u64, k: u64) -> u64
    recommends
        0 < k < 64,
{
    (x << k) | (x >> (64 - k) as u64)
}

/// `SplitMix64` output for a given state word.
pub open spec fn spec_splitmix64(state: u64) -> u64 {
    let z0 = state.wrapping_add(0x9E37_79B9_7F4A_7C15u64);
    let z1 = (z0 ^ (z0 >> 30u64)).wrapping_mul(0xBF58_476D_1CE4_E5B9u64);
    let z2 = (z1 ^ (z1 >> 27u64)).wrapping_mul(0x94D0_49BB_1331_11EBu64);
    z2 ^ (z2 >> 31u64)
}

/// The four state words derived from a single seed.
pub open spec fn spec_seed_state(seed: u64) -> Seq<u64> {
    let a = spec_splitmix64(seed);
    let b = spec_splitmix64(a);
    let c = spec_splitmix64(b);
    let d = spec_splitmix64(c);
    seq![a, b, c, d]
}

/// The seed of the independent stream `index` of a dataset seeded with
/// `dataset_seed`.
pub open spec fn spec_item_seed(dataset_seed: u64, index: u64) -> u64 {
    spec_splitmix64(dataset_seed) ^ spec_splitmix64(index.wrapping_mul(0xD1B5_4A32_D192_ED03u64))
}

/// The output produced from state `s` by one step of `xoshiro256**`.
pub open spec fn spec_output(s: Seq<u64>) -> u64
    recommends
        s.len() == 4,
{
    spec_rotl(s[1].wrapping_mul(5u64), 7).wrapping_mul(9u64)
}

/// The state that follows `s` after one step of `xoshiro256**`.
pub open spec fn spec_step(s: Seq<u64>) -> Seq<u64>
    recommends
        s.len() == 4,
{
    let t = s[1] << 17u64;
    let s2 = s[2] ^ s[0];
    let s3 = s[3] ^ s[1];
    let s1 = s[1] ^ s2;
    let s0 = s[0] ^ s3;
    seq![s0, s1, s2 ^ t, spec_rotl(s3, 45)]
}

/// The state after `n` steps from `s`.
pub open spec fn spec_advance(s: Seq<u64>, n: nat) -> Seq<u64>
    decreases n,
{
    if n == 0 {
        s
    } else {
        spec_step(spec_advance(s, (n - 1) as nat))
    }
}

/// The `n`-th output (counting from zero) of the stream that starts in `s`.
pub open spec fn spec_nth_output(s: Seq<u64>, n: nat) -> u64 {
    spec_output(spec_advance(s, n))
}

/// The offset that the multiply-shift reduction gives for the raw output `x`
/// and a span of `span` values.
pub open spec fn spec_scaled_offset(x: u64, span: int) -> int {
    ((x >> 32u64) as int * span) / 0x1_0000_0000
}

/// Rotation by a constant written with shifts; the two halves never overlap.
fn rotl(x: u64, k: u64) -> (r: u64)
    requires
        0 < k < 64,
    ensures
        r == spec_rotl(x, k),
{
    (x << k) | (x >> (64 - k))
}

/// `SplitMix64` step: turn an arbitrary `u64` into a well-mixed one.
pub fn splitmix64(state: u64) -> (r: u64)
    ensures
        r == spec_splitmix64(state),
{
    let mut z = state.wrapping_add(0x9E37_79B9_7F4A_7C15);
    z = (z ^ (z >> 30)).wrapping_mul(0xBF58_476D_1CE4_E5B9);
    z = (z ^ (z >> 27)).wrapping_mul(0x94D0_49BB_1331_11EB);
    z ^ (z >> 31)
}

/// A `xoshiro256**` pseudo-random generator.
#[derive(Debug, Clone)]
pub struct Rng {
    s: [u64; 4],
}

impl View for Rng {
    type V = Seq<u64>;

    closed spec fn view(&self) -> Seq<u64> {
        self.s@
    }
}

impl Rng {
    /// Create a generator from a single 64-bit seed.
    ///
    /// The four words of internal state are derived with `SplitMix64` so any
    /// seed (including `0`) yields a valid, well-mixed state.
    pub fn from_seed(seed: u64) -> (r: Self)
        ensures
            r@ == spec_seed_state(seed),
    {
        let a = splitmix64(seed);
        let b = splitmix64(a);
        let c = splitmix64(b);
        let d = splitmix64(c);
        let r = Rng { s: [a, b, c, d] };
        assert(r@ =~= spec_seed_state(seed));
        r
    }

    /// Create the independent per-item stream `index` of a dataset seeded
    /// with `dataset_seed`.
    ///
    /// Every item gets its own stream, so each item is a pure function of
    /// `(dataset_seed, index)`.
    pub fn for_item(dataset_seed: u64, index: u64) -> (r: Self)
        ensures
            r@ == spec_seed_state(spec_item_seed(dataset_seed, index)),
    {
        Self::from_seed(splitmix64(dataset_seed) ^ splitmix64(index.wrapping_mul(0xD1B5_4A32_D192_ED03)))
    }

    /// Next raw 64-bit output.
    pub fn next_u64(&mut self) -> (r: u64)
        ensures
            r == spec_output(old(self)@),
            final(self)@ == spec_step(old(self)@),
    {
        let s0 = self.s[0];
        let s1 = self.s[1];
        let s2 = self.s[2];
        let s3 = self.s[3];
        let result = rotl(s1.wrapping_mul(5), 7).wrapping_mul(9);
        let t = s1 << 17;
        let n2 = s2 ^ s0;
        let n3 = s3 ^ s1;
        let n1 = s1 ^ n2;
        let n0 = s0 ^ n3;
        self.s = [n0, n1, n2 ^ t, rotl(n3, 45)];
        assert(self@ =~= spec_step(old(self)@));
        result
    }

    /// Uniform integer in the **inclusive** range `[lo, hi]`.
    pub fn range_u32(&mut self, lo: u32, hi: u32) -> (r: u32)
        requires
            lo <= hi,
        ensures
            r == lo + spec_scaled_offset(spec_output(old(self)@), hi - lo + 1),
            lo <= r <= hi,
            final(self)@ == spec_step(old(self)@),
    {
        let span: u64 = (hi - lo) as u64 + 1;
        let x = self.next_u64();
        let high: u64 = x >> 32;
        proof {
            assert(high < 0x1_0000_0000) by (bit_vector)
                requires
                    high == x >> 32u64,
            ;
            assert(high * span <= 0xFFFF_FFFFu64 * 0x1_0000_0000u64) by (nonlinear_arith)
                requires
                    high < 0x1_0000_0000,
                    span <= 0x1_0000_0000,
            ;
            assert((high * span) / 0x1_0000_0000 < span) by (nonlinear_arith)
                requires
                    high < 0x1_0000_0000,
                    span >= 1,
            ;
        }
        let prod: u64 = high * span;
        let offset: u64 = prod >> 32;
        proof {
            assert(offset == prod / 0x1_0000_0000) by (bit_vector)
                requires
                    offset == prod >> 32u64,
            ;
        }
        lo + offset as u32
    }

    /// Uniform integer in the inclusive range `[lo, hi]`, as `usize`.
    pub fn range_usize(&mut self, lo: usize, hi: usize) -> (r: usize)
        requires
            lo <= hi,
            hi <= u32::MAX,
        ensures
            r == lo + spec_scaled_offset(spec_output(old(self)@), hi - lo + 1),
            lo <= r <= hi,
            final(self)@ == spec_step(old(self)@),
    {
        self.range_u32(lo as u32, hi as u32) as usize
    }

    /// Pick a uniformly random element of a non-empty slice.
    pub fn pick<'a, T>(&mut self, items: &'a [T]) -> (r: &'a T)
        requires
            items@.len() > 0,
            items@.len() - 1 <= u32::MAX,
        ensures
            *r == items@[spec_scaled_offset(spec_output(old(self)@), items@.len() as int)],
            final(self)@ == spec_step(old(self)@),
    {
        let idx = self.range_usize(0, items.len() - 1);
        &items[idx]
    }
}

/// Multiplying by `c` modulo 2^64 is undone by multiplying by `c_inv` when
/// `c · c_inv ≡ 1 (mod 2^64)`.
proof fn lemma_mul_mod_undone(x: u64, c: u64, c_inv: u64)
    requires
        (c as nat * c_inv as nat) % 0x1_0000_0000_0000_0000nat == 1,
    ensures
        (((x as nat * c as nat) % 0x1_0000_0000_0000_0000nat) * c_inv as nat)
            % 0x1_0000_0000_0000_0000nat == x as nat,
{
    let m: int = 0x1_0000_0000_0000_0000;
    let a: int = x as int * c as int;
    vstd::arithmetic::div_mod::lemma_mul_mod_noop_left(a, c_inv as int, m);
    vstd::arithmetic::mul::lemma_mul_is_associative(x as int, c as int, c_inv as int);
    vstd::arithmetic::div_mod::lemma_mul_mod_noop_right(x as int, c as int * c_inv as int, m);
    vstd::arithmetic::div_mod::lemma_small_mod(x as nat, m as nat);
}

/// Spreading the bits of a word down by `k` places and folding them in
/// with `^` loses nothing.
proof fn lemma_xor_shift_injective(a: u64, b: u64)
    ensures
        (a ^ (a >> 30u64)) == (b ^ (b >> 30u64)) ==> a == b,
        (a ^ (a >> 27u64)) == (b ^ (b >> 27u64)) ==> a == b,
        (a ^ (a >> 31u64)) == (b ^ (b >> 31u64)) ==> a == b,
{
    assert((a ^ (a >> 30u64)) == (b ^ (b >> 30u64)) ==> a == b) by (bit_vector);
    assert((a ^ (a >> 27u64)) == (b ^ (b >> 27u64)) ==> a == b) by (bit_vector);
    assert((a ^ (a >> 31u64)) == (b ^ (b >> 31u64)) ==> a == b) by (bit_vector);
}

/// `SplitMix64` mixes without collisions: distinct states give distinct
/// outputs, so distinct seeds start distinct streams in their first word.
pub proof fn lemma_splitmix64_injective(a: u64, b: u64)
    ensures
        spec_splitmix64(a) == spec_splitmix64(b) ==> a == b,
{
    if spec_splitmix64(a) == spec_splitmix64(b) {
        let a0 = a.wrapping_add(0x9E37_79B9_7F4A_7C15u64);
        let b0 = b.wrapping_add(0x9E37_79B9_7F4A_7C15u64);
        let a1 = (a0 ^ (a0 >> 30u64)).wrapping_mul(0xBF58_476D_1CE4_E5B9u64);
        let b1 = (b0 ^ (b0 >> 30u64)).wrapping_mul(0xBF58_476D_1CE4_E5B9u64);
        let a2 = (a1 ^ (a1 >> 27u64)).wrapping_mul(0x94D0_49BB_1331_11EBu64);
        let b2 = (b1 ^ (b1 >> 27u64)).wrapping_mul(0x94D0_49BB_1331_11EBu64);
        lemma_xor_shift_injective(a2, b2);
        assert(a2 == b2);
        let m: nat = 0x1_0000_0000_0000_0000nat;
        assert((0xBF58_476D_1CE4_E5B9nat * 0x96DE_1B17_3F11_9089nat) % m == 1);
        assert((0x94D0_49BB_1331_11EBnat * 0x3196_42B2_D24D_8EC3nat) % m == 1);
        lemma_mul_mod_undone(a1 ^ (a1 >> 27u64), 0x94D0_49BB_1331_11EBu64, 0x3196_42B2_D24D_8EC3u64);
        lemma_mul_mod_undone(b1 ^ (b1 >> 27u64), 0x94D0_49BB_1331_11EBu64, 0x3196_42B2_D24D_8EC3u64);
        lemma_xor_shift_injective(a1, b1);
        assert(a1 == b1);
        lemma_mul_mod_undone(a0 ^ (a0 >> 30u64), 0xBF58_476D_1CE4_E5B9u64, 0x96DE_1B17_3F11_9089u64);
        lemma_mul_mod_undone(b0 ^ (b0 >> 30u64), 0xBF58_476D_1CE4_E5B9u64, 0x96DE_1B17_3F11_9089u64);
        lemma_xor_shift_injective(a0, b0);
        assert(a0 == b0);
    }
}

/// The state that `xoshiro256**` steps into `s`, recovered word by word:
/// rotating the last word right by 45 gives back `s3 ^ s1`, and the
/// `s1 ^ (s1 << 17)` carried by the middle words is undone by folding in
/// its shifts by 17, 34 and 51.
pub open spec fn spec_unstep(s: Seq<u64>) -> Seq<u64>
    recommends
        s.len() == 4,
{
    let x = (s[3] >> 45u64) | (s[3] << 19u64);
    let y = s[1] ^ s[2];
    let w1 = y ^ (y << 17u64) ^ (y << 34u64) ^ (y << 51u64);
    let w0 = s[0] ^ x;
    seq![w0, w1, s[1] ^ w1 ^ w0, x ^ w1]
}

/// One `xoshiro256**` step is a bijection of the state, undone by
/// [`spec_unstep`]: no two states step into the same one, and every state
/// has a predecessor.
pub proof fn lemma_step_undone(s: Seq<u64>)
    requires
        s.len() == 4,
    ensures
        spec_unstep(spec_step(s)) == s,
        spec_step(spec_unstep(s)) == s,
{
    let (a, b, c, d) = (s[0], s[1], s[2], s[3]);
    let n = spec_step(s);
    let u = spec_unstep(n);
    let (n0, n1, n2, n3) = (n[0], n[1], n[2], n[3]);
    let (u0, u1, u2, u3) = (u[0], u[1], u[2], u[3]);
    assert(u0 == a && u1 == b && u2 == c && u3 == d) by (bit_vector)
        requires
            u0 == n0 ^ ((n3 >> 45u64) | (n3 << 19u64)),
            u1 == (n1 ^ n2) ^ ((n1 ^ n2) << 17u64) ^ ((n1 ^ n2) << 34u64) ^ ((n1 ^ n2) << 51u64),
            u2 == n1 ^ u1 ^ u0,
            u3 == ((n3 >> 45u64) | (n3 << 19u64)) ^ u1,
            n0 == a ^ (d ^ b),
            n1 == b ^ (c ^ a),
            n2 == (c ^ a) ^ (b << 17u64),
            n3 == ((d ^ b) << 45u64) | ((d ^ b) >> 19u64),
    ;
    assert(u =~= s);
    let v = spec_unstep(s);
    let m = spec_step(v);
    let (v0, v1, v2, v3) = (v[0], v[1], v[2], v[3]);
    let (m0, m1, m2, m3) = (m[0], m[1], m[2], m[3]);
    assert(m0 == a && m1 == b && m2 == c && m3 == d) by (bit_vector)
        requires
            v0 == a ^ ((d >> 45u64) | (d << 19u64)),
            v1 == (b ^ c) ^ ((b ^ c) << 17u64) ^ ((b ^ c) << 34u64) ^ ((b ^ c) << 51u64),
            v2 == b ^ v1 ^ v0,
            v3 == ((d >> 45u64) | (d << 19u64)) ^ v1,
            m0 == v0 ^ (v3 ^ v1),
            m1 == v1 ^ (v2 ^ v0),
            m2 == (v2 ^ v0) ^ (v1 << 17u64),
            m3 == ((v3 ^ v1) << 45u64) | ((v3 ^ v1) >> 19u64),
    ;
    assert(m =~= s);
}

/// The last state word after a step is the `xor` of the old last and
/// second words rotated left by 45 places, as `u64::rotate_left` does:
/// bit `i` of it is bit `(i + 19) % 64` of `s3 ^ s1`.
pub proof fn lemma_step_fourth_word(s: Seq<u64>)
    requires
        s.len() == 4,
    ensures
        forall|i: u64|
            i < 64 ==> (#[trigger] (spec_step(s)[3] >> i) & 1u64) == ((s[3] ^ s[1]) >> ((i + 19)
                % 64)) & 1u64,
{
    let x = s[3] ^ s[1];
    let n3 = spec_step(s)[3];
    assert(n3 == (x << 45u64) | (x >> 19u64));
    assert(forall|i: u64| i < 64 ==> ((n3 >> i) & 1u64) == (x >> ((i + 19) % 64)) & 1u64)
        by (bit_vector)
        requires
            n3 == (x << 45u64) | (x >> 19u64),
    ;
}

} // verus!
