//! Deterministic RNG: splitmix64 seeded via FNV-1a over string parts.
//!
//! SAMPLE must be reproducible across machines and versions — "the same
//! seed draws the same world" is part of the query contract. No platform
//! RNG, no hash randomization: pure integer arithmetic. The contracts below
//! state both functions as functions of their inputs alone, which is that
//! promise.

use vstd::prelude::*;
use vstd::arithmetic::div_mod::{
    lemma_mod_equivalence, lemma_mod_multiples_vanish, lemma_mul_mod_noop_left, lemma_small_mod,
};

verus! {

/// 2^64: the modulus of 64-bit wrapping arithmetic.
pub open spec fn two64() -> nat {
    0x1_0000_0000_0000_0000nat
}

/// FNV-1a offset basis.
pub open spec fn fnv_offset() -> u64 {
    0xcbf2_9ce4_8422_2325u64
}

/// FNV-1a prime.
pub open spec fn fnv_prime() -> nat {
    0x0000_0100_0000_01b3nat
}

/// One FNV-1a step: xor the byte in, multiply by the prime (mod 2^64).
pub open spec fn fnv_step(h: u64, b: u8) -> u64 {
    (((h ^ (b as u64)) as nat * fnv_prime()) % two64()) as u64
}

/// FNV-1a over a byte sequence, from hash `h`.
pub open spec fn fnv_bytes(h: u64, bytes: Seq<u8>) -> u64
    decreases bytes.len(),
{
    if bytes.len() == 0 {
        h
    } else {
        fnv_bytes(fnv_step(h, bytes[0]), bytes.drop_first())
    }
}

/// FNV-1a over the UTF-8 bytes of each part, each part followed by the
/// separator byte 0xff (so ["ab","c"] and ["a","bc"] hash differently).
pub open spec fn fnv_parts(h: u64, parts: Seq<Seq<char>>) -> u64
    decreases parts.len(),
{
    if parts.len() == 0 {
        h
    } else {
        fnv_parts(
            fnv_step(fnv_bytes(h, vstd::utf8::encode_utf8(parts[0])), 0xffu8),
            parts.drop_first(),
        )
    }
}

/// splitmix64 increment.
pub open spec fn golden_gamma() -> nat {
    0x9E37_79B9_7F4A_7C15nat
}

/// splitmix64 output mix of a state.
pub open spec fn splitmix_mix(z: u64) -> u64 {
    let z1 = (((z ^ (z >> 30u64)) as nat * 0xBF58_476D_1CE4_E5B9nat) % two64()) as u64;
    let z2 = (((z1 ^ (z1 >> 27u64)) as nat * 0x94D0_49BB_1331_11EBnat) % two64()) as u64;
    z2 ^ (z2 >> 31u64)
}

/// FNV-1a over `bytes`, from hash `h`.
fn fnv_update(h: u64, bytes: &[u8]) -> (r: u64)
    ensures
        r == fnv_bytes(h, bytes@),
{
    let mut h = h;
    let ghost h0 = h;
    let mut j: usize = 0;
    assert(bytes@.subrange(0, bytes@.len() as int) =~= bytes@);
    while j < bytes.len()
        invariant
            j <= bytes@.len(),
            fnv_bytes(h0, bytes@) == fnv_bytes(h, bytes@.subrange(j as int, bytes@.len() as int)),
        decreases bytes@.len() - j,
    {
        assert(bytes@.subrange(j as int, bytes@.len() as int).drop_first() =~= bytes@.subrange(
            j + 1,
            bytes@.len() as int,
        ));
        h = (h ^ (bytes[j] as u64)).wrapping_mul(0x0000_0100_0000_01b3);
        j += 1;
    }
    assert(bytes@.subrange(j as int, bytes@.len() as int) =~= Seq::<u8>::empty());
    h
}

/// Deterministic generator: a splitmix64 state.
pub struct Rng(u64);

impl View for Rng {
    type V = u64;

    closed spec fn view(&self) -> u64 {
        self.0
    }
}

impl Rng {
    /// The generator seeded from string parts: the FNV-1a hash of them.
    pub fn from_parts(parts: &[&str]) -> (r: Rng)
        ensures
            r@ == fnv_parts(fnv_offset(), parts@.map_values(|p: &str| p@)),
    {
        let ghost all = parts@.map_values(|p: &str| p@);
        let mut h: u64 = 0xcbf2_9ce4_8422_2325;
        let mut i: usize = 0;
        assert(all.subrange(0, all.len() as int) =~= all);
        while i < parts.len()
            invariant
                i <= parts@.len(),
                all == parts@.map_values(|p: &str| p@),
                fnv_parts(fnv_offset(), all) == fnv_parts(h, all.subrange(i as int, all.len() as int)),
            decreases parts@.len() - i,
        {
            let ghost h0 = h;
            h = fnv_update(h, parts[i].as_bytes());
            assert(h == fnv_bytes(h0, vstd::utf8::encode_utf8(all[i as int])));
            // Separator so ["ab","c"] != ["a","bc"].
            h = (h ^ 0xff).wrapping_mul(0x0000_0100_0000_01b3);
            assert(all.subrange(i as int, all.len() as int).drop_first() =~= all.subrange(
                i + 1,
                all.len() as int,
            ));
            assert(all.subrange(i as int, all.len() as int)[0] == parts@[i as int]@);
            i += 1;
        }
        assert(all.subrange(i as int, all.len() as int) =~= Seq::<Seq<char>>::empty());
        Rng(h)
    }

    /// Advance the state by the splitmix64 increment and return the mix of
    /// the new state.
    pub fn next_u64(&mut self) -> (x: u64)
        ensures
            final(self)@ == ((old(self)@ as nat + golden_gamma()) % two64()) as u64,
            x == splitmix_mix(final(self)@),
    {
        self.0 = self.0.wrapping_add(0x9E37_79B9_7F4A_7C15);
        let mut z = self.0;
        z = (z ^ (z >> 30)).wrapping_mul(0xBF58_476D_1CE4_E5B9);
        z = (z ^ (z >> 27)).wrapping_mul(0x94D0_49BB_1331_11EB);
        z ^ (z >> 31)
    }
}

// ------------------------------------------------------------ no repeats

/// Multiplying by `c` modulo 2^64 and then by its inverse `cinv`
/// (`c * cinv == 1 + k * 2^64`) gives back what was multiplied.
proof fn lemma_mul_mod_undo(x: u64, c: nat, cinv: nat, k: nat)
    requires
        c * cinv == 1 + k * two64(),
    ensures
        ((x as nat * c) % two64()) * cinv % two64() == x,
{
    let m = two64() as int;
    lemma_mul_mod_noop_left(x as int * c as int, cinv as int, m);
    assert((x as int * c) * cinv == m * (x as int * k) + x) by (nonlinear_arith)
        requires
            c * cinv == 1 + k * m,
    ;
    lemma_mod_multiples_vanish(x as int * k, x as int, m);
    lemma_small_mod(x as nat, m as nat);
}

/// Multiplying by an invertible `c` modulo 2^64 loses nothing.
proof fn lemma_mul_mod_injective(a: u64, b: u64, c: nat, cinv: nat, k: nat)
    requires
        c * cinv == 1 + k * two64(),
        (a as nat * c) % two64() == (b as nat * c) % two64(),
    ensures
        a == b,
{
    lemma_mul_mod_undo(a, c, cinv, k);
    lemma_mul_mod_undo(b, c, cinv, k);
}

proof fn lemma_xorshift30(x: u64, y: u64)
    by (bit_vector)
    requires
        x ^ (x >> 30u64) == y ^ (y >> 30u64),
    ensures
        x == y,
{
}

proof fn lemma_xorshift27(x: u64, y: u64)
    by (bit_vector)
    requires
        x ^ (x >> 27u64) == y ^ (y >> 27u64),
    ensures
        x == y,
{
}

proof fn lemma_xorshift31(x: u64, y: u64)
    by (bit_vector)
    requires
        x ^ (x >> 31u64) == y ^ (y >> 31u64),
    ensures
        x == y,
{
}

/// The splitmix64 output mix is a bijection of the 64-bit integers:
/// distinct states give distinct draws.
pub proof fn law_mix_is_injective(a: u64, b: u64)
    requires
        a != b,
    ensures
        splitmix_mix(a) != splitmix_mix(b),
{
    if splitmix_mix(a) == splitmix_mix(b) {
        let m = two64();
        let a1 = (((a ^ (a >> 30u64)) as nat * 0xBF58_476D_1CE4_E5B9nat) % m) as u64;
        let b1 = (((b ^ (b >> 30u64)) as nat * 0xBF58_476D_1CE4_E5B9nat) % m) as u64;
        let a2 = (((a1 ^ (a1 >> 27u64)) as nat * 0x94D0_49BB_1331_11EBnat) % m) as u64;
        let b2 = (((b1 ^ (b1 >> 27u64)) as nat * 0x94D0_49BB_1331_11EBnat) % m) as u64;
        lemma_xorshift31(a2, b2);
        lemma_mul_mod_injective(
            a1 ^ (a1 >> 27u64),
            b1 ^ (b1 >> 27u64),
            0x94D0_49BB_1331_11EBnat,
            0x3196_42b2_d24d_8ec3nat,
            2077064247507883091nat,
        );
        lemma_xorshift27(a1, b1);
        lemma_mul_mod_injective(
            a ^ (a >> 30u64),
            b ^ (b >> 30u64),
            0xBF58_476D_1CE4_E5B9nat,
            0x96de_1b17_3f11_9089nat,
            8125545580553827436nat,
        );
        lemma_xorshift30(a, b);
    }
}

/// The state after `j` draws from state `s`.
pub open spec fn state_after(s: u64, j: nat) -> u64 {
    ((s as nat + j * golden_gamma()) % two64()) as u64
}

/// One draw advances `state_after(s, j)` to `state_after(s, j + 1)` (the
/// step that `next_u64` takes).
pub proof fn law_draw_steps_the_state(s: u64, j: nat)
    ensures
        ((state_after(s, j) as nat + golden_gamma()) % two64()) as u64 == state_after(s, j + 1),
{
    let m = two64() as int;
    let x = s as int + j * golden_gamma();
    vstd::arithmetic::div_mod::lemma_add_mod_noop(x, golden_gamma() as int, m);
    lemma_small_mod(golden_gamma(), two64());
    let g = golden_gamma() as int;
    assert(x + g == s as int + (j + 1) * g) by (nonlinear_arith)
        requires
            x == s as int + j * g,
    ;
}

/// From any state, the first 2^64 draws are pairwise distinct: the states
/// they come from are (the increment is odd), and the mix is a bijection.
pub proof fn law_draws_do_not_repeat(s: u64, i: nat, j: nat)
    requires
        i < j < two64(),
    ensures
        splitmix_mix(state_after(s, i)) != splitmix_mix(state_after(s, j)),
{
    let m = two64() as int;
    let g = golden_gamma() as int;
    let x = s as int + i * g;
    let y = s as int + j * g;
    if state_after(s, i) == state_after(s, j) {
        lemma_mod_equivalence(y, x, m);
        let d = (j - i) as int;
        assert(y - x == d * g) by (nonlinear_arith)
            requires
                x == s as int + i * g,
                y == s as int + j * g,
                d == j - i,
        ;
        assert((d * g) % m == 0);
        // Multiply by the inverse of the increment.
        let ginv = 0xf1de_83e1_9937_733dint;
        let k = 10771413168148108919int;
        lemma_mul_mod_noop_left(d * g, ginv, m);
        assert((d * g) * ginv == m * (d * k) + d) by (nonlinear_arith)
            requires
                g * ginv == 1 + k * m,
        ;
        lemma_mod_multiples_vanish(d * k, d, m);
        lemma_small_mod(d as nat, m as nat);
        assert(0 * ginv % m == 0);
    } else {
        law_mix_is_injective(state_after(s, i), state_after(s, j));
    }
}

} // verus!
