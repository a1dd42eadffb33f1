//! The MiMC7 hash over the BN254 scalar field: derivation of the round
//! constants from a seed, the single-block compression function, the
//! chained multi-element hash, and a byte-buffer adapter.

use vstd::prelude::*;
use vstd::arithmetic::power::{pow, lemma_pow1, lemma_pow_adds, lemma_pow_increases};
use vstd::arithmetic::div_mod::{
    lemma_small_mod, lemma_add_mod_noop, lemma_mod_bound, lemma_mul_mod_noop_general,
    lemma_mul_mod_noop_left,
};
use crate::bytes::{
    le_val, be_val, min_be, strip_zeros, lemma_strip_zeros_skip, lemma_le_val_pad,
    lemma_le_val_bound,
};
use crate::field::{U256, modulus, add_mod, mul_mod};
use tiny_keccak::Hasher;

verus! {

/// The fixed round count of MiMC7 over this field.
pub const N_ROUNDS: usize = 91;

/// The BN254 scalar field modulus, a 254-bit prime.
pub open spec fn r_int() -> int {
    21888242871839275222246405745257275088548364400416034343698204186575808495617int
}

/// The ASCII bytes of the seed tag "mimc".
pub open spec fn seed_bytes() -> Seq<u8> {
    seq![109u8, 105u8, 109u8, 99u8]
}

/// The single failure of the hash: an input element is not strictly
/// below the field modulus.
#[derive(Clone, Copy, Debug, PartialEq, Eq, Structural)]
pub enum MimcError {
    ElementOutOfField,
}

/// The 32-byte Keccak-256 digest of a byte string.
pub uninterp spec fn keccak256_of(data: Seq<u8>) -> Seq<u8>;

/// Relies on tiny_keccak (`Keccak::v256` with `update` and `finalize`):
/// the 32-byte digest depends on the input bytes alone.
#[verifier::external_body]
fn keccak256(data: &[u8]) -> (r: Vec<u8>)
    ensures
        r@ == keccak256_of(data@),
        r@.len() == 32,
{
    let mut k = tiny_keccak::Keccak::v256();
    k.update(data);
    let mut out = [0u8; 32];
    k.finalize(&mut out);
    out.to_vec()
}

/// The little-endian bytes of the field modulus.
pub open spec fn fr_bytes() -> Seq<u8> {
    seq![
        0x01u8, 0x00u8, 0x00u8, 0xf0u8, 0x93u8, 0xf5u8, 0xe1u8, 0x43u8,
        0x91u8, 0x70u8, 0xb9u8, 0x79u8, 0x48u8, 0xe8u8, 0x33u8, 0x28u8,
        0x5du8, 0x58u8, 0x81u8, 0x81u8, 0xb6u8, 0x45u8, 0x50u8, 0xb8u8,
        0x29u8, 0xa0u8, 0x31u8, 0xe1u8, 0x72u8, 0x4eu8, 0x64u8, 0x30u8,
    ]
}

/// The byte form and the integer form of the modulus agree.
#[verifier::spinoff_prover]
#[verifier::rlimit(100)]
pub proof fn lemma_fr_bytes_val()
    ensures
        le_val(fr_bytes()) == r_int(),
{
    reveal_with_fuel(le_val, 33);
}

/// The field modulus as a value.
pub fn fr_modulus() -> (r: U256)
    ensures
        r.wf(),
        r.val() == r_int(),
{
    let mut v: Vec<u8> = Vec::new();
    v.push(0x01u8);
    v.push(0x00u8);
    v.push(0x00u8);
    v.push(0xf0u8);
    v.push(0x93u8);
    v.push(0xf5u8);
    v.push(0xe1u8);
    v.push(0x43u8);
    v.push(0x91u8);
    v.push(0x70u8);
    v.push(0xb9u8);
    v.push(0x79u8);
    v.push(0x48u8);
    v.push(0xe8u8);
    v.push(0x33u8);
    v.push(0x28u8);
    v.push(0x5du8);
    v.push(0x58u8);
    v.push(0x81u8);
    v.push(0x81u8);
    v.push(0xb6u8);
    v.push(0x45u8);
    v.push(0x50u8);
    v.push(0xb8u8);
    v.push(0x29u8);
    v.push(0xa0u8);
    v.push(0x31u8);
    v.push(0xe1u8);
    v.push(0x72u8);
    v.push(0x4eu8);
    v.push(0x64u8);
    v.push(0x30u8);
    proof {
        assert(v@ =~= fr_bytes());
        lemma_fr_bytes_val();
    }
    U256 { bytes: v }
}

/// The seed tag as bytes.
fn mimc_seed() -> (v: Vec<u8>)
    ensures
        v@ == seed_bytes(),
{
    let mut v: Vec<u8> = Vec::new();
    v.push(109u8);
    v.push(105u8);
    v.push(109u8);
    v.push(99u8);
    proof {
        assert(v@ =~= seed_bytes());
    }
    v
}

/// The shortest big-endian form of a digest's value, as an executable
/// function: leading zero bytes go, and the zero digest keeps one zero
/// byte. This matches how a big integer prints its own big-endian bytes.
fn to_min_be(d: &Vec<u8>) -> (r: Vec<u8>)
    requires
        d@.len() == 32,
    ensures
        r@ == min_be(d@),
{
    let mut k: usize = 0;
    while k < 32 && d[k] == 0
        invariant
            d@.len() == 32,
            k <= 32,
            forall|j: int| 0 <= j < k ==> d@[j] == 0,
        decreases 32 - k,
    {
        k = k + 1;
    }
    proof {
        lemma_strip_zeros_skip(d@, k as int);
    }
    if k == 32 {
        let mut r: Vec<u8> = Vec::new();
        r.push(0u8);
        proof {
            assert(strip_zeros(d@) =~= d@.skip(32));
            assert(r@ =~= seq![0u8]);
        }
        r
    } else {
        let mut r: Vec<u8> = Vec::new();
        let mut i: usize = k;
        while i < 32
            invariant
                d@.len() == 32,
                k <= i <= 32,
                r@.len() == i - k,
                forall|j: int| 0 <= j < i - k ==> r@[j] == d@[k + j],
            decreases 32 - i,
        {
            r.push(d[i]);
            i = i + 1;
        }
        proof {
            assert(r@ =~= d@.skip(k as int));
            assert(strip_zeros(d@).len() == 32 - k);
        }
        r
    }
}

/// The digest chain that drives the constants: link 0 digests the seed,
/// each later link digests the shortest big-endian form of the one
/// before it.
pub open spec fn digest_chain(seed: Seq<u8>, i: nat) -> Seq<u8>
    decreases i,
{
    if i == 0 {
        keccak256_of(seed)
    } else {
        keccak256_of(min_be(digest_chain(seed, (i - 1) as nat)))
    }
}

/// Round constant `i` for a seed and modulus: zero at index 0, and the
/// value of chain link `i` reduced by the modulus after that.
pub open spec fn spec_constant(seed: Seq<u8>, m: int, i: nat) -> int {
    if i == 0 {
        0
    } else {
        (be_val(digest_chain(seed, i)) as int) % m
    }
}

/// The first `n` round constants in order.
pub open spec fn spec_constants(seed: Seq<u8>, m: int, n: nat) -> Seq<int> {
    Seq::new(n, |i: int| spec_constant(seed, m, i as nat))
}

/// The round constants of the fixed hasher.
pub open spec fn mimc_cts() -> Seq<int> {
    spec_constants(seed_bytes(), r_int(), N_ROUNDS as nat)
}

/// Derives `n_rounds` round constants from a seed: index 0 is zero, and
/// each later index is the next link of the digest chain reduced by `r`.
pub fn get_constants(r: &U256, seed: &[u8], n_rounds: usize) -> (cts: Vec<U256>)
    requires
        r.wf(),
        r.val() > 0,
        n_rounds >= 1,
    ensures
        cts@.len() == n_rounds,
        forall|i: int|
            0 <= i < n_rounds ==> (#[trigger] cts@[i]).wf()
                && cts@[i].val() == spec_constant(seed@, r.val() as int, i as nat)
                && cts@[i].val() < r.val(),
{
    let mut cts: Vec<U256> = Vec::new();
    cts.push(U256::zero());
    let mut d: Vec<u8> = keccak256(seed);
    let mut i: usize = 1;
    while i < n_rounds
        invariant
            1 <= i <= n_rounds,
            cts@.len() == i,
            d@.len() == 32,
            d@ == digest_chain(seed@, (i - 1) as nat),
            r.wf(),
            r.val() > 0,
            forall|j: int|
                0 <= j < i ==> (#[trigger] cts@[j]).wf()
                    && cts@[j].val() == spec_constant(seed@, r.val() as int, j as nat)
                    && cts@[j].val() < r.val(),
        decreases n_rounds - i,
    {
        let nb = to_min_be(&d);
        d = keccak256(nb.as_slice());
        let c = U256::from_bytes_be(&d);
        let ct = modulus(&c, r);
        proof {
            assert(d@ == digest_chain(seed@, i as nat));
            lemma_mod_bound(c.val() as int, r.val() as int);
        }
        cts.push(ct);
        i = i + 1;
    }
    cts
}

/// The generated constants, the modulus and the round count of a hasher.
pub struct Constants {
    pub r: U256,
    pub n_rounds: usize,
    pub cts: Vec<U256>,
}

impl Constants {
    /// The modulus is the field prime, the round count is fixed, and
    /// every constant is the one the digest chain of the seed gives.
    pub open spec fn wf(&self) -> bool {
        &&& self.r.wf()
        &&& self.r.val() == r_int()
        &&& self.n_rounds == N_ROUNDS
        &&& self.cts@.len() == N_ROUNDS
        &&& forall|i: int|
            0 <= i < N_ROUNDS ==> (#[trigger] self.cts@[i]).wf()
                && self.cts@[i].val() == spec_constant(seed_bytes(), r_int(), i as nat)
                && self.cts@[i].val() < r_int()
    }
}

/// Builds the constants of the fixed hasher: the field prime, 91 rounds,
/// and the digest chain of the seed tag. An alternate tag derived from
/// the seed exists elsewhere for an initialization value; the hash chain
/// here starts from zero and no such value enters it.
pub fn generate_constants() -> (c: Constants)
    ensures
        c.wf(),
{
    let r = fr_modulus();
    let seed = mimc_seed();
    let cts = get_constants(&r, seed.as_slice(), N_ROUNDS);
    Constants { r, n_rounds: N_ROUNDS, cts }
}

/// The values a sequence of field elements denotes.
pub open spec fn u256_vals(s: Seq<U256>) -> Seq<int> {
    Seq::new(s.len(), |i: int| s[i].val() as int)
}

/// The round state of the compression function after `n` of its rounds:
/// it starts at zero; round 0 raises the sum of message and key to the
/// seventh power in the field, and every later round `i` does the same
/// with the state, the key and round constant `i`.
pub open spec fn compress_state(x: int, k: int, cts: Seq<int>, m: int, n: nat) -> int
    decreases n,
{
    if n == 0 {
        0
    } else {
        let h = compress_state(x, k, cts, m, (n - 1) as nat);
        let t = if n == 1 {
            (x + k) % m
        } else {
            (h + k + cts[n - 1]) % m
        };
        pow(t, 7) % m
    }
}

/// The single-block MiMC7 compression of message `x` under key `k`: the
/// final round state plus the key, reduced by the modulus.
pub open spec fn spec_mimc7(x: int, k: int, cts: Seq<int>, m: int, n: nat) -> int {
    (compress_state(x, k, cts, m, n) + k) % m
}

/// The reduced square-square-multiply ladder computes the seventh power
/// in the field.
proof fn lemma_pow7_chain(t: int, m: int)
    requires
        m > 0,
    ensures
        ({
            let t2 = (t * t) % m;
            let t4 = (t2 * t2) % m;
            let t6 = (t4 * t2) % m;
            (t6 * t) % m == pow(t, 7) % m
        }),
{
    let t2 = (t * t) % m;
    let t4 = (t2 * t2) % m;
    let t6 = (t4 * t2) % m;
    assert(pow(t, 2) == t * t) by {
        reveal_with_fuel(pow, 3);
    }
    lemma_mul_mod_noop_general(t * t, t * t, m);
    assert(pow(t, 4) == pow(t, 2) * pow(t, 2)) by {
        lemma_pow_adds(t, 2, 2);
    }
    assert(t4 == pow(t, 4) % m);
    lemma_mul_mod_noop_general(pow(t, 4), pow(t, 2), m);
    assert(pow(t, 6) == pow(t, 4) * pow(t, 2)) by {
        lemma_pow_adds(t, 4, 2);
    }
    assert(t6 == pow(t, 6) % m);
    lemma_mul_mod_noop_left(pow(t, 6), t, m);
    assert(pow(t, 7) == pow(t, 6) * t) by {
        lemma_pow_adds(t, 6, 1);
        lemma_pow1(t);
    }
}

/// Runs the `n_rounds` rounds of the compression function.
fn compress_rounds(x: &U256, k: &U256, cts: &Vec<U256>, m: &U256, n_rounds: usize) -> (h: U256)
    requires
        x.wf(),
        k.wf(),
        m.wf(),
        m.val() > 0,
        n_rounds >= 1,
        cts@.len() == n_rounds,
        forall|i: int|
            0 <= i < n_rounds ==> (#[trigger] cts@[i]).wf() && cts@[i].val() < m.val(),
    ensures
        h.wf(),
        h.val() == compress_state(
            x.val() as int,
            k.val() as int,
            u256_vals(cts@),
            m.val() as int,
            n_rounds as nat,
        ),
{
    let ghost xv: int = x.val() as int;
    let ghost kv: int = k.val() as int;
    let ghost mv: int = m.val() as int;
    let ghost ctsv: Seq<int> = u256_vals(cts@);
    let mut h = U256::zero();
    let mut i: usize = 0;
    while i < n_rounds
        invariant
            x.wf(),
            k.wf(),
            m.wf(),
            m.val() > 0,
            cts@.len() == n_rounds,
            forall|j: int|
                0 <= j < n_rounds ==> (#[trigger] cts@[j]).wf() && cts@[j].val() < m.val(),
            xv == x.val() as int,
            kv == k.val() as int,
            mv == m.val() as int,
            ctsv == u256_vals(cts@),
            i <= n_rounds,
            h.wf(),
            h.val() == compress_state(xv, kv, ctsv, mv, i as nat),
        decreases n_rounds - i,
    {
        let ghost hv: int = h.val() as int;
        let t: U256;
        if i == 0 {
            t = add_mod(x, k, m);
        } else {
            let s = add_mod(&h, k, m);
            t = add_mod(&s, &cts[i], m);
            proof {
                lemma_small_mod(cts@[i as int].val(), m.val());
                lemma_add_mod_noop(hv + kv, cts@[i as int].val() as int, mv);
                assert(t.val() == (hv + kv + ctsv[i as int]) % mv);
            }
        }
        let t2 = mul_mod(&t, &t, m);
        let t4 = mul_mod(&t2, &t2, m);
        let t6 = mul_mod(&t4, &t2, m);
        h = mul_mod(&t6, &t, m);
        proof {
            lemma_pow7_chain(t.val() as int, mv);
            assert(h.val() == compress_state(xv, kv, ctsv, mv, (i + 1) as nat));
        }
        i = i + 1;
    }
    h
}

/// Whether a value lies strictly below the modulus `q`.
pub fn check_bigint_in_field(a: &U256, q: &U256) -> (r: bool)
    requires
        a.wf(),
        q.wf(),
    ensures
        r == (a.val() < q.val()),
{
    a.lt(q)
}

/// Whether every value of the array lies strictly below the modulus `q`.
pub fn check_bigint_array_in_field(arr: &Vec<U256>, q: &U256) -> (r: bool)
    requires
        q.wf(),
        forall|i: int| 0 <= i < arr@.len() ==> (#[trigger] arr@[i]).wf(),
    ensures
        r == (forall|i: int| 0 <= i < arr@.len() ==> (#[trigger] arr@[i]).val() < q.val()),
{
    let mut i: usize = 0;
    while i < arr.len()
        invariant
            q.wf(),
            forall|j: int| 0 <= j < arr@.len() ==> (#[trigger] arr@[j]).wf(),
            i <= arr@.len(),
            forall|j: int| 0 <= j < i ==> (#[trigger] arr@[j]).val() < q.val(),
        decreases arr@.len() - i,
    {
        if !check_bigint_in_field(&arr[i], q) {
            return false;
        }
        i = i + 1;
    }
    true
}

/// The accumulator of the chained hash after the whole input: it starts
/// at zero, and each element adds itself and its compression under the
/// current accumulator, reduced by the modulus.
pub open spec fn spec_hash_chain(vals: Seq<int>, cts: Seq<int>, m: int, n: nat) -> int
    decreases vals.len(),
{
    if vals.len() == 0 {
        0
    } else {
        let h = spec_hash_chain(vals.drop_last(), cts, m, n);
        (h + vals.last() + spec_mimc7(vals.last(), h, cts, m, n)) % m
    }
}

/// The accumulator of the plain Merkle-Damgard chain: it starts at `iv`,
/// and each element becomes the key of a compression of the accumulator.
pub open spec fn spec_hash_iv(iv: int, vals: Seq<int>, cts: Seq<int>, m: int, n: nat) -> int
    decreases vals.len(),
{
    if vals.len() == 0 {
        iv
    } else {
        spec_mimc7(spec_hash_iv(iv, vals.drop_last(), cts, m, n), vals.last(), cts, m, n)
    }
}

/// The single-block MiMC7 compression of `x_in` under key `k`, with the
/// constants the seed gives for `n_rounds` rounds over modulus `r`.
pub fn mimc7_hash_generic(r: &U256, x_in: &U256, k: &U256, n_rounds: usize) -> (h: U256)
    requires
        r.wf(),
        r.val() > 0,
        x_in.wf(),
        k.wf(),
        n_rounds >= 1,
    ensures
        h.wf(),
        h.val() == spec_mimc7(
            x_in.val() as int,
            k.val() as int,
            spec_constants(seed_bytes(), r.val() as int, n_rounds as nat),
            r.val() as int,
            n_rounds as nat,
        ),
        h.val() < r.val(),
{
    let seed = mimc_seed();
    let cts = get_constants(r, seed.as_slice(), n_rounds);
    let c = compress_rounds(x_in, k, &cts, r, n_rounds);
    let h = add_mod(&c, k, r);
    proof {
        assert(u256_vals(cts@) =~= spec_constants(seed_bytes(), r.val() as int, n_rounds as nat));
        lemma_mod_bound(c.val() as int + k.val() as int, r.val() as int);
    }
    h
}

/// The plain chained hash over an initialization value: each element in
/// order keys a compression of the accumulator.
pub fn hash_generic(iv: U256, arr: Vec<U256>, r: U256, n_rounds: usize) -> (h: U256)
    requires
        iv.wf(),
        r.wf(),
        r.val() > 0,
        n_rounds >= 1,
        forall|i: int| 0 <= i < arr@.len() ==> (#[trigger] arr@[i]).wf(),
    ensures
        h.wf(),
        h.val() == spec_hash_iv(
            iv.val() as int,
            u256_vals(arr@),
            spec_constants(seed_bytes(), r.val() as int, n_rounds as nat),
            r.val() as int,
            n_rounds as nat,
        ),
{
    let ghost mv: int = r.val() as int;
    let ghost ctsv: Seq<int> = spec_constants(seed_bytes(), mv, n_rounds as nat);
    let ghost vals: Seq<int> = u256_vals(arr@);
    let mut h = iv;
    let mut i: usize = 0;
    while i < arr.len()
        invariant
            r.wf(),
            r.val() > 0,
            n_rounds >= 1,
            forall|j: int| 0 <= j < arr@.len() ==> (#[trigger] arr@[j]).wf(),
            mv == r.val() as int,
            ctsv == spec_constants(seed_bytes(), mv, n_rounds as nat),
            vals == u256_vals(arr@),
            i <= arr@.len(),
            h.wf(),
            h.val() == spec_hash_iv(iv.val() as int, vals.take(i as int), ctsv, mv, n_rounds as nat),
        decreases arr@.len() - i,
    {
        h = mimc7_hash_generic(&r, &h, &arr[i], n_rounds);
        proof {
            assert(vals.take(i + 1).drop_last() =~= vals.take(i as int));
            assert(vals.take(i + 1).last() == vals[i as int]);
        }
        i = i + 1;
    }
    proof {
        assert(vals.take(arr@.len() as int) =~= vals);
    }
    h
}

/// A MiMC7 hasher: its constants, generated at construction and
/// read-only afterwards.
pub struct Mimc7 {
    pub constants: Constants,
}

impl Mimc7 {
    /// The hasher's constants are well formed.
    pub open spec fn wf(&self) -> bool {
        self.constants.wf()
    }

    /// Builds a hasher for the fixed seed, round count and modulus.
    pub fn new() -> (m: Mimc7)
        ensures
            m.wf(),
    {
        Mimc7 { constants: generate_constants() }
    }

    /// The single-block MiMC7 compression of `x_in` under key `k`.
    pub fn mimc7_hash(&self, x_in: &U256, k: &U256) -> (h: U256)
        requires
            self.wf(),
            x_in.wf(),
            k.wf(),
        ensures
            h.wf(),
            h.val() == spec_mimc7(
                x_in.val() as int,
                k.val() as int,
                mimc_cts(),
                r_int(),
                N_ROUNDS as nat,
            ),
            h.val() < r_int(),
    {
        let c = compress_rounds(x_in, k, &self.constants.cts, &self.constants.r, N_ROUNDS);
        let h = add_mod(&c, k, &self.constants.r);
        proof {
            assert(u256_vals(self.constants.cts@) =~= mimc_cts());
            lemma_mod_bound(c.val() as int + k.val() as int, r_int());
        }
        h
    }

    /// The chained hash of the elements in order. It fails exactly when
    /// some element is not strictly below the modulus, and otherwise
    /// returns the accumulator of the chain, a value in the field.
    pub fn hash(&self, arr: Vec<U256>) -> (res: Result<U256, MimcError>)
        requires
            self.wf(),
            forall|i: int| 0 <= i < arr@.len() ==> (#[trigger] arr@[i]).wf(),
        ensures
            match res {
                Ok(h) => {
                    &&& forall|i: int| 0 <= i < arr@.len() ==> (#[trigger] arr@[i]).val() < r_int()
                    &&& h.wf()
                    &&& h.val() < r_int()
                    &&& h.val() == spec_hash_chain(
                        u256_vals(arr@),
                        mimc_cts(),
                        r_int(),
                        N_ROUNDS as nat,
                    )
                },
                Err(e) => {
                    &&& e == MimcError::ElementOutOfField
                    &&& exists|i: int|
                        0 <= i < arr@.len() && (#[trigger] arr@[i]).val() >= r_int()
                },
            },
    {
        if !check_bigint_array_in_field(&arr, &self.constants.r) {
            return Err(MimcError::ElementOutOfField);
        }
        let ghost vals: Seq<int> = u256_vals(arr@);
        let mut h = U256::zero();
        let mut i: usize = 0;
        while i < arr.len()
            invariant
                self.wf(),
                forall|j: int| 0 <= j < arr@.len() ==> (#[trigger] arr@[j]).wf(),
                vals == u256_vals(arr@),
                i <= arr@.len(),
                h.wf(),
                h.val() < r_int(),
                h.val() == spec_hash_chain(vals.take(i as int), mimc_cts(), r_int(), N_ROUNDS as nat),
            decreases arr@.len() - i,
        {
            let ghost hv: int = h.val() as int;
            let c = self.mimc7_hash(&arr[i], &h);
            let s = add_mod(&h, &arr[i], &self.constants.r);
            h = add_mod(&s, &c, &self.constants.r);
            proof {
                lemma_small_mod(c.val(), r_int() as nat);
                lemma_add_mod_noop(hv + arr@[i as int].val(), c.val() as int, r_int());
                lemma_mod_bound(hv + arr@[i as int].val() + c.val(), r_int());
                assert(vals.take(i + 1).drop_last() =~= vals.take(i as int));
                assert(vals.take(i + 1).last() == vals[i as int]);
            }
            i = i + 1;
        }
        proof {
            assert(vals.take(arr@.len() as int) =~= vals);
        }
        Ok(h)
    }

    /// The chained hash of the buffer split into 31-byte chunks, each
    /// read as a little-endian value. Every chunk lies below 256^31 and
    /// so below the modulus, hence this never fails.
    pub fn hash_bytes(&self, b: Vec<u8>) -> (res: Result<U256, MimcError>)
        requires
            self.wf(),
        ensures
            match res {
                Ok(h) => {
                    &&& h.wf()
                    &&& h.val() < r_int()
                    &&& h.val() == spec_hash_chain(
                        chunk_vals(b@),
                        mimc_cts(),
                        r_int(),
                        N_ROUNDS as nat,
                    )
                },
                Err(_) => false,
            },
    {
        let blen: usize = b.len();
        let n_full = blen / 31;
        let mut ints: Vec<U256> = Vec::new();
        let mut i: usize = 0;
        proof {
            vstd::arithmetic::div_mod::lemma_fundamental_div_mod(b@.len() as int, 31);
        }
        while i < n_full
            invariant
                blen == b@.len(),
                n_full == b@.len() / 31,
                31 * n_full <= b@.len(),
                i <= n_full,
                ints@.len() == i,
                forall|j: int|
                    0 <= j < i ==> (#[trigger] ints@[j]).wf()
                        && ints@[j].val() as int == chunk_val(b@, j),
            decreases n_full - i,
        {
            let c = u256_from_le_slice(&b, 31 * i, 31 * i + 31);
            proof {
                assert(chunk_val(b@, i as int) == le_val(
                    b@.subrange(31 * i as int, 31 * i as int + 31),
                ));
            }
            ints.push(c);
            i = i + 1;
        }
        if blen % 31 != 0 {
            let c = u256_from_le_slice(&b, n_full * 31, blen);
            ints.push(c);
            proof {
                assert(chunk_val(b@, n_full as int) == le_val(
                    b@.subrange(31 * n_full as int, b@.len() as int),
                ));
            }
        }
        proof {
            assert(ints@.len() == chunk_count(b@.len()));
            lemma_chunks_in_field(b@);
            assert forall|j: int|
                0 <= j < ints@.len() implies (#[trigger] ints@[j]).wf() && ints@[j].val()
                < r_int() by {
                assert(ints@[j].val() as int == chunk_val(b@, j));
            }
            assert(u256_vals(ints@) =~= chunk_vals(b@));
        }
        match self.hash(ints) {
            Ok(h) => Ok(h),
            Err(e) => {
                proof {
                    assert(false);
                }
                Err(e)
            },
        }
    }
}

/// The number of 31-byte chunks of a buffer of `n` bytes; the last
/// chunk may be short.
pub open spec fn chunk_count(n: nat) -> nat {
    n / 31 + if n % 31 == 0 {
        0nat
    } else {
        1nat
    }
}

/// The little-endian value of chunk `i` of the buffer.
pub open spec fn chunk_val(b: Seq<u8>, i: int) -> int {
    le_val(
        b.subrange(
            31 * i,
            if 31 * i + 31 <= b.len() {
                31 * i + 31
            } else {
                b.len() as int
            },
        ),
    ) as int
}

/// The little-endian values of all chunks of the buffer, in order.
pub open spec fn chunk_vals(b: Seq<u8>) -> Seq<int> {
    Seq::new(chunk_count(b.len()), |i: int| chunk_val(b, i))
}

/// 256 to the 31st power lies below the field modulus.
proof fn lemma_pow_256_31_lt_r()
    ensures
        pow(256, 31) < r_int(),
{
    assert(pow(256, 31)
        == 0x100000000000000000000000000000000000000000000000000000000000000int) by {
        reveal_with_fuel(pow, 32);
    }
}

/// Every chunk value of a buffer lies below the field modulus.
proof fn lemma_chunks_in_field(b: Seq<u8>)
    ensures
        forall|i: int| 0 <= i < chunk_count(b.len()) ==> 0 <= #[trigger] chunk_val(b, i) < r_int(),
{
    lemma_pow_256_31_lt_r();
    assert forall|i: int|
        0 <= i < chunk_count(b.len()) implies 0 <= #[trigger] chunk_val(b, i) < r_int() by {
        let hi = if 31 * i + 31 <= b.len() {
            31 * i + 31
        } else {
            b.len() as int
        };
        let chunk = b.subrange(31 * i, hi);
        lemma_le_val_bound(chunk);
        lemma_pow_increases(256, chunk.len(), 31);
    }
}

/// Fills a field element with the bytes `b[start..end]`, least
/// significant first, and zeros above them.
fn u256_from_le_slice(b: &Vec<u8>, start: usize, end: usize) -> (r: U256)
    requires
        start <= end,
        end <= b@.len(),
        end - start <= 32,
    ensures
        r.wf(),
        r.val() == le_val(b@.subrange(start as int, end as int)),
{
    let len = end - start;
    let mut v: Vec<u8> = Vec::new();
    let mut j: usize = 0;
    while j < 32
        invariant
            start <= end <= b@.len(),
            len == end - start,
            len <= 32,
            v@.len() == j,
            j <= 32,
            forall|q: int|
                0 <= q < j ==> v@[q] == (if q < len {
                    b@[start + q]
                } else {
                    0u8
                }),
        decreases 32 - j,
    {
        if j < len {
            v.push(b[start + j]);
        } else {
            v.push(0u8);
        }
        j = j + 1;
    }
    proof {
        let chunk = b@.subrange(start as int, end as int);
        let pad = Seq::new((32 - len) as nat, |q: int| 0u8);
        assert(v@ =~= chunk + pad);
        lemma_le_val_pad(chunk, pad);
    }
    U256 { bytes: v }
}

/// Law: the hash is determined by the element values alone — any two
/// well-formed hashers assign every input sequence the same chained
/// hash.
pub proof fn lemma_hash_deterministic(h1: Mimc7, h2: Mimc7, vals: Seq<int>)
    requires
        h1.wf(),
        h2.wf(),
    ensures
        spec_hash_chain(
            vals,
            u256_vals(h1.constants.cts@),
            h1.constants.r.val() as int,
            h1.constants.n_rounds as nat,
        ) == spec_hash_chain(
            vals,
            u256_vals(h2.constants.cts@),
            h2.constants.r.val() as int,
            h2.constants.n_rounds as nat,
        ),
{
    assert(u256_vals(h1.constants.cts@) =~= u256_vals(h2.constants.cts@));
}

/// Law: the round constants are determined by the seed, the round count
/// and the modulus alone — two well-formed tables agree element-wise,
/// and both start with zero.
pub proof fn lemma_constants_deterministic(c1: Constants, c2: Constants)
    requires
        c1.wf(),
        c2.wf(),
    ensures
        u256_vals(c1.cts@) == u256_vals(c2.cts@),
        c1.cts@[0].val() == 0,
        c2.cts@[0].val() == 0,
{
    assert(u256_vals(c1.cts@) =~= u256_vals(c2.cts@));
}

/// Law: the hash of a single element is the element plus its
/// compression under key zero, reduced by the modulus.
pub proof fn lemma_hash_single(x: int, cts: Seq<int>, m: int, n: nat)
    ensures
        spec_hash_chain(seq![x], cts, m, n) == (x + spec_mimc7(x, 0, cts, m, n)) % m,
{
    reveal_with_fuel(spec_hash_chain, 2);
    assert(seq![x].drop_last() =~= Seq::<int>::empty());
    assert(seq![x].last() == x);
}

/// Law: a buffer of exactly 31 bytes forms a single chunk that holds
/// the buffer's own little-endian value, so its byte hash is the hash
/// of that one element.
pub proof fn lemma_chunk_31(b: Seq<u8>)
    requires
        b.len() == 31,
    ensures
        chunk_vals(b) == seq![le_val(b) as int],
{
    assert(b.subrange(0, 31) =~= b);
    assert(chunk_vals(b) =~= seq![le_val(b) as int]);
}

} // verus!
