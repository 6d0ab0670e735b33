//! The time-lock puzzle: a secret that is only reached by squaring in
//! sequence, the sigma protocol that binds it to its public shadow, and the
//! order in which a proof of it is checked.

pub mod key_validation_circuit;
pub mod key_validation_zkp;
pub mod sigma_protocol;

use crate::bigint::{big_modpow, big_pow, random_bits, BigNat};
use crate::encryptor::hash::types::HashValue;
use crate::encryptor::hash::{hash, hash_words, BITS_LEN, LIMB_COUNT, LIMB_WIDTH};
use crate::big_integer::fits_in_limbs;
use crate::modular::{lemma_repeated_square, mul_mod, repeated_square, sequential_squares};
use crate::time_lock_puzzle::key_validation_zkp::{
    KeyValidationParam, KeyValidationPublicInput, KeyValidationSecretInput,
};
use crate::time_lock_puzzle::sigma_protocol::{
    generate_sigma_protocol_public_input, power_mod, sigma_accepts, sigma_generated, verify,
    SigmaParam, SigmaProtocolParam, SigmaProtocolPublicInput, SigmaStatement,
};
use vstd::arithmetic::power::pow;
use vstd::arithmetic::power2::{lemma_pow2, pow2};
use vstd::prelude::*;

verus! {

/// The generator of the standard puzzle, in decimal.
pub const G: &'static str = "5";

/// The modulus of the standard puzzle, in decimal: a number of 2048 bits
/// whose factors nobody is meant to know.
pub const N: &'static str = "25195908475657893494027183240048398571429282126204032027777137836043662020707595556264018525880784406918290641249515082189298559149176184502808489120072844992687392807287776735971418347270261896375014971824691165077613379859095700097330459748808428401797429100642458691817195118746121515172654632282216869987549182422433637259085141865462043576798423387184774447920739934236584823824281198163815010674810451660377306056201619676256133844143603833904414952634432190114657544454178424020924616515723350778707749817125772467962926386356373289912154831438167899885040445364023527381951378636564391212010397122822120720357";

/// The modulus of the standard puzzle, as big-endian bytes.
pub const N_BYTES: [u8; 256] = [
    0xc7, 0x97, 0x0c, 0xee, 0xdc, 0xc3, 0xb0, 0x75, 0x44, 0x90, 0x20, 0x1a, 0x7a, 0xa6, 0x13, 0xcd,
    0x73, 0x91, 0x10, 0x81, 0xc7, 0x90, 0xf5, 0xf1, 0xa8, 0x72, 0x6f, 0x46, 0x35, 0x50, 0xbb, 0x5b,
    0x7f, 0xf0, 0xdb, 0x8e, 0x1e, 0xa1, 0x18, 0x9e, 0xc7, 0x2f, 0x93, 0xd1, 0x65, 0x00, 0x11, 0xbd,
    0x72, 0x1a, 0xee, 0xac, 0xc2, 0xac, 0xde, 0x32, 0xa0, 0x41, 0x07, 0xf0, 0x64, 0x8c, 0x28, 0x13,
    0xa3, 0x1f, 0x5b, 0x0b, 0x77, 0x65, 0xff, 0x8b, 0x44, 0xb4, 0xb6, 0xff, 0xc9, 0x33, 0x84, 0xb6,
    0x46, 0xeb, 0x09, 0xc7, 0xcf, 0x5e, 0x85, 0x92, 0xd4, 0x0e, 0xa3, 0x3c, 0x80, 0x03, 0x9f, 0x35,
    0xb4, 0xf1, 0x4a, 0x04, 0xb5, 0x1f, 0x7b, 0xfd, 0x78, 0x1b, 0xe4, 0xd1, 0x67, 0x31, 0x64, 0xba,
    0x8e, 0xb9, 0x91, 0xc2, 0xc4, 0xd7, 0x30, 0xbb, 0xbe, 0x35, 0xf5, 0x92, 0xbd, 0xef, 0x52, 0x4a,
    0xf7, 0xe8, 0xda, 0xef, 0xd2, 0x6c, 0x66, 0xfc, 0x02, 0xc4, 0x79, 0xaf, 0x89, 0xd6, 0x4d, 0x37,
    0x3f, 0x44, 0x27, 0x09, 0x43, 0x9d, 0xe6, 0x6c, 0xeb, 0x95, 0x5f, 0x3e, 0xa3, 0x7d, 0x51, 0x59,
    0xf6, 0x13, 0x58, 0x09, 0xf8, 0x53, 0x34, 0xb5, 0xcb, 0x18, 0x13, 0xad, 0xdc, 0x80, 0xcd, 0x05,
    0x60, 0x9f, 0x10, 0xac, 0x6a, 0x95, 0xad, 0x65, 0x87, 0x2c, 0x90, 0x95, 0x25, 0xbd, 0xad, 0x32,
    0xbc, 0x72, 0x95, 0x92, 0x64, 0x29, 0x20, 0xf2, 0x4c, 0x61, 0xdc, 0x5b, 0x3c, 0x3b, 0x79, 0x23,
    0xe5, 0x6b, 0x16, 0xa4, 0xd9, 0xd3, 0x73, 0xd8, 0x72, 0x1f, 0x24, 0xa3, 0xfc, 0x0f, 0x1b, 0x31,
    0x31, 0xf5, 0x56, 0x15, 0x17, 0x28, 0x66, 0xbc, 0xcc, 0x30, 0xf9, 0x50, 0x54, 0xc8, 0x24, 0xe7,
    0x33, 0xa5, 0xeb, 0x68, 0x17, 0xf7, 0xbc, 0x16, 0x39, 0x9d, 0x48, 0xc6, 0x36, 0x1c, 0xc7, 0xe5,
];

/// The number of bits of the blinding exponents.
pub const BLINDING_BITS: u64 = 128;

/// The generator of the standard puzzle.
pub open spec fn standard_generator() -> nat {
    5
}

/// The modulus of the standard puzzle.
pub open spec fn standard_modulus() -> nat {
    crate::bigint::be_value(N_BYTES@)
}

/// The standard modulus is positive and has at most 2048 bits.
pub proof fn lemma_standard_modulus_bounds()
    ensures
        0 < standard_modulus() < pow2(BITS_LEN as nat),
{
    let s = N_BYTES@;
    assert(s.len() == 256);
    assert(s[255] == 0xe5u8);
    assert(s.last() == s[255]);
    crate::bigint::lemma_be_value_reverse(s);
    crate::bigint::lemma_le_value_bound(s.reverse());
    crate::big_integer::limb_math::lemma_pow2_mul(8, 256);
    crate::big_integer::limb_math::lemma_pow2_values();
}

/// The parameters of a puzzle: the generator, the modulus, and the generator
/// squared once more than the puzzle's depth.
#[derive(Debug, Clone)]
pub struct TimeLockPuzzleParam {
    pub g: BigNat,
    pub n: BigNat,
    pub y_two: BigNat,
}

/// What a puzzle shows of itself: the sigma protocol's statement and the
/// digest of the secret.
#[derive(Debug, Clone)]
pub struct TimeLockPuzzlePublicInput {
    pub r1: BigNat,
    pub r2: BigNat,
    pub z: BigNat,
    pub o: BigNat,
    pub k_two: BigNat,
    pub k_hash_value: HashValue,
}

/// The secret of a puzzle.
#[derive(Debug, Clone)]
pub struct TimeLockPuzzleSecretInput {
    pub k: BigNat,
}

impl TimeLockPuzzleParam {
    /// The parameters as numbers.
    pub open spec fn sigma(&self) -> SigmaParam {
        SigmaParam { n: self.n@, g: self.g@, y_two: self.y_two@ }
    }

    /// The parameters as the sigma protocol takes them.
    pub fn to_sigma_param(&self) -> (param: SigmaProtocolParam)
        ensures
            param@ == self.sigma(),
    {
        SigmaProtocolParam { n: self.n.clone(), g: self.g.clone(), y_two: self.y_two.clone() }
    }
}

impl TimeLockPuzzlePublicInput {
    /// The sigma protocol's statement in the public input, as numbers.
    pub open spec fn statement(&self) -> SigmaStatement {
        SigmaStatement {
            r1: self.r1@,
            r2: self.r2@,
            z: self.z@,
            o: self.o@,
            k_two: self.k_two@,
        }
    }

    /// The sigma protocol's statement in the public input.
    pub fn to_sigma_input(&self) -> (input: SigmaProtocolPublicInput)
        ensures
            input@ == self.statement(),
    {
        SigmaProtocolPublicInput {
            r1: self.r1.clone(),
            r2: self.r2.clone(),
            z: self.z.clone(),
            o: self.o.clone(),
            k_two: self.k_two.clone(),
        }
    }

    /// What the succinct proof of the key speaks of: the squared secret and
    /// the digest.
    pub fn to_key_validation_input(&self) -> (input: KeyValidationPublicInput)
        ensures
            input.k_two@ == self.k_two@,
            input.k_hash_value == self.k_hash_value,
    {
        KeyValidationPublicInput {
            k_two: self.k_two.clone(),
            k_hash_value: self.k_hash_value,
        }
    }
}

/// The third parameter of a puzzle of depth `t`: the generator squared
/// `t + 1` times, each squaring reduced by the modulus.
pub open spec fn puzzle_target(g: nat, n: nat, t: nat) -> nat {
    repeated_square(g, t + 1, n)
}

/// The third parameter is the generator to the power two to the `t + 1`.
pub proof fn lemma_puzzle_target(g: nat, n: nat, t: nat)
    requires
        n > 0,
    ensures
        puzzle_target(g, n, t) == pow(g as int, pow2(t + 1)) % (n as int),
{
    lemma_repeated_square(g, t + 1, n);
}

/// The parameters of a puzzle of depth `t` over the given generator and
/// modulus. The generator is squared `t` times in sequence, and once more.
pub fn generate_time_lock_puzzle_param_with(g: &BigNat, n: &BigNat, t: u32) -> (param:
    TimeLockPuzzleParam)
    requires
        n@ > 0,
    ensures
        param.g@ == g@,
        param.n@ == n@,
        param.y_two@ == puzzle_target(g@, n@, t as nat),
{
    let y = sequential_squares(g, t, n);
    let y_two = mul_mod(&y, &y, n);
    TimeLockPuzzleParam { g: g.clone(), n: n.clone(), y_two }
}

/// The modulus of the standard puzzle.
pub fn standard_modulus_big() -> (n: BigNat)
    ensures
        n@ == standard_modulus(),
{
    let bytes = N_BYTES;
    BigNat::from_bytes_be(bytes.as_slice())
}

/// The parameters of the standard puzzle of depth `t`.
pub fn generate_time_lock_puzzle_param(t: u32) -> (param: TimeLockPuzzleParam)
    ensures
        param.g@ == standard_generator(),
        param.n@ == standard_modulus(),
        param.y_two@ == puzzle_target(standard_generator(), standard_modulus(), t as nat),
{
    let g = BigNat::from_u64(5);
    let n = standard_modulus_big();
    proof {
        lemma_standard_modulus_bounds();
    }
    generate_time_lock_puzzle_param_with(&g, &n, t)
}

/// The solution of a puzzle: `o` squared `t` times, reduced by `n`.
pub open spec fn puzzle_solution(o: nat, t: nat, n: nat) -> nat {
    (pow(o as int, pow2(t)) % (n as int)) as nat
}

/// Solves a puzzle: raises `o` to the power two to the `t`.
pub fn solve_time_lock_puzzle(o: &BigNat, t: u32, n: &BigNat) -> (k: BigNat)
    requires
        n@ > 0,
    ensures
        k@ == puzzle_solution(o@, t as nat, n@),
{
    let two = BigNat::from_u64(2);
    let two_t = big_pow(&two, t);
    proof {
        lemma_pow2(t as nat);
        crate::modular::lemma_pow_nonnegative(o@, pow2(t as nat));
    }
    big_modpow(o, &two_t, n)
}

/// The key that a solved puzzle opens: the digest of the solution. Fails
/// when the solution has more than [`BITS_LEN`] bits, which a modulus of at
/// most that many bits rules out.
pub fn get_decryption_key(o: &BigNat, t: u32, n: &BigNat) -> (key: Result<HashValue, String>)
    requires
        n@ > 0,
    ensures
        key is Ok <==> puzzle_solution(o@, t as nat, n@) < pow2(BITS_LEN as nat),
        key matches Ok(digest) ==> digest.value(0) == hash_words(
            puzzle_solution(o@, t as nat, n@),
        ).0 && digest.value(1) == hash_words(puzzle_solution(o@, t as nat, n@)).1,
{
    let k = solve_time_lock_puzzle(o, t, n);
    if !fits_in_limbs(&k, LIMB_COUNT, LIMB_WIDTH) {
        return Err("the solution does not fit the hash".to_owned());
    }
    Ok(hash(&k))
}

/// What is public of a puzzle whose secret is `k`, for the blinding
/// exponents `r` and `s`: the sigma protocol's statement and the digest of
/// `k`.
pub fn time_lock_puzzle_public_input_from(
    k: &BigNat,
    g: &BigNat,
    n: &BigNat,
    y_two: &BigNat,
    r: &BigNat,
    s: &BigNat,
) -> (input: TimeLockPuzzlePublicInput)
    requires
        0 < n@ <= pow2(BITS_LEN as nat),
        k@ < pow2(BITS_LEN as nat),
    ensures
        input.statement() == sigma_generated(SigmaParam { n: n@, g: g@, y_two: y_two@ }, r@, s@),
        input.k_hash_value.value(0) == hash_words(k@).0,
        input.k_hash_value.value(1) == hash_words(k@).1,
{
    let param = SigmaProtocolParam { n: n.clone(), g: g.clone(), y_two: y_two.clone() };
    let statement = generate_sigma_protocol_public_input(&param, r, s);
    let k_hash_value = hash(k);
    TimeLockPuzzlePublicInput {
        r1: statement.r1,
        r2: statement.r2,
        z: statement.z,
        o: statement.o,
        k_two: statement.k_two,
        k_hash_value,
    }
}

/// What is public of a puzzle whose secret is `k`, with fresh blinding
/// exponents of [`BLINDING_BITS`] bits each.
pub fn generate_time_lock_puzzle_public_input(
    k: &BigNat,
    g: &BigNat,
    n: &BigNat,
    y_two: &BigNat,
) -> (input: TimeLockPuzzlePublicInput)
    requires
        0 < n@ <= pow2(BITS_LEN as nat),
        k@ < pow2(BITS_LEN as nat),
    ensures
        exists|r: nat, s: nat|
            r < pow2(BLINDING_BITS as nat) && s < pow2(BLINDING_BITS as nat)
                && input.statement() == #[trigger] sigma_generated(
                SigmaParam { n: n@, g: g@, y_two: y_two@ },
                r,
                s,
            ),
        sigma_accepts(input.statement(), SigmaParam { n: n@, g: g@, y_two: y_two@ }),
        input.k_hash_value.value(0) == hash_words(k@).0,
        input.k_hash_value.value(1) == hash_words(k@).1,
{
    let r = random_bits(BLINDING_BITS);
    let s = random_bits(BLINDING_BITS);
    proof {
        crate::time_lock_puzzle::sigma_protocol::lemma_sigma_complete(
            SigmaParam { n: n@, g: g@, y_two: y_two@ },
            r@,
            s@,
        );
    }
    time_lock_puzzle_public_input_from(k, g, n, y_two, &r, &s)
}

/// A whole puzzle of depth `t` for the blinding exponents `r` and `s`: the
/// secret is the generator squared `t` times and raised to `s`.
pub fn time_lock_puzzle_from(param: &TimeLockPuzzleParam, t: u32, r: &BigNat, s: &BigNat) -> (puzzle:
    (
        SigmaProtocolPublicInput,
        KeyValidationParam,
        KeyValidationPublicInput,
        KeyValidationSecretInput,
    ))
    requires
        0 < param.n@ <= pow2(BITS_LEN as nat),
    ensures
        puzzle.0@ == sigma_generated(param.sigma(), r@, s@),
        puzzle.1.n@ == param.n@,
        puzzle.3.k@ == puzzle_secret(param.g@, param.n@, t as nat, s@),
        puzzle.2.k_two@ == puzzle.0@.k_two,
        puzzle.2.k_hash_value.value(0) == hash_words(puzzle.3.k@).0,
        puzzle.2.k_hash_value.value(1) == hash_words(puzzle.3.k@).1,
{
    let sigma_param = param.to_sigma_param();
    let statement = generate_sigma_protocol_public_input(&sigma_param, r, s);
    let y = sequential_squares(&param.g, t, &param.n);
    let k = big_modpow(&y, s, &param.n);
    proof {
        crate::modular::lemma_pow_nonnegative(y@, s@);
    }
    let k_two = statement.k_two.clone();
    let k_hash_value = hash(&k);
    (
        statement,
        KeyValidationParam { n: param.n.clone() },
        KeyValidationPublicInput { k_two, k_hash_value },
        KeyValidationSecretInput { k },
    )
}

/// The secret of a puzzle of depth `t` for the exponent `s`.
pub open spec fn puzzle_secret(g: nat, n: nat, t: nat, s: nat) -> nat {
    (pow(repeated_square(g, t, n) as int, s) % (n as int)) as nat
}

/// The solver reaches the secret: whoever raises the public power `g^s` to
/// the power two to the `t` gets the secret that the setter made from `s`.
pub proof fn lemma_solver_reaches_secret(g: nat, n: nat, t: nat, s: nat)
    requires
        n > 0,
    ensures
        puzzle_solution(power_mod(g, s, n), t, n) == puzzle_secret(g, n, t, s),
{
    let m = n as int;
    let e = pow2(t);
    let gs = pow(g as int, s);
    crate::modular::lemma_pow_nonnegative(g, s);
    crate::modular::lemma_pow_nonnegative(g, e);
    vstd::arithmetic::div_mod::lemma_mod_bound(gs, m);
    vstd::arithmetic::power::lemma_pow_mod_noop(gs, e, m);
    vstd::arithmetic::power::lemma_pow_multiplies(g as int, s, e);
    assert(s * e == e * s) by (nonlinear_arith);
    vstd::arithmetic::power::lemma_pow_multiplies(g as int, e, s);
    if t == 0 {
        assert(e == 1) by {
            vstd::arithmetic::power2::lemma2_to64();
        }
        vstd::arithmetic::power::lemma_pow1(g as int);
    } else {
        lemma_repeated_square(g, t, n);
        vstd::arithmetic::power::lemma_pow_mod_noop(pow(g as int, e), s, m);
    }
}

/// The public square is the square of the secret: the third parameter raised
/// to `s` is the secret for `s` times itself, reduced by the modulus.
pub proof fn lemma_public_square(g: nat, n: nat, t: nat, s: nat)
    requires
        n > 0,
    ensures
        power_mod(puzzle_target(g, n, t), s, n) == (puzzle_secret(g, n, t, s) * puzzle_secret(
            g,
            n,
            t,
            s,
        )) % n,
{
    let m = n as int;
    let y = repeated_square(g, t, n) as int;
    let ys = pow(y, s);
    crate::modular::lemma_pow_nonnegative(y as nat, s);
    assert(puzzle_target(g, n, t) == (y * y) % m);
    vstd::arithmetic::power::lemma_pow_mod_noop(y * y, s, m);
    vstd::arithmetic::power::lemma_pow_distributes(y, y, s);
    vstd::arithmetic::div_mod::lemma_mul_mod_noop_general(ys, ys, m);
    vstd::arithmetic::div_mod::lemma_mod_bound(ys, m);
    assert(y * y >= 0) by (nonlinear_arith)
        requires
            y >= 0,
    ;
    crate::modular::lemma_pow_nonnegative((y * y) as nat, s);
    vstd::arithmetic::div_mod::lemma_mod_bound(y * y, m);
    crate::modular::lemma_pow_nonnegative(((y * y) % m) as nat, s);
}

/// What a whole puzzle of depth `t` is for the blinding exponents `r` and
/// `s`: the statement that the prover makes for them, and the secret for `s`.
pub open spec fn puzzle_for(
    statement: SigmaStatement,
    k: nat,
    param: SigmaParam,
    t: nat,
    r: nat,
    s: nat,
) -> bool {
    statement == sigma_generated(param, r, s) && k == puzzle_secret(param.g, param.n, t, s)
}

/// A whole puzzle of depth `t` with fresh blinding exponents of
/// [`BLINDING_BITS`] bits each.
pub fn generate_time_lock_puzzle(param: &TimeLockPuzzleParam, t: u32) -> (puzzle: (
    SigmaProtocolPublicInput,
    KeyValidationParam,
    KeyValidationPublicInput,
    KeyValidationSecretInput,
))
    requires
        0 < param.n@ <= pow2(BITS_LEN as nat),
    ensures
        exists|r: nat, s: nat|
            r < pow2(BLINDING_BITS as nat) && s < pow2(BLINDING_BITS as nat) && #[trigger] puzzle_for(
                puzzle.0@,
                puzzle.3.k@,
                param.sigma(),
                t as nat,
                r,
                s,
            ),
        sigma_accepts(puzzle.0@, param.sigma()),
        puzzle.1.n@ == param.n@,
        puzzle.2.k_two@ == puzzle.0@.k_two,
        puzzle.2.k_hash_value.value(0) == hash_words(puzzle.3.k@).0,
        puzzle.2.k_hash_value.value(1) == hash_words(puzzle.3.k@).1,
{
    let r = random_bits(BLINDING_BITS);
    let s = random_bits(BLINDING_BITS);
    proof {
        crate::time_lock_puzzle::sigma_protocol::lemma_sigma_complete(param.sigma(), r@, s@);
    }
    let puzzle = time_lock_puzzle_from(param, t, &r, &s);
    proof {
        assert(puzzle_for(puzzle.0@, puzzle.3.k@, param.sigma(), t as nat, r@, s@));
    }
    puzzle
}

/// A secret below the modulus, drawn at random.
pub fn generate_k(n: &BigNat) -> (k: BigNat)
    requires
        n@ > 0,
    ensures
        k@ < n@,
        exists|wide: nat|
            wide < pow2(BITS_LEN as nat) && k@ == #[trigger] secret_of_draw(wide, n@),
{
    let wide = random_bits(BITS_LEN as u64);
    secret_from_draw(&wide, n)
}

/// The secret that a draw gives under a modulus: the draw reduced by the
/// modulus.
pub open spec fn secret_of_draw(wide: nat, n: nat) -> nat {
    wide % n
}

/// The secret that a draw of [`BITS_LEN`] bits gives under a modulus.
pub fn secret_from_draw(wide: &BigNat, n: &BigNat) -> (k: BigNat)
    requires
        n@ > 0,
    ensures
        k@ == secret_of_draw(wide@, n@),
        k@ < n@,
{
    crate::bigint::big_rem(wide, n)
}

/// The square of a secret, reduced by the modulus.
pub fn calculate_k_two(k: &BigNat, n: &BigNat) -> (k_two: BigNat)
    requires
        n@ > 0,
    ensures
        k_two@ == (k@ * k@) % n@,
{
    let two = BigNat::from_u64(2);
    proof {
        vstd::arithmetic::power::lemma_pow_adds(k@ as int, 1, 1);
        vstd::arithmetic::power::lemma_pow1(k@ as int);
        crate::modular::lemma_pow_nonnegative(k@, 2);
    }
    crate::modular::big_pow_mod(k, &two, n)
}

/// Whether a digest is the digest of `k`.
pub fn check_hash(k: &BigNat, check_hash_value: &HashValue) -> (same: bool)
    requires
        k@ < pow2(BITS_LEN as nat),
    ensures
        same == (check_hash_value.value(0) == hash_words(k@).0 && check_hash_value.value(1)
            == hash_words(k@).1),
{
    let hash_value = hash(k);
    let first = bytes_equal(check_hash_value.get(0), hash_value.get(0));
    let second = bytes_equal(check_hash_value.get(1), hash_value.get(1));
    first && second
}

/// Whether two strings of 32 bytes spell the same number.
fn bytes_equal(a: &[u8; 32], b: &[u8; 32]) -> (same: bool)
    ensures
        same == (crate::bigint::le_value(a@) == crate::bigint::le_value(b@)),
{
    let mut same = true;
    let mut i: usize = 0;
    while i < 32
        invariant
            i <= 32,
            same == (forall|k: int| 0 <= k < i ==> a@[k] == b@[k]),
        decreases 32 - i,
    {
        if a[i] != b[i] {
            same = false;
        }
        i = i + 1;
    }
    proof {
        if same {
            assert(a@ =~= b@);
        } else if crate::bigint::le_value(a@) == crate::bigint::le_value(b@) {
            crate::bigint::lemma_le_value_injective(a@, b@);
        }
    }
    same
}

/// What the succinct prover is handed for a puzzle: the modulus, the public
/// pair and the secret.
pub fn key_validation_inputs(
    public_input: &TimeLockPuzzlePublicInput,
    secret_input: &TimeLockPuzzleSecretInput,
    param: &TimeLockPuzzleParam,
) -> (inputs: (KeyValidationParam, KeyValidationPublicInput, KeyValidationSecretInput))
    ensures
        inputs.0.n@ == param.n@,
        inputs.1.k_two@ == public_input.k_two@,
        inputs.1.k_hash_value == public_input.k_hash_value,
        inputs.2.k@ == secret_input.k@,
{
    (
        KeyValidationParam { n: param.n.clone() },
        public_input.to_key_validation_input(),
        KeyValidationSecretInput { k: secret_input.k.clone() },
    )
}

/// Proves a puzzle valid: the succinct prover is called on the inputs that
/// the puzzle gives it, and its proof is handed back.
pub fn prove_time_lock_puzzle_validity<F>(
    public_input: &TimeLockPuzzlePublicInput,
    secret_input: &TimeLockPuzzleSecretInput,
    param: &TimeLockPuzzleParam,
    prove_key_validity: F,
) -> (proof_bytes: Vec<u8>) where
    F: FnOnce(&KeyValidationParam, &KeyValidationPublicInput, &KeyValidationSecretInput) -> Vec<u8>,

    requires
        forall|p: &KeyValidationParam, i: &KeyValidationPublicInput, s: &KeyValidationSecretInput|
            call_requires(prove_key_validity, (p, i, s)),
    ensures
        exists|p: KeyValidationParam, i: KeyValidationPublicInput, s: KeyValidationSecretInput|
            p.n@ == param.n@ && i.k_two@ == public_input.k_two@ && i.k_hash_value
                == public_input.k_hash_value && s.k@ == secret_input.k@ && #[trigger] call_ensures(
                prove_key_validity,
                (&p, &i, &s),
                proof_bytes,
            ),
{
    let inputs = key_validation_inputs(public_input, secret_input, param);
    prove_key_validity(&inputs.0, &inputs.1, &inputs.2)
}

/// The first stage of verification: the sigma protocol. Gives what the
/// succinct verifier is to check next, or nothing when the sigma protocol
/// has already refused the puzzle.
pub fn check_sigma_stage(public_input: &TimeLockPuzzlePublicInput, param: &TimeLockPuzzleParam) -> (next:
    Option<KeyValidationPublicInput>)
    requires
        param.n@ > 0,
    ensures
        next is Some <==> sigma_accepts(public_input.statement(), param.sigma()),
        next matches Some(input) ==> input.k_two@ == public_input.k_two@ && input.k_hash_value
            == public_input.k_hash_value,
{
    let statement = public_input.to_sigma_input();
    let sigma_param = param.to_sigma_param();
    if !verify(&statement, &sigma_param) {
        return None;
    }
    Some(public_input.to_key_validation_input())
}

/// Verifies a puzzle: the sigma protocol is checked first, and only a
/// puzzle that passes it is handed to the succinct verifier, whose answer is
/// then the verdict. The succinct verifier need not take any input unless the
/// sigma protocol accepts the puzzle: it is not called on one that fails it.
pub fn verify_time_lock_puzzle_zkp<F>(
    public_input: &TimeLockPuzzlePublicInput,
    param: &TimeLockPuzzleParam,
    verify_key_validity: F,
) -> (valid: bool) where F: FnOnce(&KeyValidationPublicInput) -> bool
    requires
        param.n@ > 0,
        sigma_accepts(public_input.statement(), param.sigma()) ==> forall|
            i: &KeyValidationPublicInput,
        | call_requires(verify_key_validity, (i,)),
    ensures
        !sigma_accepts(public_input.statement(), param.sigma()) ==> !valid,
        sigma_accepts(public_input.statement(), param.sigma()) ==> exists|
            i: KeyValidationPublicInput,
        |
            i.k_two@ == public_input.k_two@ && i.k_hash_value == public_input.k_hash_value
                && #[trigger] call_ensures(verify_key_validity, (&i,), valid),
{
    match check_sigma_stage(public_input, param) {
        None => false,
        Some(input) => verify_key_validity(&input),
    }
}

} // verus!
