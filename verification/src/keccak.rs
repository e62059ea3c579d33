//! Keccak-p[1600, nr] (FIPS 202 §3.3): the permutation every sponge of this
//! crate runs, stated step by step as the standard writes it, and an
//! implementation that keeps six lanes complemented across rounds and is
//! proved to compute it.
use vstd::prelude::*;

verus! {

/// The 24 round constants RC[ir] of the iota step (FIPS 202 §3.2.5).
pub const RC: [u64; 24] = [
    0x0000000000000001u64,
    0x0000000000008082u64,
    0x800000000000808au64,
    0x8000000080008000u64,
    0x000000000000808bu64,
    0x0000000080000001u64,
    0x8000000080008081u64,
    0x8000000000008009u64,
    0x000000000000008au64,
    0x0000000000000088u64,
    0x0000000080008009u64,
    0x000000008000000au64,
    0x000000008000808bu64,
    0x800000000000008bu64,
    0x8000000000008089u64,
    0x8000000000008003u64,
    0x8000000000008002u64,
    0x8000000000000080u64,
    0x000000000000800au64,
    0x800000008000000au64,
    0x8000000080008081u64,
    0x8000000000008080u64,
    0x0000000080000001u64,
    0x8000000080008008u64,
];

/// The round constant of round `ir`.
pub open spec fn round_constant(ir: int) -> u64 {
    RC@[ir]
}

/// `ROT(W, n)`: a lane rotated towards its most significant bit by `n`.
pub open spec fn rotl(x: u64, n: u64) -> u64 {
    if n == 0 {
        x
    } else {
        (x << n) | (x >> ((64 - n) as u64))
    }
}

/// The rotation offsets of the rho step, indexed by lane `x + 5 y`
/// (FIPS 202 Table 2).
pub open spec fn rho_offset(i: int) -> u64 {
    seq![
        0u64, 1, 62, 28, 27,
        36, 44, 6, 55, 20,
        3, 10, 43, 25, 39,
        41, 45, 15, 21, 8,
        18, 2, 61, 56, 14,
    ][i]
}

/// Parity of column `x`: `C[x] = A[x,0] ^ A[x,1] ^ A[x,2] ^ A[x,3] ^ A[x,4]`.
pub open spec fn theta_c(a: Seq<u64>, x: int) -> u64 {
    a[x] ^ a[x + 5] ^ a[x + 10] ^ a[x + 15] ^ a[x + 20]
}

/// `D[x] = C[x - 1] ^ ROT(C[x + 1], 1)`.
pub open spec fn theta_d(a: Seq<u64>, x: int) -> u64 {
    theta_c(a, (x + 4) % 5) ^ rotl(theta_c(a, (x + 1) % 5), 1)
}

/// theta: every lane is XORed with `D` of its column.
pub open spec fn theta(a: Seq<u64>) -> Seq<u64> {
    Seq::new(25, |i: int| a[i] ^ theta_d(a, i % 5))
}

/// rho: every lane is rotated by its offset.
pub open spec fn rho(a: Seq<u64>) -> Seq<u64> {
    Seq::new(25, |i: int| rotl(a[i], rho_offset(i)))
}

/// pi: `A'[x, y] = A[(x + 3 y) mod 5, x]`.
pub open spec fn pi(a: Seq<u64>) -> Seq<u64> {
    Seq::new(25, |i: int| a[(i % 5 + 3 * (i / 5)) % 5 + 5 * (i % 5)])
}

/// chi: `A'[x, y] = A[x, y] ^ (!A[x + 1, y] & A[x + 2, y])`.
pub open spec fn chi(a: Seq<u64>) -> Seq<u64> {
    Seq::new(
        25,
        |i: int|
            a[i] ^ (!a[(i % 5 + 1) % 5 + 5 * (i / 5)] & a[(i % 5 + 2) % 5 + 5 * (i / 5)]),
    )
}

/// iota: lane `(0, 0)` is XORed with the round constant.
pub open spec fn iota(a: Seq<u64>, rc: u64) -> Seq<u64> {
    a.update(0, a[0] ^ rc)
}

/// One round `Rnd(A, ir) = iota(chi(pi(rho(theta(A)))), ir)`.
#[verifier::opaque]
pub open spec fn keccak_round(a: Seq<u64>, rc: u64) -> Seq<u64> {
    iota(chi(pi(rho(theta(a)))), rc)
}

/// Rounds `first .. last` applied in order to the state `a`.
pub open spec fn apply_rounds(a: Seq<u64>, first: int, last: int) -> Seq<u64>
    decreases last - first,
{
    if last <= first {
        a
    } else {
        keccak_round(apply_rounds(a, first, last - 1), round_constant(last - 1))
    }
}

/// Keccak-p[1600, nr]: the last `nr` of the 24 rounds of Keccak-f[1600].
pub open spec fn keccak_p(a: Seq<u64>, nr: int) -> Seq<u64> {
    apply_rounds(a, 24 - nr, 24)
}

/// The number of rounds: 24 for SHAKE (Keccak-f[1600]), 12 for TurboSHAKE.
pub open spec fn rounds(turbo: bool) -> int {
    if turbo {
        12
    } else {
        24
    }
}

/// `x`, or its complement where `f` holds.
pub open spec fn flip(x: u64, f: bool) -> u64 {
    if f {
        !x
    } else {
        x
    }
}

/// The lanes that the implementation keeps complemented between rounds:
/// `{1, 2, 8, 12, 17, 20}`.
pub open spec fn complemented_lane(i: int) -> bool {
    i == 1 || i == 2 || i == 8 || i == 12 || i == 17 || i == 20
}

/// A state with the lanes of `complemented_lane` complemented.
pub open spec fn complement_lanes(a: Seq<u64>) -> Seq<u64> {
    Seq::new(25, |i: int| flip(a[i], complemented_lane(i)))
}

proof fn lemma_flip_flip(x: u64, f: bool)
    ensures
        flip(flip(x, f), f) == x,
{
    assert(!!x == x) by (bit_vector);
}

proof fn lemma_complement_involution(a: Seq<u64>)
    requires
        a.len() == 25,
    ensures
        complement_lanes(complement_lanes(a)) == a,
{
    assert forall|i: int| 0 <= i < 25 implies #[trigger] complement_lanes(complement_lanes(a))[i]
        == a[i] by {
        lemma_flip_flip(a[i], complemented_lane(i));
    }
    assert(complement_lanes(complement_lanes(a)) =~= a);
}

/// XOR of five lanes of which some are complemented.
proof fn lemma_xor5_flip(
    a0: u64,
    a1: u64,
    a2: u64,
    a3: u64,
    a4: u64,
    f0: bool,
    f1: bool,
    f2: bool,
    f3: bool,
    f4: bool,
)
    ensures
        flip(a0, f0) ^ flip(a1, f1) ^ flip(a2, f2) ^ flip(a3, f3) ^ flip(a4, f4) == flip(
            a0 ^ a1 ^ a2 ^ a3 ^ a4,
            f0 ^ f1 ^ f2 ^ f3 ^ f4,
        ),
{
    assert(flip(a0, f0) ^ flip(a1, f1) ^ flip(a2, f2) ^ flip(a3, f3) ^ flip(a4, f4) == flip(
        a0 ^ a1 ^ a2 ^ a3 ^ a4,
        f0 ^ f1 ^ f2 ^ f3 ^ f4,
    )) by (bit_vector);
}

/// `D` from possibly complemented column parities.
proof fn lemma_d_flip(cl: u64, cr: u64, fl: bool, fr: bool)
    ensures
        flip(cl, fl) ^ rotl(flip(cr, fr), 1) == flip(cl ^ rotl(cr, 1), fl != fr),
{
    assert(flip(cl, fl) ^ rotl(flip(cr, fr), 1) == flip(cl ^ rotl(cr, 1), fl != fr))
        by (bit_vector);
}

/// Rotation commutes with complement.
proof fn lemma_rotl_not(x: u64, r: u64)
    requires
        r < 64,
    ensures
        rotl(!x, r) == !rotl(x, r),
{
    if r != 0 {
        assert((!x << r) | (!x >> ((64 - r) as u64)) == !((x << r) | (x >> ((64 - r) as u64))))
            by (bit_vector)
            requires
                0 < r < 64,
        ;
    }
}

/// A lane after theta, rho and pi, from possibly complemented inputs.
proof fn lemma_b_flip(s: u64, d: u64, fs: bool, fd: bool, r: u64)
    requires
        r < 64,
    ensures
        rotl(flip(s, fs) ^ flip(d, fd), r) == flip(rotl(s ^ d, r), fs != fd),
{
    assert(flip(s, fs) ^ flip(d, fd) == flip(s ^ d, fs != fd)) by (bit_vector);
    lemma_rotl_not(s ^ d, r);
}

/// With the state `s` held complemented on `complemented_lane`, the column
/// parities and `D` values that a round computes from it.
proof fn lemma_theta(
    s: Seq<u64>,
    c0: u64,
    c1: u64,
    c2: u64,
    c3: u64,
    c4: u64,
    d0: u64,
    d1: u64,
    d2: u64,
    d3: u64,
    d4: u64,
)
    requires
        s.len() == 25,
        c0 == s[0] ^ s[5] ^ s[10] ^ s[15] ^ s[20],
        c1 == s[1] ^ s[6] ^ s[11] ^ s[16] ^ s[21],
        c2 == s[2] ^ s[7] ^ s[12] ^ s[17] ^ s[22],
        c3 == s[3] ^ s[8] ^ s[13] ^ s[18] ^ s[23],
        c4 == s[4] ^ s[9] ^ s[14] ^ s[19] ^ s[24],
        d0 == c4 ^ rotl(c1, 1),
        d1 == c0 ^ rotl(c2, 1),
        d2 == c1 ^ rotl(c3, 1),
        d3 == c2 ^ rotl(c4, 1),
        d4 == c3 ^ rotl(c0, 1),
    ensures
        theta_d(complement_lanes(s), 0) == !d0,
        theta_d(complement_lanes(s), 1) == d1,
        theta_d(complement_lanes(s), 2) == d2,
        theta_d(complement_lanes(s), 3) == !d3,
        theta_d(complement_lanes(s), 4) == d4,
{
    let a = complement_lanes(s);
    lemma_xor5_flip(s[0], s[5], s[10], s[15], s[20], false, false, false, false, true);
    lemma_xor5_flip(s[1], s[6], s[11], s[16], s[21], true, false, false, false, false);
    lemma_xor5_flip(s[2], s[7], s[12], s[17], s[22], true, false, true, true, false);
    lemma_xor5_flip(s[3], s[8], s[13], s[18], s[23], false, true, false, false, false);
    lemma_xor5_flip(s[4], s[9], s[14], s[19], s[24], false, false, false, false, false);
    assert(theta_c(a, 0) == !c0);
    assert(theta_c(a, 1) == !c1);
    assert(theta_c(a, 2) == !c2);
    assert(theta_c(a, 3) == !c3);
    assert(theta_c(a, 4) == c4);
    lemma_d_flip(c4, c1, false, true);
    lemma_d_flip(c0, c2, true, true);
    lemma_d_flip(c1, c3, true, true);
    lemma_d_flip(c2, c4, true, false);
    lemma_d_flip(c3, c0, true, true);
}

/// A lane of `pi(rho(theta(A)))` in terms of the complemented state `s`
/// and the `D` value the implementation holds for its source column.
proof fn lemma_lane(s: Seq<u64>, d: u64, k: int, src: int, fd: bool)
    requires
        s.len() == 25,
        0 <= k < 25,
        src == (k % 5 + 3 * (k / 5)) % 5 + 5 * (k % 5),
        rho_offset(src) < 64,
        theta_d(complement_lanes(s), src % 5) == flip(d, fd),
    ensures
        pi(rho(theta(complement_lanes(s))))[k] == flip(
            rotl(s[src] ^ d, rho_offset(src)),
            complemented_lane(src) != fd,
        ),
{
    lemma_b_flip(s[src], d, complemented_lane(src), fd, rho_offset(src));
}

/// chi on row 0 as the round computes it, from inputs of which some
/// arrive complemented, to outputs of which some are stored complemented.
proof fn lemma_chi_row0(b0: u64, b1: u64, b2: u64, b3: u64, b4: u64, rc: u64)
    ensures
        b0 ^ (b1 | b2) ^ rc == flip(flip(b0, true) ^ (!flip(b1, false) & flip(b2, true)) ^ rc, false),
        b1 ^ ((!b2) | b3) == flip(flip(b1, false) ^ (!flip(b2, true) & flip(b3, true)), true),
        b2 ^ (b3 & b4) == flip(flip(b2, true) ^ (!flip(b3, true) & flip(b4, false)), true),
        b3 ^ (b4 | b0) == flip(flip(b3, true) ^ (!flip(b4, false) & flip(b0, true)), false),
        b4 ^ (b0 & b1) == flip(flip(b4, false) ^ (!flip(b0, true) & flip(b1, false)), false),
{
    assert((b0 ^ (b1 | b2) ^ rc == flip(flip(b0, true) ^ (!flip(b1, false) & flip(b2, true)) ^ rc, false))
        && (b1 ^ ((!b2) | b3) == flip(flip(b1, false) ^ (!flip(b2, true) & flip(b3, true)), true))
        && (b2 ^ (b3 & b4) == flip(flip(b2, true) ^ (!flip(b3, true) & flip(b4, false)), true))
        && (b3 ^ (b4 | b0) == flip(flip(b3, true) ^ (!flip(b4, false) & flip(b0, true)), false))
        && (b4 ^ (b0 & b1) == flip(flip(b4, false) ^ (!flip(b0, true) & flip(b1, false)), false))) by (bit_vector);
}

/// Row 0 of a round on a state held complemented: the lanes it writes
/// are those of the FIPS 202 round, complemented where the state keeps them
/// so.
proof fn lemma_row0(s: Seq<u64>, d0: u64, d1: u64, d2: u64, d3: u64, d4: u64, rc: u64)
    requires
        s.len() == 25,
        theta_d(complement_lanes(s), 0) == !d0,
        theta_d(complement_lanes(s), 1) == d1,
        theta_d(complement_lanes(s), 2) == d2,
        theta_d(complement_lanes(s), 3) == !d3,
        theta_d(complement_lanes(s), 4) == d4,
    ensures
        ({
            let out = complement_lanes(keccak_round(complement_lanes(s), rc));
            let b0 = s[0] ^ d0;
            let b1 = rotl(s[6] ^ d1, 44);
            let b2 = rotl(s[12] ^ d2, 43);
            let b3 = rotl(s[18] ^ d3, 21);
            let b4 = rotl(s[24] ^ d4, 14);
            &&& out[0] == b0 ^ (b1 | b2) ^ rc
            &&& out[1] == b1 ^ ((!b2) | b3)
            &&& out[2] == b2 ^ (b3 & b4)
            &&& out[3] == b3 ^ (b4 | b0)
            &&& out[4] == b4 ^ (b0 & b1)
        }),
{
    reveal(keccak_round);
    lemma_lane(s, d0, 0, 0, true);
    lemma_lane(s, d1, 1, 6, false);
    lemma_lane(s, d2, 2, 12, false);
    lemma_lane(s, d3, 3, 18, true);
    lemma_lane(s, d4, 4, 24, false);
    let b0 = s[0] ^ d0;
    let b1 = rotl(s[6] ^ d1, 44);
    let b2 = rotl(s[12] ^ d2, 43);
    let b3 = rotl(s[18] ^ d3, 21);
    let b4 = rotl(s[24] ^ d4, 14);
    lemma_chi_row0(b0, b1, b2, b3, b4, rc);
}

/// chi on row 1 as the round computes it, from inputs of which some
/// arrive complemented, to outputs of which some are stored complemented.
proof fn lemma_chi_row1(b0: u64, b1: u64, b2: u64, b3: u64, b4: u64)
    ensures
        b0 ^ (b1 | b2) == flip(flip(b0, true) ^ (!flip(b1, false) & flip(b2, true)), false),
        b1 ^ (b2 & b3) == flip(flip(b1, false) ^ (!flip(b2, true) & flip(b3, false)), false),
        (!b2) ^ b4 ^ (b3 & b4) == flip(flip(b2, true) ^ (!flip(b3, false) & flip(b4, false)), false),
        b3 ^ (b4 | b0) == flip(flip(b3, false) ^ (!flip(b4, false) & flip(b0, true)), true),
        b4 ^ (b0 & b1) == flip(flip(b4, false) ^ (!flip(b0, true) & flip(b1, false)), false),
{
    assert((b0 ^ (b1 | b2) == flip(flip(b0, true) ^ (!flip(b1, false) & flip(b2, true)), false))
        && (b1 ^ (b2 & b3) == flip(flip(b1, false) ^ (!flip(b2, true) & flip(b3, false)), false))
        && ((!b2) ^ b4 ^ (b3 & b4) == flip(flip(b2, true) ^ (!flip(b3, false) & flip(b4, false)), false))
        && (b3 ^ (b4 | b0) == flip(flip(b3, false) ^ (!flip(b4, false) & flip(b0, true)), true))
        && (b4 ^ (b0 & b1) == flip(flip(b4, false) ^ (!flip(b0, true) & flip(b1, false)), false))) by (bit_vector);
}

/// Row 1 of a round on a state held complemented: the lanes it writes
/// are those of the FIPS 202 round, complemented where the state keeps them
/// so.
proof fn lemma_row1(s: Seq<u64>, d0: u64, d1: u64, d2: u64, d3: u64, d4: u64, rc: u64)
    requires
        s.len() == 25,
        theta_d(complement_lanes(s), 0) == !d0,
        theta_d(complement_lanes(s), 1) == d1,
        theta_d(complement_lanes(s), 2) == d2,
        theta_d(complement_lanes(s), 3) == !d3,
        theta_d(complement_lanes(s), 4) == d4,
    ensures
        ({
            let out = complement_lanes(keccak_round(complement_lanes(s), rc));
            let b0 = rotl(s[3] ^ d3, 28);
            let b1 = rotl(s[9] ^ d4, 20);
            let b2 = rotl(s[10] ^ d0, 3);
            let b3 = rotl(s[16] ^ d1, 45);
            let b4 = rotl(s[22] ^ d2, 61);
            &&& out[5] == b0 ^ (b1 | b2)
            &&& out[6] == b1 ^ (b2 & b3)
            &&& out[7] == (!b2) ^ b4 ^ (b3 & b4)
            &&& out[8] == b3 ^ (b4 | b0)
            &&& out[9] == b4 ^ (b0 & b1)
        }),
{
    reveal(keccak_round);
    lemma_lane(s, d3, 5, 3, true);
    lemma_lane(s, d4, 6, 9, false);
    lemma_lane(s, d0, 7, 10, true);
    lemma_lane(s, d1, 8, 16, false);
    lemma_lane(s, d2, 9, 22, false);
    let b0 = rotl(s[3] ^ d3, 28);
    let b1 = rotl(s[9] ^ d4, 20);
    let b2 = rotl(s[10] ^ d0, 3);
    let b3 = rotl(s[16] ^ d1, 45);
    let b4 = rotl(s[22] ^ d2, 61);
    lemma_chi_row1(b0, b1, b2, b3, b4);
}

/// chi on row 2 as the round computes it, from inputs of which some
/// arrive complemented, to outputs of which some are stored complemented.
proof fn lemma_chi_row2(b0: u64, b1: u64, b2: u64, b3: u64, b4: u64)
    ensures
        b0 ^ (b1 | b2) == flip(flip(b0, true) ^ (!flip(b1, false) & flip(b2, true)), false),
        b1 ^ (b2 & b3) == flip(flip(b1, false) ^ (!flip(b2, true) & flip(b3, false)), false),
        b2 ^ b4 ^ (b3 & b4) == flip(flip(b2, true) ^ (!flip(b3, false) & flip(b4, false)), true),
        b3 ^ !(b4 | b0) == flip(flip(b3, false) ^ (!flip(b4, false) & flip(b0, true)), false),
        b4 ^ (b0 & b1) == flip(flip(b4, false) ^ (!flip(b0, true) & flip(b1, false)), false),
{
    assert((b0 ^ (b1 | b2) == flip(flip(b0, true) ^ (!flip(b1, false) & flip(b2, true)), false))
        && (b1 ^ (b2 & b3) == flip(flip(b1, false) ^ (!flip(b2, true) & flip(b3, false)), false))
        && (b2 ^ b4 ^ (b3 & b4) == flip(flip(b2, true) ^ (!flip(b3, false) & flip(b4, false)), true))
        && (b3 ^ !(b4 | b0) == flip(flip(b3, false) ^ (!flip(b4, false) & flip(b0, true)), false))
        && (b4 ^ (b0 & b1) == flip(flip(b4, false) ^ (!flip(b0, true) & flip(b1, false)), false))) by (bit_vector);
}

/// Row 2 of a round on a state held complemented: the lanes it writes
/// are those of the FIPS 202 round, complemented where the state keeps them
/// so.
proof fn lemma_row2(s: Seq<u64>, d0: u64, d1: u64, d2: u64, d3: u64, d4: u64, rc: u64)
    requires
        s.len() == 25,
        theta_d(complement_lanes(s), 0) == !d0,
        theta_d(complement_lanes(s), 1) == d1,
        theta_d(complement_lanes(s), 2) == d2,
        theta_d(complement_lanes(s), 3) == !d3,
        theta_d(complement_lanes(s), 4) == d4,
    ensures
        ({
            let out = complement_lanes(keccak_round(complement_lanes(s), rc));
            let b0 = rotl(s[1] ^ d1, 1);
            let b1 = rotl(s[7] ^ d2, 6);
            let b2 = rotl(s[13] ^ d3, 25);
            let b3 = rotl(s[19] ^ d4, 8);
            let b4 = rotl(s[20] ^ d0, 18);
            &&& out[10] == b0 ^ (b1 | b2)
            &&& out[11] == b1 ^ (b2 & b3)
            &&& out[12] == b2 ^ b4 ^ (b3 & b4)
            &&& out[13] == b3 ^ !(b4 | b0)
            &&& out[14] == b4 ^ (b0 & b1)
        }),
{
    reveal(keccak_round);
    lemma_lane(s, d1, 10, 1, false);
    lemma_lane(s, d2, 11, 7, false);
    lemma_lane(s, d3, 12, 13, true);
    lemma_lane(s, d4, 13, 19, false);
    lemma_lane(s, d0, 14, 20, true);
    let b0 = rotl(s[1] ^ d1, 1);
    let b1 = rotl(s[7] ^ d2, 6);
    let b2 = rotl(s[13] ^ d3, 25);
    let b3 = rotl(s[19] ^ d4, 8);
    let b4 = rotl(s[20] ^ d0, 18);
    lemma_chi_row2(b0, b1, b2, b3, b4);
}

/// chi on row 3 as the round computes it, from inputs of which some
/// arrive complemented, to outputs of which some are stored complemented.
proof fn lemma_chi_row3(b0: u64, b1: u64, b2: u64, b3: u64, b4: u64)
    ensures
        b0 ^ (b1 & b2) == flip(flip(b0, false) ^ (!flip(b1, true) & flip(b2, false)), false),
        b1 ^ (b2 | b3) == flip(flip(b1, true) ^ (!flip(b2, false) & flip(b3, true)), false),
        b2 ^ ((!b3) | b4) == flip(flip(b2, false) ^ (!flip(b3, true) & flip(b4, true)), true),
        (!b3) ^ (b4 & b0) == flip(flip(b3, true) ^ (!flip(b4, true) & flip(b0, false)), false),
        b4 ^ (b0 | b1) == flip(flip(b4, true) ^ (!flip(b0, false) & flip(b1, true)), false),
{
    assert((b0 ^ (b1 & b2) == flip(flip(b0, false) ^ (!flip(b1, true) & flip(b2, false)), false))
        && (b1 ^ (b2 | b3) == flip(flip(b1, true) ^ (!flip(b2, false) & flip(b3, true)), false))
        && (b2 ^ ((!b3) | b4) == flip(flip(b2, false) ^ (!flip(b3, true) & flip(b4, true)), true))
        && ((!b3) ^ (b4 & b0) == flip(flip(b3, true) ^ (!flip(b4, true) & flip(b0, false)), false))
        && (b4 ^ (b0 | b1) == flip(flip(b4, true) ^ (!flip(b0, false) & flip(b1, true)), false))) by (bit_vector);
}

/// Row 3 of a round on a state held complemented: the lanes it writes
/// are those of the FIPS 202 round, complemented where the state keeps them
/// so.
proof fn lemma_row3(s: Seq<u64>, d0: u64, d1: u64, d2: u64, d3: u64, d4: u64, rc: u64)
    requires
        s.len() == 25,
        theta_d(complement_lanes(s), 0) == !d0,
        theta_d(complement_lanes(s), 1) == d1,
        theta_d(complement_lanes(s), 2) == d2,
        theta_d(complement_lanes(s), 3) == !d3,
        theta_d(complement_lanes(s), 4) == d4,
    ensures
        ({
            let out = complement_lanes(keccak_round(complement_lanes(s), rc));
            let b0 = rotl(s[4] ^ d4, 27);
            let b1 = rotl(s[5] ^ d0, 36);
            let b2 = rotl(s[11] ^ d1, 10);
            let b3 = rotl(s[17] ^ d2, 15);
            let b4 = rotl(s[23] ^ d3, 56);
            &&& out[15] == b0 ^ (b1 & b2)
            &&& out[16] == b1 ^ (b2 | b3)
            &&& out[17] == b2 ^ ((!b3) | b4)
            &&& out[18] == (!b3) ^ (b4 & b0)
            &&& out[19] == b4 ^ (b0 | b1)
        }),
{
    reveal(keccak_round);
    lemma_lane(s, d4, 15, 4, false);
    lemma_lane(s, d0, 16, 5, true);
    lemma_lane(s, d1, 17, 11, false);
    lemma_lane(s, d2, 18, 17, false);
    lemma_lane(s, d3, 19, 23, true);
    let b0 = rotl(s[4] ^ d4, 27);
    let b1 = rotl(s[5] ^ d0, 36);
    let b2 = rotl(s[11] ^ d1, 10);
    let b3 = rotl(s[17] ^ d2, 15);
    let b4 = rotl(s[23] ^ d3, 56);
    lemma_chi_row3(b0, b1, b2, b3, b4);
}

/// chi on row 4 as the round computes it, from inputs of which some
/// arrive complemented, to outputs of which some are stored complemented.
proof fn lemma_chi_row4(b0: u64, b1: u64, b2: u64, b3: u64, b4: u64)
    ensures
        b0 ^ b2 ^ (b1 & b2) == flip(flip(b0, true) ^ (!flip(b1, false) & flip(b2, false)), true),
        b1 ^ !(b2 | b3) == flip(flip(b1, false) ^ (!flip(b2, false) & flip(b3, true)), false),
        b2 ^ (b3 & b4) == flip(flip(b2, false) ^ (!flip(b3, true) & flip(b4, false)), false),
        b3 ^ (b4 | b0) == flip(flip(b3, true) ^ (!flip(b4, false) & flip(b0, true)), false),
        b4 ^ (b0 & b1) == flip(flip(b4, false) ^ (!flip(b0, true) & flip(b1, false)), false),
{
    assert((b0 ^ b2 ^ (b1 & b2) == flip(flip(b0, true) ^ (!flip(b1, false) & flip(b2, false)), true))
        && (b1 ^ !(b2 | b3) == flip(flip(b1, false) ^ (!flip(b2, false) & flip(b3, true)), false))
        && (b2 ^ (b3 & b4) == flip(flip(b2, false) ^ (!flip(b3, true) & flip(b4, false)), false))
        && (b3 ^ (b4 | b0) == flip(flip(b3, true) ^ (!flip(b4, false) & flip(b0, true)), false))
        && (b4 ^ (b0 & b1) == flip(flip(b4, false) ^ (!flip(b0, true) & flip(b1, false)), false))) by (bit_vector);
}

/// Row 4 of a round on a state held complemented: the lanes it writes
/// are those of the FIPS 202 round, complemented where the state keeps them
/// so.
proof fn lemma_row4(s: Seq<u64>, d0: u64, d1: u64, d2: u64, d3: u64, d4: u64, rc: u64)
    requires
        s.len() == 25,
        theta_d(complement_lanes(s), 0) == !d0,
        theta_d(complement_lanes(s), 1) == d1,
        theta_d(complement_lanes(s), 2) == d2,
        theta_d(complement_lanes(s), 3) == !d3,
        theta_d(complement_lanes(s), 4) == d4,
    ensures
        ({
            let out = complement_lanes(keccak_round(complement_lanes(s), rc));
            let b0 = rotl(s[2] ^ d2, 62);
            let b1 = rotl(s[8] ^ d3, 55);
            let b2 = rotl(s[14] ^ d4, 39);
            let b3 = rotl(s[15] ^ d0, 41);
            let b4 = rotl(s[21] ^ d1, 2);
            &&& out[20] == b0 ^ b2 ^ (b1 & b2)
            &&& out[21] == b1 ^ !(b2 | b3)
            &&& out[22] == b2 ^ (b3 & b4)
            &&& out[23] == b3 ^ (b4 | b0)
            &&& out[24] == b4 ^ (b0 & b1)
        }),
{
    reveal(keccak_round);
    lemma_lane(s, d2, 20, 2, false);
    lemma_lane(s, d3, 21, 8, true);
    lemma_lane(s, d4, 22, 14, false);
    lemma_lane(s, d0, 23, 15, true);
    lemma_lane(s, d1, 24, 21, false);
    let b0 = rotl(s[2] ^ d2, 62);
    let b1 = rotl(s[8] ^ d3, 55);
    let b2 = rotl(s[14] ^ d4, 39);
    let b3 = rotl(s[15] ^ d0, 41);
    let b4 = rotl(s[21] ^ d1, 2);
    lemma_chi_row4(b0, b1, b2, b3, b4);
}

pub proof fn lemma_apply_rounds_len(a: Seq<u64>, first: int, last: int)
    requires
        a.len() == 25,
    ensures
        apply_rounds(a, first, last).len() == 25,
    decreases last - first,
{
    reveal(keccak_round);
    if last > first {
        lemma_apply_rounds_len(a, first, last - 1);
    }
}

/// Keccak-p maps 25 lanes to 25 lanes.
pub proof fn lemma_keccak_p_len(a: Seq<u64>, nr: int)
    requires
        a.len() == 25,
    ensures
        keccak_p(a, nr).len() == 25,
{
    lemma_apply_rounds_len(a, 24 - nr, 24);
}

/// `x` rotated left by `n` bits.
fn rotate_left(x: u64, n: u64) -> (r: u64)
    requires
        0 < n < 64,
    ensures
        r == rotl(x, n),
{
    (x << n) | (x >> (64 - n))
}

/// One round on a state held with the lanes of `complemented_lane`
/// complemented, which it keeps so. With that pattern every round needs the
/// same few complements, instead of one per lane in chi.
///
/// Rows are written back in place: the lanes of later rows that an earlier
/// row overwrites are saved first.
fn round(s: &mut [u64; 25], rc: u64)
    ensures
        final(s)@ == complement_lanes(keccak_round(complement_lanes(old(s)@), rc)),
{
    let ghost s0 = s@;
    // theta: column parities
    let c0 = s[0] ^ s[5] ^ s[10] ^ s[15] ^ s[20];
    let c1 = s[1] ^ s[6] ^ s[11] ^ s[16] ^ s[21];
    let c2 = s[2] ^ s[7] ^ s[12] ^ s[17] ^ s[22];
    let c3 = s[3] ^ s[8] ^ s[13] ^ s[18] ^ s[23];
    let c4 = s[4] ^ s[9] ^ s[14] ^ s[19] ^ s[24];

    let d0 = c4 ^ rotate_left(c1, 1);
    let d1 = c0 ^ rotate_left(c2, 1);
    let d2 = c1 ^ rotate_left(c3, 1);
    let d3 = c2 ^ rotate_left(c4, 1);
    let d4 = c3 ^ rotate_left(c0, 1);

    proof {
        lemma_theta(s0, c0, c1, c2, c3, c4, d0, d1, d2, d3, d4);
        lemma_row0(s0, d0, d1, d2, d3, d4, rc);
        lemma_row1(s0, d0, d1, d2, d3, d4, rc);
        lemma_row2(s0, d0, d1, d2, d3, d4, rc);
        lemma_row3(s0, d0, d1, d2, d3, d4, rc);
        lemma_row4(s0, d0, d1, d2, d3, d4, rc);
    }

    // Row 0 writes s[0..5]; rows 1..4 read s[3], s[1], s[4], s[2].
    let s3 = s[3];
    let s1 = s[1];
    let s4 = s[4];
    let s2 = s[2];

    // Row 0: b0, b2, b3 arrive complemented; x = 1, 2 are stored
    // complemented. iota is fused into lane 0.
    {
        let b0 = s[0] ^ d0;
        let b1 = rotate_left(s[6] ^ d1, 44);
        let b2 = rotate_left(s[12] ^ d2, 43);
        let b3 = rotate_left(s[18] ^ d3, 21);
        let b4 = rotate_left(s[24] ^ d4, 14);
        s[0] = b0 ^ (b1 | b2) ^ rc;
        s[1] = b1 ^ ((!b2) | b3);
        s[2] = b2 ^ (b3 & b4);
        s[3] = b3 ^ (b4 | b0);
        s[4] = b4 ^ (b0 & b1);
    }

    // Row 1 writes s[5..10]; rows 2..4 read s[7], s[5], s[8].
    let s7 = s[7];
    let s5 = s[5];
    let s8 = s[8];

    // Row 1: b0, b2 arrive complemented; x = 3 is stored complemented.
    {
        let b0 = rotate_left(s3 ^ d3, 28);
        let b1 = rotate_left(s[9] ^ d4, 20);
        let b2 = rotate_left(s[10] ^ d0, 3);
        let b3 = rotate_left(s[16] ^ d1, 45);
        let b4 = rotate_left(s[22] ^ d2, 61);
        s[5] = b0 ^ (b1 | b2);
        s[6] = b1 ^ (b2 & b3);
        s[7] = (!b2) ^ b4 ^ (b3 & b4);
        s[8] = b3 ^ (b4 | b0);
        s[9] = b4 ^ (b0 & b1);
    }

    // Row 2 writes s[10..15]; rows 3..4 read s[11], s[14].
    let s11 = s[11];
    let s14 = s[14];

    // Row 2: b0, b2 arrive complemented; x = 2 is stored complemented.
    {
        let b0 = rotate_left(s1 ^ d1, 1);
        let b1 = rotate_left(s7 ^ d2, 6);
        let b2 = rotate_left(s[13] ^ d3, 25);
        let b3 = rotate_left(s[19] ^ d4, 8);
        let b4 = rotate_left(s[20] ^ d0, 18);
        s[10] = b0 ^ (b1 | b2);
        s[11] = b1 ^ (b2 & b3);
        s[12] = b2 ^ b4 ^ (b3 & b4);
        s[13] = b3 ^ !(b4 | b0);
        s[14] = b4 ^ (b0 & b1);
    }

    // Row 3 writes s[15..20]; row 4 reads s[15].
    let s15 = s[15];

    // Row 3: b1, b3, b4 arrive complemented; x = 2 is stored complemented.
    {
        let b0 = rotate_left(s4 ^ d4, 27);
        let b1 = rotate_left(s5 ^ d0, 36);
        let b2 = rotate_left(s11 ^ d1, 10);
        let b3 = rotate_left(s[17] ^ d2, 15);
        let b4 = rotate_left(s[23] ^ d3, 56);
        s[15] = b0 ^ (b1 & b2);
        s[16] = b1 ^ (b2 | b3);
        s[17] = b2 ^ ((!b3) | b4);
        s[18] = (!b3) ^ (b4 & b0);
        s[19] = b4 ^ (b0 | b1);
    }

    // Row 4: b0, b3 arrive complemented; x = 0 is stored complemented.
    {
        let b0 = rotate_left(s2 ^ d2, 62);
        let b1 = rotate_left(s8 ^ d3, 55);
        let b2 = rotate_left(s14 ^ d4, 39);
        let b3 = rotate_left(s15 ^ d0, 41);
        let b4 = rotate_left(s[21] ^ d1, 2);
        s[20] = b0 ^ b2 ^ (b1 & b2);
        s[21] = b1 ^ !(b2 | b3);
        s[22] = b2 ^ (b3 & b4);
        s[23] = b3 ^ (b4 | b0);
        s[24] = b4 ^ (b0 & b1);
    }
    assert(s@ =~= complement_lanes(keccak_round(complement_lanes(s0), rc)));
}

/// Keccak-p[1600, 24], that is Keccak-f[1600], when `TURBO` is false; its
/// last twelve rounds, with the constants `RC[12..24]` (Keccak-p[1600, 12],
/// RFC 9861), when it is true.
///
/// The six lanes of `complemented_lane` are complemented on entry and on
/// exit; between rounds the state is held so.
pub fn keccak_p1600<const TURBO: bool>(s: &mut [u64; 25])
    ensures
        final(s)@ == keccak_p(old(s)@, rounds(TURBO)),
{
    let ghost a = s@;
    s[1] = !s[1];
    s[2] = !s[2];
    s[8] = !s[8];
    s[12] = !s[12];
    s[17] = !s[17];
    s[20] = !s[20];
    assert(s@ =~= complement_lanes(a));

    let mut ir: usize = if TURBO {
        12
    } else {
        0
    };
    let ghost first = 24 - rounds(TURBO);
    assert(s@ == complement_lanes(apply_rounds(a, first, ir as int)));
    while ir < 24
        invariant
            first == 24 - rounds(TURBO),
            first <= ir <= 24,
            a.len() == 25,
            s@ == complement_lanes(apply_rounds(a, first, ir as int)),
        decreases 24 - ir,
    {
        proof {
            lemma_apply_rounds_len(a, first, ir as int);
            lemma_complement_involution(apply_rounds(a, first, ir as int));
        }
        round(s, RC[ir]);
        ir = ir + 1;
    }

    let ghost r = s@;
    s[1] = !s[1];
    s[2] = !s[2];
    s[8] = !s[8];
    s[12] = !s[12];
    s[17] = !s[17];
    s[20] = !s[20];
    proof {
        lemma_apply_rounds_len(a, first, 24);
        lemma_complement_involution(apply_rounds(a, first, 24));
    }
    assert(s@ =~= complement_lanes(r));
}

/// Keccak-p is a permutation: different states give different results.
pub proof fn lemma_keccak_p_injective(a: Seq<u64>, b: Seq<u64>, nr: int)
    requires
        a.len() == 25,
        b.len() == 25,
        keccak_p(a, nr) == keccak_p(b, nr),
    ensures
        a == b,
{
    lemma_apply_rounds_injective(a, b, 24 - nr, 24);
}

proof fn lemma_apply_rounds_injective(a: Seq<u64>, b: Seq<u64>, first: int, last: int)
    requires
        a.len() == 25,
        b.len() == 25,
        apply_rounds(a, first, last) == apply_rounds(b, first, last),
    ensures
        a == b,
    decreases last - first,
{
    if last > first {
        lemma_apply_rounds_len(a, first, last - 1);
        lemma_apply_rounds_len(b, first, last - 1);
        lemma_round_injective(
            apply_rounds(a, first, last - 1),
            apply_rounds(b, first, last - 1),
            round_constant(last - 1),
        );
        lemma_apply_rounds_injective(a, b, first, last - 1);
    }
}

/// A round is injective: each of its steps is.
pub proof fn lemma_round_injective(a: Seq<u64>, b: Seq<u64>, rc: u64)
    requires
        a.len() == 25,
        b.len() == 25,
        keccak_round(a, rc) == keccak_round(b, rc),
    ensures
        a == b,
{
    reveal(keccak_round);
    lemma_iota_injective(chi(pi(rho(theta(a)))), chi(pi(rho(theta(b)))), rc);
    lemma_chi_injective(pi(rho(theta(a))), pi(rho(theta(b))));
    lemma_pi_injective(rho(theta(a)), rho(theta(b)));
    lemma_rho_injective(theta(a), theta(b));
    lemma_theta_injective(a, b);
}

proof fn lemma_xor_same_cancel(x: u64, y: u64, z: u64)
    requires
        x ^ z == y ^ z,
    ensures
        x == y,
{
    assert(x == y) by (bit_vector)
        requires
            x ^ z == y ^ z,
    ;
}

proof fn lemma_iota_injective(a: Seq<u64>, b: Seq<u64>, rc: u64)
    requires
        a.len() == 25,
        b.len() == 25,
        iota(a, rc) == iota(b, rc),
    ensures
        a == b,
{
    assert(iota(a, rc)[0] == iota(b, rc)[0]);
    assert(iota(a, rc)[0] == a[0] ^ rc);
    assert(iota(b, rc)[0] == b[0] ^ rc);
    lemma_xor_same_cancel(a[0], b[0], rc);
    assert forall|i: int| 0 <= i < 25 implies a[i] == b[i] by {
        if i != 0 {
            assert(iota(a, rc)[i] == iota(b, rc)[i]);
            assert(iota(a, rc)[i] == a[i]);
            assert(iota(b, rc)[i] == b[i]);
        }
    }
    assert(a =~= b);
}

proof fn lemma_chi_row_injective(
    a0: u64,
    a1: u64,
    a2: u64,
    a3: u64,
    a4: u64,
    b0: u64,
    b1: u64,
    b2: u64,
    b3: u64,
    b4: u64,
)
    requires
        a0 ^ (!a1 & a2) == b0 ^ (!b1 & b2),
        a1 ^ (!a2 & a3) == b1 ^ (!b2 & b3),
        a2 ^ (!a3 & a4) == b2 ^ (!b3 & b4),
        a3 ^ (!a4 & a0) == b3 ^ (!b4 & b0),
        a4 ^ (!a0 & a1) == b4 ^ (!b0 & b1),
    ensures
        a0 == b0 && a1 == b1 && a2 == b2 && a3 == b3 && a4 == b4,
{
    assert(a0 == b0 && a1 == b1 && a2 == b2 && a3 == b3 && a4 == b4) by (bit_vector)
        requires
            a0 ^ (!a1 & a2) == b0 ^ (!b1 & b2),
            a1 ^ (!a2 & a3) == b1 ^ (!b2 & b3),
            a2 ^ (!a3 & a4) == b2 ^ (!b3 & b4),
            a3 ^ (!a4 & a0) == b3 ^ (!b4 & b0),
            a4 ^ (!a0 & a1) == b4 ^ (!b0 & b1),
    ;
}

proof fn lemma_chi_injective(a: Seq<u64>, b: Seq<u64>)
    requires
        a.len() == 25,
        b.len() == 25,
        chi(a) == chi(b),
    ensures
        a == b,
{
    assert(chi(a)[0] == a[0] ^ (!a[1] & a[2]));
    assert(chi(b)[0] == b[0] ^ (!b[1] & b[2]));
    assert(chi(a)[0] == chi(b)[0]);
    assert(chi(a)[1] == a[1] ^ (!a[2] & a[3]));
    assert(chi(b)[1] == b[1] ^ (!b[2] & b[3]));
    assert(chi(a)[1] == chi(b)[1]);
    assert(chi(a)[2] == a[2] ^ (!a[3] & a[4]));
    assert(chi(b)[2] == b[2] ^ (!b[3] & b[4]));
    assert(chi(a)[2] == chi(b)[2]);
    assert(chi(a)[3] == a[3] ^ (!a[4] & a[0]));
    assert(chi(b)[3] == b[3] ^ (!b[4] & b[0]));
    assert(chi(a)[3] == chi(b)[3]);
    assert(chi(a)[4] == a[4] ^ (!a[0] & a[1]));
    assert(chi(b)[4] == b[4] ^ (!b[0] & b[1]));
    assert(chi(a)[4] == chi(b)[4]);
    lemma_chi_row_injective(a[0], a[1], a[2], a[3], a[4], b[0], b[1], b[2], b[3], b[4]);
    assert(chi(a)[5] == a[5] ^ (!a[6] & a[7]));
    assert(chi(b)[5] == b[5] ^ (!b[6] & b[7]));
    assert(chi(a)[5] == chi(b)[5]);
    assert(chi(a)[6] == a[6] ^ (!a[7] & a[8]));
    assert(chi(b)[6] == b[6] ^ (!b[7] & b[8]));
    assert(chi(a)[6] == chi(b)[6]);
    assert(chi(a)[7] == a[7] ^ (!a[8] & a[9]));
    assert(chi(b)[7] == b[7] ^ (!b[8] & b[9]));
    assert(chi(a)[7] == chi(b)[7]);
    assert(chi(a)[8] == a[8] ^ (!a[9] & a[5]));
    assert(chi(b)[8] == b[8] ^ (!b[9] & b[5]));
    assert(chi(a)[8] == chi(b)[8]);
    assert(chi(a)[9] == a[9] ^ (!a[5] & a[6]));
    assert(chi(b)[9] == b[9] ^ (!b[5] & b[6]));
    assert(chi(a)[9] == chi(b)[9]);
    lemma_chi_row_injective(a[5], a[6], a[7], a[8], a[9], b[5], b[6], b[7], b[8], b[9]);
    assert(chi(a)[10] == a[10] ^ (!a[11] & a[12]));
    assert(chi(b)[10] == b[10] ^ (!b[11] & b[12]));
    assert(chi(a)[10] == chi(b)[10]);
    assert(chi(a)[11] == a[11] ^ (!a[12] & a[13]));
    assert(chi(b)[11] == b[11] ^ (!b[12] & b[13]));
    assert(chi(a)[11] == chi(b)[11]);
    assert(chi(a)[12] == a[12] ^ (!a[13] & a[14]));
    assert(chi(b)[12] == b[12] ^ (!b[13] & b[14]));
    assert(chi(a)[12] == chi(b)[12]);
    assert(chi(a)[13] == a[13] ^ (!a[14] & a[10]));
    assert(chi(b)[13] == b[13] ^ (!b[14] & b[10]));
    assert(chi(a)[13] == chi(b)[13]);
    assert(chi(a)[14] == a[14] ^ (!a[10] & a[11]));
    assert(chi(b)[14] == b[14] ^ (!b[10] & b[11]));
    assert(chi(a)[14] == chi(b)[14]);
    lemma_chi_row_injective(a[10], a[11], a[12], a[13], a[14], b[10], b[11], b[12], b[13], b[14]);
    assert(chi(a)[15] == a[15] ^ (!a[16] & a[17]));
    assert(chi(b)[15] == b[15] ^ (!b[16] & b[17]));
    assert(chi(a)[15] == chi(b)[15]);
    assert(chi(a)[16] == a[16] ^ (!a[17] & a[18]));
    assert(chi(b)[16] == b[16] ^ (!b[17] & b[18]));
    assert(chi(a)[16] == chi(b)[16]);
    assert(chi(a)[17] == a[17] ^ (!a[18] & a[19]));
    assert(chi(b)[17] == b[17] ^ (!b[18] & b[19]));
    assert(chi(a)[17] == chi(b)[17]);
    assert(chi(a)[18] == a[18] ^ (!a[19] & a[15]));
    assert(chi(b)[18] == b[18] ^ (!b[19] & b[15]));
    assert(chi(a)[18] == chi(b)[18]);
    assert(chi(a)[19] == a[19] ^ (!a[15] & a[16]));
    assert(chi(b)[19] == b[19] ^ (!b[15] & b[16]));
    assert(chi(a)[19] == chi(b)[19]);
    lemma_chi_row_injective(a[15], a[16], a[17], a[18], a[19], b[15], b[16], b[17], b[18], b[19]);
    assert(chi(a)[20] == a[20] ^ (!a[21] & a[22]));
    assert(chi(b)[20] == b[20] ^ (!b[21] & b[22]));
    assert(chi(a)[20] == chi(b)[20]);
    assert(chi(a)[21] == a[21] ^ (!a[22] & a[23]));
    assert(chi(b)[21] == b[21] ^ (!b[22] & b[23]));
    assert(chi(a)[21] == chi(b)[21]);
    assert(chi(a)[22] == a[22] ^ (!a[23] & a[24]));
    assert(chi(b)[22] == b[22] ^ (!b[23] & b[24]));
    assert(chi(a)[22] == chi(b)[22]);
    assert(chi(a)[23] == a[23] ^ (!a[24] & a[20]));
    assert(chi(b)[23] == b[23] ^ (!b[24] & b[20]));
    assert(chi(a)[23] == chi(b)[23]);
    assert(chi(a)[24] == a[24] ^ (!a[20] & a[21]));
    assert(chi(b)[24] == b[24] ^ (!b[20] & b[21]));
    assert(chi(a)[24] == chi(b)[24]);
    lemma_chi_row_injective(a[20], a[21], a[22], a[23], a[24], b[20], b[21], b[22], b[23], b[24]);
    assert(a =~= b);
}

proof fn lemma_pi_injective(a: Seq<u64>, b: Seq<u64>)
    requires
        a.len() == 25,
        b.len() == 25,
        pi(a) == pi(b),
    ensures
        a == b,
{
    assert(pi(a)[0] == a[0] && pi(b)[0] == b[0]);
    assert(pi(a)[1] == a[6] && pi(b)[1] == b[6]);
    assert(pi(a)[2] == a[12] && pi(b)[2] == b[12]);
    assert(pi(a)[3] == a[18] && pi(b)[3] == b[18]);
    assert(pi(a)[4] == a[24] && pi(b)[4] == b[24]);
    assert(pi(a)[5] == a[3] && pi(b)[5] == b[3]);
    assert(pi(a)[6] == a[9] && pi(b)[6] == b[9]);
    assert(pi(a)[7] == a[10] && pi(b)[7] == b[10]);
    assert(pi(a)[8] == a[16] && pi(b)[8] == b[16]);
    assert(pi(a)[9] == a[22] && pi(b)[9] == b[22]);
    assert(pi(a)[10] == a[1] && pi(b)[10] == b[1]);
    assert(pi(a)[11] == a[7] && pi(b)[11] == b[7]);
    assert(pi(a)[12] == a[13] && pi(b)[12] == b[13]);
    assert(pi(a)[13] == a[19] && pi(b)[13] == b[19]);
    assert(pi(a)[14] == a[20] && pi(b)[14] == b[20]);
    assert(pi(a)[15] == a[4] && pi(b)[15] == b[4]);
    assert(pi(a)[16] == a[5] && pi(b)[16] == b[5]);
    assert(pi(a)[17] == a[11] && pi(b)[17] == b[11]);
    assert(pi(a)[18] == a[17] && pi(b)[18] == b[17]);
    assert(pi(a)[19] == a[23] && pi(b)[19] == b[23]);
    assert(pi(a)[20] == a[2] && pi(b)[20] == b[2]);
    assert(pi(a)[21] == a[8] && pi(b)[21] == b[8]);
    assert(pi(a)[22] == a[14] && pi(b)[22] == b[14]);
    assert(pi(a)[23] == a[15] && pi(b)[23] == b[15]);
    assert(pi(a)[24] == a[21] && pi(b)[24] == b[21]);
    assert(a =~= b);
}

proof fn lemma_rotl_injective(x: u64, y: u64, n: u64)
    requires
        n < 64,
        rotl(x, n) == rotl(y, n),
    ensures
        x == y,
{
    if n != 0 {
        assert(x == y) by (bit_vector)
            requires
                0 < n < 64,
                (x << n) | (x >> ((64 - n) as u64)) == (y << n) | (y >> ((64 - n) as u64)),
        ;
    }
}

proof fn lemma_rho_injective(a: Seq<u64>, b: Seq<u64>)
    requires
        a.len() == 25,
        b.len() == 25,
        rho(a) == rho(b),
    ensures
        a == b,
{
    assert(rho_offset(0) < 64);
    assert(rho_offset(1) < 64);
    assert(rho_offset(2) < 64);
    assert(rho_offset(3) < 64);
    assert(rho_offset(4) < 64);
    assert(rho_offset(5) < 64);
    assert(rho_offset(6) < 64);
    assert(rho_offset(7) < 64);
    assert(rho_offset(8) < 64);
    assert(rho_offset(9) < 64);
    assert(rho_offset(10) < 64);
    assert(rho_offset(11) < 64);
    assert(rho_offset(12) < 64);
    assert(rho_offset(13) < 64);
    assert(rho_offset(14) < 64);
    assert(rho_offset(15) < 64);
    assert(rho_offset(16) < 64);
    assert(rho_offset(17) < 64);
    assert(rho_offset(18) < 64);
    assert(rho_offset(19) < 64);
    assert(rho_offset(20) < 64);
    assert(rho_offset(21) < 64);
    assert(rho_offset(22) < 64);
    assert(rho_offset(23) < 64);
    assert(rho_offset(24) < 64);
    assert forall|i: int| 0 <= i < 25 implies a[i] == b[i] by {
        assert(rho(a)[i] == rho(b)[i]);
        assert(rho(a)[i] == rotl(a[i], rho_offset(i)));
        assert(rho(b)[i] == rotl(b[i], rho_offset(i)));
        lemma_rotl_injective(a[i], b[i], rho_offset(i));
    }
    assert(a =~= b);
}

/// The only column parities that theta maps to themselves are zero: the
/// kernel of theta is trivial.
proof fn lemma_theta_kernel(c0: u64, c1: u64, c2: u64, c3: u64, c4: u64)
    requires
        c0 == c4 ^ rotl(c1, 1),
        c1 == c0 ^ rotl(c2, 1),
        c2 == c1 ^ rotl(c3, 1),
        c3 == c2 ^ rotl(c4, 1),
        c4 == c3 ^ rotl(c0, 1),
    ensures
        c0 == 0 && c1 == 0 && c2 == 0 && c3 == 0 && c4 == 0,
{
    assert(c0 == 0 && c1 == 0 && c2 == 0 && c3 == 0 && c4 == 0) by (bit_vector)
        requires
            c0 == c4 ^ rotl(c1, 1),
            c1 == c0 ^ rotl(c2, 1),
            c2 == c1 ^ rotl(c3, 1),
            c3 == c2 ^ rotl(c4, 1),
            c4 == c3 ^ rotl(c0, 1),
    ;
}

/// Two columns that theta maps alike differ in their parities by the
/// difference of their `D` values.
proof fn lemma_column_difference(
    a0: u64,
    a1: u64,
    a2: u64,
    a3: u64,
    a4: u64,
    b0: u64,
    b1: u64,
    b2: u64,
    b3: u64,
    b4: u64,
    da: u64,
    db: u64,
)
    requires
        a0 ^ da == b0 ^ db,
        a1 ^ da == b1 ^ db,
        a2 ^ da == b2 ^ db,
        a3 ^ da == b3 ^ db,
        a4 ^ da == b4 ^ db,
    ensures
        (a0 ^ a1 ^ a2 ^ a3 ^ a4) ^ (b0 ^ b1 ^ b2 ^ b3 ^ b4) == da ^ db,
{
    assert((a0 ^ a1 ^ a2 ^ a3 ^ a4) ^ (b0 ^ b1 ^ b2 ^ b3 ^ b4) == da ^ db) by (bit_vector)
        requires
            a0 ^ da == b0 ^ db,
            a1 ^ da == b1 ^ db,
            a2 ^ da == b2 ^ db,
            a3 ^ da == b3 ^ db,
            a4 ^ da == b4 ^ db,
    ;
}

/// `D` is linear in the column parities.
proof fn lemma_d_difference(p: u64, q: u64, r: u64, s: u64)
    ensures
        (p ^ rotl(q, 1)) ^ (r ^ rotl(s, 1)) == (p ^ r) ^ rotl(q ^ s, 1),
{
    assert((p ^ rotl(q, 1)) ^ (r ^ rotl(s, 1)) == (p ^ r) ^ rotl(q ^ s, 1)) by (bit_vector);
}

proof fn lemma_xor_cancel(x: u64, y: u64, dx: u64, dy: u64)
    requires
        x ^ dx == y ^ dy,
        dx ^ dy == 0,
    ensures
        x == y,
{
    assert(x == y) by (bit_vector)
        requires
            x ^ dx == y ^ dy,
            dx ^ dy == 0,
    ;
}

proof fn lemma_theta_lane(a: Seq<u64>, b: Seq<u64>, i: int)
    requires
        a.len() == 25,
        b.len() == 25,
        theta(a) == theta(b),
        0 <= i < 25,
    ensures
        a[i] ^ theta_d(a, i % 5) == b[i] ^ theta_d(b, i % 5),
{
    assert(theta(a)[i] == theta(b)[i]);
    assert(theta(a)[i] == a[i] ^ theta_d(a, i % 5));
    assert(theta(b)[i] == b[i] ^ theta_d(b, i % 5));
}

proof fn lemma_theta_injective(a: Seq<u64>, b: Seq<u64>)
    requires
        a.len() == 25,
        b.len() == 25,
        theta(a) == theta(b),
    ensures
        a == b,
{
    lemma_theta_lane(a, b, 0);
    lemma_theta_lane(a, b, 1);
    lemma_theta_lane(a, b, 2);
    lemma_theta_lane(a, b, 3);
    lemma_theta_lane(a, b, 4);
    lemma_theta_lane(a, b, 5);
    lemma_theta_lane(a, b, 6);
    lemma_theta_lane(a, b, 7);
    lemma_theta_lane(a, b, 8);
    lemma_theta_lane(a, b, 9);
    lemma_theta_lane(a, b, 10);
    lemma_theta_lane(a, b, 11);
    lemma_theta_lane(a, b, 12);
    lemma_theta_lane(a, b, 13);
    lemma_theta_lane(a, b, 14);
    lemma_theta_lane(a, b, 15);
    lemma_theta_lane(a, b, 16);
    lemma_theta_lane(a, b, 17);
    lemma_theta_lane(a, b, 18);
    lemma_theta_lane(a, b, 19);
    lemma_theta_lane(a, b, 20);
    lemma_theta_lane(a, b, 21);
    lemma_theta_lane(a, b, 22);
    lemma_theta_lane(a, b, 23);
    lemma_theta_lane(a, b, 24);
    lemma_column_difference(a[0], a[5], a[10], a[15], a[20], b[0], b[5], b[10], b[15], b[20], theta_d(a, 0), theta_d(b, 0));
    lemma_column_difference(a[1], a[6], a[11], a[16], a[21], b[1], b[6], b[11], b[16], b[21], theta_d(a, 1), theta_d(b, 1));
    lemma_column_difference(a[2], a[7], a[12], a[17], a[22], b[2], b[7], b[12], b[17], b[22], theta_d(a, 2), theta_d(b, 2));
    lemma_column_difference(a[3], a[8], a[13], a[18], a[23], b[3], b[8], b[13], b[18], b[23], theta_d(a, 3), theta_d(b, 3));
    lemma_column_difference(a[4], a[9], a[14], a[19], a[24], b[4], b[9], b[14], b[19], b[24], theta_d(a, 4), theta_d(b, 4));
    let k0 = theta_c(a, 0) ^ theta_c(b, 0);
    let k1 = theta_c(a, 1) ^ theta_c(b, 1);
    let k2 = theta_c(a, 2) ^ theta_c(b, 2);
    let k3 = theta_c(a, 3) ^ theta_c(b, 3);
    let k4 = theta_c(a, 4) ^ theta_c(b, 4);
    lemma_d_difference(theta_c(a, 4), theta_c(a, 1), theta_c(b, 4), theta_c(b, 1));
    lemma_d_difference(theta_c(a, 0), theta_c(a, 2), theta_c(b, 0), theta_c(b, 2));
    lemma_d_difference(theta_c(a, 1), theta_c(a, 3), theta_c(b, 1), theta_c(b, 3));
    lemma_d_difference(theta_c(a, 2), theta_c(a, 4), theta_c(b, 2), theta_c(b, 4));
    lemma_d_difference(theta_c(a, 3), theta_c(a, 0), theta_c(b, 3), theta_c(b, 0));
    lemma_theta_kernel(k0, k1, k2, k3, k4);
    lemma_xor_cancel(a[0], b[0], theta_d(a, 0), theta_d(b, 0));
    lemma_xor_cancel(a[1], b[1], theta_d(a, 1), theta_d(b, 1));
    lemma_xor_cancel(a[2], b[2], theta_d(a, 2), theta_d(b, 2));
    lemma_xor_cancel(a[3], b[3], theta_d(a, 3), theta_d(b, 3));
    lemma_xor_cancel(a[4], b[4], theta_d(a, 4), theta_d(b, 4));
    lemma_xor_cancel(a[5], b[5], theta_d(a, 0), theta_d(b, 0));
    lemma_xor_cancel(a[6], b[6], theta_d(a, 1), theta_d(b, 1));
    lemma_xor_cancel(a[7], b[7], theta_d(a, 2), theta_d(b, 2));
    lemma_xor_cancel(a[8], b[8], theta_d(a, 3), theta_d(b, 3));
    lemma_xor_cancel(a[9], b[9], theta_d(a, 4), theta_d(b, 4));
    lemma_xor_cancel(a[10], b[10], theta_d(a, 0), theta_d(b, 0));
    lemma_xor_cancel(a[11], b[11], theta_d(a, 1), theta_d(b, 1));
    lemma_xor_cancel(a[12], b[12], theta_d(a, 2), theta_d(b, 2));
    lemma_xor_cancel(a[13], b[13], theta_d(a, 3), theta_d(b, 3));
    lemma_xor_cancel(a[14], b[14], theta_d(a, 4), theta_d(b, 4));
    lemma_xor_cancel(a[15], b[15], theta_d(a, 0), theta_d(b, 0));
    lemma_xor_cancel(a[16], b[16], theta_d(a, 1), theta_d(b, 1));
    lemma_xor_cancel(a[17], b[17], theta_d(a, 2), theta_d(b, 2));
    lemma_xor_cancel(a[18], b[18], theta_d(a, 3), theta_d(b, 3));
    lemma_xor_cancel(a[19], b[19], theta_d(a, 4), theta_d(b, 4));
    lemma_xor_cancel(a[20], b[20], theta_d(a, 0), theta_d(b, 0));
    lemma_xor_cancel(a[21], b[21], theta_d(a, 1), theta_d(b, 1));
    lemma_xor_cancel(a[22], b[22], theta_d(a, 2), theta_d(b, 2));
    lemma_xor_cancel(a[23], b[23], theta_d(a, 3), theta_d(b, 3));
    lemma_xor_cancel(a[24], b[24], theta_d(a, 4), theta_d(b, 4));
    assert(a =~= b);
}

} // verus!
