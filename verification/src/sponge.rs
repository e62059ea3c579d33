//! The sponge over Keccak-p[1600]: what absorbing, padding and squeezing do
//! to the 25-lane state and the byte position within the rate.
use crate::keccak::{keccak_p, rounds, lemma_keccak_p_len};
use vstd::prelude::*;

verus! {

/// A sponge as a value: the 25 lanes of the state and the byte position
/// within the rate where the next byte is absorbed or squeezed.
pub ghost struct SpongeState {
    pub lanes: Seq<u64>,
    pub pos: int,
}

/// The rate in bytes at security level `bits`: the 200-byte state less a
/// capacity of `2 * bits` bits.
pub open spec fn rate_of(bits: int) -> int {
    200 - bits / 4
}

/// The security levels that exist: 128 and 256.
pub open spec fn valid_bits(bits: int) -> bool {
    bits == 128 || bits == 256
}

/// The empty sponge: all lanes zero, at the start of the rate.
pub open spec fn initial_state() -> SpongeState {
    SpongeState { lanes: Seq::new(25, |i: int| 0u64), pos: 0 }
}

/// A sponge state that can be reached: 25 lanes and a position inside the
/// rate.
pub open spec fn state_wf(st: SpongeState, rate: int) -> bool {
    &&& st.lanes.len() == 25
    &&& 0 <= st.pos < rate <= 200
}

/// Byte `j` of the state: byte `j % 8` of lane `j / 8`, little-endian.
pub open spec fn state_byte(lanes: Seq<u64>, j: int) -> u8 {
    (lanes[j / 8] >> (8 * (j % 8)) as u64) as u8
}

/// The lanes with byte `b` XORed into byte `j` of the state.
pub open spec fn xor_byte(lanes: Seq<u64>, j: int, b: u8) -> Seq<u64> {
    lanes.update(j / 8, lanes[j / 8] ^ ((b as u64) << (8 * (j % 8)) as u64))
}

/// Advance the position by one byte; at the end of the rate, permute and
/// start again at position 0.
pub open spec fn advance(lanes: Seq<u64>, pos: int, rate: int, turbo: bool) -> SpongeState {
    if pos + 1 == rate {
        SpongeState { lanes: keccak_p(lanes, rounds(turbo)), pos: 0 }
    } else {
        SpongeState { lanes, pos: pos + 1 }
    }
}

/// Absorb one byte: XOR it into the state at the position, then advance.
pub open spec fn absorb_byte(st: SpongeState, b: u8, rate: int, turbo: bool) -> SpongeState {
    advance(xor_byte(st.lanes, st.pos, b), st.pos, rate, turbo)
}

/// Absorb the bytes of `data` in order.
pub open spec fn absorb_bytes(st: SpongeState, data: Seq<u8>, rate: int, turbo: bool) -> SpongeState
    decreases data.len(),
{
    if data.len() == 0 {
        st
    } else {
        absorb_byte(absorb_bytes(st, data.drop_last(), rate, turbo), data.last(), rate, turbo)
    }
}

/// Squeeze one byte: read the state byte at the position, then advance.
pub open spec fn squeeze_byte(st: SpongeState, rate: int, turbo: bool) -> (u8, SpongeState) {
    (state_byte(st.lanes, st.pos), advance(st.lanes, st.pos, rate, turbo))
}

/// Squeeze `n` bytes in order: the bytes and the state after them.
pub open spec fn squeeze_bytes(st: SpongeState, n: nat, rate: int, turbo: bool) -> (
    Seq<u8>,
    SpongeState,
)
    decreases n,
{
    if n == 0 {
        (Seq::empty(), st)
    } else {
        let (out, st1) = squeeze_bytes(st, (n - 1) as nat, rate, turbo);
        let (b, st2) = squeeze_byte(st1, rate, turbo);
        (out.push(b), st2)
    }
}

/// Padding (FIPS 202 §6.2, RFC 9861 §2.2): the domain byte XORed at the
/// position, the final bit of `pad10*1` (the byte `0x80`) XORed into the last
/// byte of the rate, then the permutation; squeezing starts at position 0.
pub open spec fn pad(st: SpongeState, domain: u8, rate: int, turbo: bool) -> SpongeState {
    let lanes = xor_byte(xor_byte(st.lanes, st.pos, domain), rate - 1, 0x80);
    SpongeState { lanes: keccak_p(lanes, rounds(turbo)), pos: 0 }
}

/// The first `len` output bytes of the sponge at rate `rate` with the domain
/// byte `domain` on the message `msg`. With 24 rounds and `0x1F` this is
/// SHAKE128 (rate 168) and SHAKE256 (rate 136) of FIPS 202; with 12 rounds,
/// TurboSHAKE128 and TurboSHAKE256 of RFC 9861 with that domain byte.
pub open spec fn sponge_output(msg: Seq<u8>, domain: u8, rate: int, turbo: bool, len: nat) -> Seq<
    u8,
> {
    squeeze_bytes(pad(absorb_bytes(initial_state(), msg, rate, turbo), domain, rate, turbo), len, rate, turbo).0
}

/// The concatenation of a sequence of byte strings.
pub open spec fn concat(parts: Seq<Seq<u8>>) -> Seq<u8>
    decreases parts.len(),
{
    if parts.len() == 0 {
        Seq::empty()
    } else {
        concat(parts.drop_last()) + parts.last()
    }
}

/// The lane whose little-endian bytes are `c[0..8]` (`u64::from_le_bytes`).
pub open spec fn le_lane(c: Seq<u8>) -> u64 {
    (c[0] as u64) | ((c[1] as u64) << 8u64) | ((c[2] as u64) << 16u64) | ((c[3] as u64) << 24u64)
        | ((c[4] as u64) << 32u64) | ((c[5] as u64) << 40u64) | ((c[6] as u64) << 48u64) | ((
    c[7] as u64) << 56u64)
}

/// The XOR of the first `k` bytes of `c`, each shifted to its place in a
/// lane.
spec fn le_partial(c: Seq<u8>, k: int) -> u64
    decreases k,
{
    if k <= 0 {
        0
    } else {
        le_partial(c, k - 1) ^ ((c[k - 1] as u64) << (8 * (k - 1)) as u64)
    }
}

proof fn lemma_xor_zero(x: u64)
    ensures
        x ^ 0 == x,
{
    assert(x ^ 0 == x) by (bit_vector);
}

proof fn lemma_xor_assoc(x: u64, y: u64, z: u64)
    ensures
        (x ^ y) ^ z == x ^ (y ^ z),
{
    assert((x ^ y) ^ z == x ^ (y ^ z)) by (bit_vector);
}

proof fn lemma_le_bytes_xor_or(b0: u8, b1: u8, b2: u8, b3: u8, b4: u8, b5: u8, b6: u8, b7: u8)
    ensures
        0u64 ^ (b0 as u64) << 0u64 ^ (b1 as u64) << 8u64 ^ (b2 as u64) << 16u64 ^ (b3 as u64)
            << 24u64 ^ (b4 as u64) << 32u64 ^ (b5 as u64) << 40u64 ^ (b6 as u64) << 48u64 ^ (
        b7 as u64) << 56u64 == (b0 as u64) | ((b1 as u64) << 8u64) | ((b2 as u64) << 16u64) | ((
        b3 as u64) << 24u64) | ((b4 as u64) << 32u64) | ((b5 as u64) << 40u64) | ((b6 as u64)
            << 48u64) | ((b7 as u64) << 56u64),
{
    assert(0u64 ^ (b0 as u64) << 0u64 ^ (b1 as u64) << 8u64 ^ (b2 as u64) << 16u64 ^ (b3 as u64)
        << 24u64 ^ (b4 as u64) << 32u64 ^ (b5 as u64) << 40u64 ^ (b6 as u64) << 48u64 ^ (
    b7 as u64) << 56u64 == (b0 as u64) | ((b1 as u64) << 8u64) | ((b2 as u64) << 16u64) | ((
    b3 as u64) << 24u64) | ((b4 as u64) << 32u64) | ((b5 as u64) << 40u64) | ((b6 as u64)
        << 48u64) | ((b7 as u64) << 56u64)) by (bit_vector);
}

proof fn lemma_le_partial_full(c: Seq<u8>)
    requires
        c.len() == 8,
    ensures
        le_partial(c, 8) == le_lane(c),
{
    reveal_with_fuel(le_partial, 9);
    lemma_le_bytes_xor_or(c[0], c[1], c[2], c[3], c[4], c[5], c[6], c[7]);
}

/// Absorbing the first `k < 8` bytes of a lane-aligned run XORs them into
/// that lane.
proof fn lemma_absorb_partial_lane(st: SpongeState, c: Seq<u8>, k: int, rate: int, turbo: bool)
    requires
        state_wf(st, rate),
        st.pos % 8 == 0,
        st.pos + 8 <= rate,
        c.len() == 8,
        0 <= k < 8,
    ensures
        absorb_bytes(st, c.take(k), rate, turbo) == (SpongeState {
            lanes: st.lanes.update(st.pos / 8, st.lanes[st.pos / 8] ^ le_partial(c, k)),
            pos: st.pos + k,
        }),
    decreases k,
{
    let p = st.pos;
    if k == 0 {
        lemma_xor_zero(st.lanes[p / 8]);
        assert(st.lanes.update(p / 8, st.lanes[p / 8] ^ le_partial(c, 0)) =~= st.lanes);
        assert(c.take(0) =~= Seq::<u8>::empty());
    } else {
        lemma_absorb_partial_lane(st, c, k - 1, rate, turbo);
        assert(c.take(k).drop_last() =~= c.take(k - 1));
        assert((p + k - 1) / 8 == p / 8);
        assert((p + k - 1) % 8 == k - 1);
        let prev = absorb_bytes(st, c.take(k - 1), rate, turbo);
        assert(absorb_bytes(st, c.take(k), rate, turbo) == absorb_byte(prev, c[k - 1], rate, turbo));
        lemma_xor_assoc(st.lanes[p / 8], le_partial(c, k - 1), (c[k - 1] as u64) << (8 * (k - 1)) as u64);
        assert(absorb_byte(prev, c[k - 1], rate, turbo).lanes =~= st.lanes.update(
            p / 8,
            st.lanes[p / 8] ^ le_partial(c, k),
        ));
    }
}

/// Absorbing eight bytes at a lane boundary XORs their little-endian lane
/// into the state, then advances by eight (permuting at the end of the
/// rate).
pub proof fn lemma_absorb_lane(st: SpongeState, c: Seq<u8>, rate: int, turbo: bool)
    requires
        state_wf(st, rate),
        st.pos % 8 == 0,
        st.pos + 8 <= rate,
        c.len() == 8,
    ensures
        absorb_bytes(st, c, rate, turbo) == ({
            let lanes = st.lanes.update(st.pos / 8, st.lanes[st.pos / 8] ^ le_lane(c));
            if st.pos + 8 == rate {
                SpongeState { lanes: keccak_p(lanes, rounds(turbo)), pos: 0 }
            } else {
                SpongeState { lanes, pos: st.pos + 8 }
            }
        }),
{
    let p = st.pos;
    lemma_absorb_partial_lane(st, c, 7, rate, turbo);
    assert(c.drop_last() =~= c.take(7));
    assert((p + 7) / 8 == p / 8);
    assert((p + 7) % 8 == 7);
    lemma_le_partial_full(c);
    let prev = absorb_bytes(st, c.take(7), rate, turbo);
    assert(absorb_byte(prev, c[7], rate, turbo) == absorb_bytes(st, c, rate, turbo));
    lemma_xor_assoc(st.lanes[p / 8], le_partial(c, 7), (c[7] as u64) << (8 * 7) as u64);
    assert(le_partial(c, 8) == le_partial(c, 7) ^ ((c[7] as u64) << (8 * 7) as u64));
    assert(xor_byte(prev.lanes, prev.pos, c[7]) =~= st.lanes.update(
        p / 8,
        st.lanes[p / 8] ^ le_lane(c),
    ));
}

/// Absorbing in two calls is absorbing the concatenation: where a message
/// is split adds no padding and no domain separation.
pub proof fn lemma_absorb_concat(st: SpongeState, a: Seq<u8>, b: Seq<u8>, rate: int, turbo: bool)
    ensures
        absorb_bytes(absorb_bytes(st, a, rate, turbo), b, rate, turbo) == absorb_bytes(
            st,
            a + b,
            rate,
            turbo,
        ),
    decreases b.len(),
{
    if b.len() == 0 {
        assert(a + b =~= a);
    } else {
        lemma_absorb_concat(st, a, b.drop_last(), rate, turbo);
        assert((a + b).drop_last() =~= a + b.drop_last());
        assert((a + b).last() == b.last());
    }
}

/// Absorbing one more byte of `data`.
pub proof fn lemma_absorb_take_next(st: SpongeState, data: Seq<u8>, i: int, rate: int, turbo: bool)
    requires
        0 <= i < data.len(),
    ensures
        absorb_bytes(st, data.take(i + 1), rate, turbo) == absorb_byte(
            absorb_bytes(st, data.take(i), rate, turbo),
            data[i],
            rate,
            turbo,
        ),
{
    assert(data.take(i + 1).drop_last() =~= data.take(i));
}

/// Absorbing every state that `absorb_bytes` reaches stays well formed.
pub proof fn lemma_absorb_wf(st: SpongeState, data: Seq<u8>, rate: int, turbo: bool)
    requires
        state_wf(st, rate),
    ensures
        state_wf(absorb_bytes(st, data, rate, turbo), rate),
    decreases data.len(),
{
    if data.len() > 0 {
        lemma_absorb_wf(st, data.drop_last(), rate, turbo);
        lemma_keccak_p_len(
            xor_byte(absorb_bytes(st, data.drop_last(), rate, turbo).lanes, absorb_bytes(st, data.drop_last(), rate, turbo).pos, data.last()),
            rounds(turbo),
        );
    }
}

/// The eight bytes of a lane, least significant first
/// (`u64::to_le_bytes`).
pub open spec fn lane_bytes(w: u64) -> Seq<u8> {
    Seq::new(8, |k: int| (w >> (8 * k) as u64) as u8)
}

/// Squeezing `n` then `m` bytes is squeezing `n + m` bytes: the outputs
/// concatenate.
pub proof fn lemma_squeeze_concat(st: SpongeState, n: nat, m: nat, rate: int, turbo: bool)
    ensures
        squeeze_bytes(st, n + m, rate, turbo) == ({
            let (o1, s1) = squeeze_bytes(st, n, rate, turbo);
            let (o2, s2) = squeeze_bytes(s1, m, rate, turbo);
            (o1 + o2, s2)
        }),
    decreases m,
{
    if m == 0 {
        assert(squeeze_bytes(st, n, rate, turbo).0 + Seq::<u8>::empty() =~= squeeze_bytes(
            st,
            n,
            rate,
            turbo,
        ).0);
    } else {
        lemma_squeeze_concat(st, n, (m - 1) as nat, rate, turbo);
        let (o1, s1) = squeeze_bytes(st, n, rate, turbo);
        let (o2, s2) = squeeze_bytes(s1, (m - 1) as nat, rate, turbo);
        assert(((n + m - 1) as nat) == n + (m - 1) as nat);
        assert((o1 + o2).push(squeeze_byte(s2, rate, turbo).0) =~= o1 + o2.push(
            squeeze_byte(s2, rate, turbo).0,
        ));
    }
}

/// Squeezing stays inside well-formed states.
pub proof fn lemma_squeeze_wf(st: SpongeState, n: nat, rate: int, turbo: bool)
    requires
        state_wf(st, rate),
    ensures
        state_wf(squeeze_bytes(st, n, rate, turbo).1, rate),
        squeeze_bytes(st, n, rate, turbo).0.len() == n,
    decreases n,
{
    if n > 0 {
        lemma_squeeze_wf(st, (n - 1) as nat, rate, turbo);
        lemma_keccak_p_len(squeeze_bytes(st, (n - 1) as nat, rate, turbo).1.lanes, rounds(turbo));
    }
}

/// Squeezing the first `k < 8` bytes of a lane at a lane boundary reads
/// them from that lane.
proof fn lemma_squeeze_partial_lane(st: SpongeState, k: nat, rate: int, turbo: bool)
    requires
        state_wf(st, rate),
        st.pos % 8 == 0,
        st.pos + 8 <= rate,
        k < 8,
    ensures
        squeeze_bytes(st, k, rate, turbo) == (
            lane_bytes(st.lanes[st.pos / 8]).take(k as int),
            SpongeState { lanes: st.lanes, pos: st.pos + k },
        ),
    decreases k,
{
    let p = st.pos;
    if k == 0 {
        assert(lane_bytes(st.lanes[p / 8]).take(0) =~= Seq::<u8>::empty());
    } else {
        lemma_squeeze_partial_lane(st, (k - 1) as nat, rate, turbo);
        assert((p + k - 1) / 8 == p / 8);
        assert((p + k - 1) % 8 == k - 1);
        assert(lane_bytes(st.lanes[p / 8]).take(k - 1).push(
            state_byte(st.lanes, p + k - 1),
        ) =~= lane_bytes(st.lanes[p / 8]).take(k as int));
    }
}

/// Squeezing eight bytes at a lane boundary reads the lane's bytes, then
/// advances by eight (permuting at the end of the rate).
pub proof fn lemma_squeeze_lane(st: SpongeState, rate: int, turbo: bool)
    requires
        state_wf(st, rate),
        st.pos % 8 == 0,
        st.pos + 8 <= rate,
    ensures
        squeeze_bytes(st, 8, rate, turbo) == (
            lane_bytes(st.lanes[st.pos / 8]),
            if st.pos + 8 == rate {
                SpongeState { lanes: keccak_p(st.lanes, rounds(turbo)), pos: 0 }
            } else {
                SpongeState { lanes: st.lanes, pos: st.pos + 8 }
            },
        ),
{
    let p = st.pos;
    lemma_squeeze_partial_lane(st, 7, rate, turbo);
    assert((p + 7) / 8 == p / 8);
    assert((p + 7) % 8 == 7);
    assert(lane_bytes(st.lanes[p / 8]).take(7).push(state_byte(st.lanes, p + 7)) =~= lane_bytes(
        st.lanes[p / 8],
    ));
}

} // verus!
