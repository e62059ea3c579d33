//! Properties of the permutation and the sponge that span several
//! operations.
use crate::keccak::{apply_rounds, keccak_p, rounds};
use crate::sponge::{
    SpongeState, concat, absorb_byte, absorb_bytes, initial_state, lane_bytes, le_lane,
    lemma_absorb_concat, lemma_absorb_lane, lemma_squeeze_concat, lemma_squeeze_lane, pad,
    rate_of, sponge_output, squeeze_bytes, state_wf, valid_bits, xor_byte,
};
use vstd::prelude::*;

verus! {

/// Rounds `first .. last` are rounds `first .. mid` followed by rounds
/// `mid .. last`.
pub proof fn lemma_apply_rounds_split(a: Seq<u64>, first: int, mid: int, last: int)
    requires
        first <= mid <= last,
    ensures
        apply_rounds(a, first, last) == apply_rounds(apply_rounds(a, first, mid), mid, last),
    decreases last - mid,
{
    if last > mid {
        lemma_apply_rounds_split(a, first, mid, last - 1);
    }
}

/// TurboSHAKE's permutation is the second half of SHAKE's: Keccak-f[1600]
/// is its first twelve rounds followed by Keccak-p[1600, 12].
pub proof fn lemma_turbo_rounds_are_last_twelve(a: Seq<u64>)
    ensures
        keccak_p(a, rounds(false)) == keccak_p(apply_rounds(a, 0, 12), rounds(true)),
{
    lemma_apply_rounds_split(a, 0, 12, 24);
}

/// The little-endian bytes of a sequence of lanes, lane after lane.
pub open spec fn lanes_le_bytes(lanes: Seq<u64>) -> Seq<u8>
    decreases lanes.len(),
{
    if lanes.len() == 0 {
        Seq::empty()
    } else {
        lanes_le_bytes(lanes.drop_last()) + lane_bytes(lanes.last())
    }
}

/// Squeezing the first `8 * k` bytes of a block reads its first `k` lanes.
proof fn lemma_drain_prefix(st: SpongeState, k: nat, rate: int, turbo: bool)
    requires
        state_wf(st, rate),
        st.pos == 0,
        rate % 8 == 0,
        8 * k < rate,
    ensures
        squeeze_bytes(st, 8 * k, rate, turbo) == (
            lanes_le_bytes(st.lanes.take(k as int)),
            SpongeState { lanes: st.lanes, pos: (8 * k) as int },
        ),
    decreases k,
{
    if k == 0 {
        assert(st.lanes.take(0) =~= Seq::<u64>::empty());
    } else {
        let j = (k - 1) as nat;
        lemma_drain_prefix(st, j, rate, turbo);
        lemma_squeeze_concat(st, 8 * j, 8, rate, turbo);
        let mid = SpongeState { lanes: st.lanes, pos: (8 * j) as int };
        lemma_squeeze_lane(mid, rate, turbo);
        assert(st.lanes.take(k as int).drop_last() =~= st.lanes.take(j as int));
        assert(8 * j + 8 == 8 * k);
    }
}

/// Draining the rate lanes of a fresh block and then permuting gives what
/// squeezing a whole block gives: the same bytes, in order, and the same
/// next state.
pub proof fn lemma_drain_rate_is_squeeze(st: SpongeState, bits: int, turbo: bool)
    requires
        valid_bits(bits),
        state_wf(st, rate_of(bits)),
        st.pos == 0,
    ensures
        squeeze_bytes(st, rate_of(bits) as nat, rate_of(bits), turbo) == (
            lanes_le_bytes(st.lanes.subrange(0, rate_of(bits) / 8)),
            SpongeState { lanes: keccak_p(st.lanes, rounds(turbo)), pos: 0 },
        ),
{
    let rate = rate_of(bits);
    let k = (rate / 8 - 1) as nat;
    lemma_drain_prefix(st, k, rate, turbo);
    lemma_squeeze_concat(st, 8 * k, 8, rate, turbo);
    let mid = SpongeState { lanes: st.lanes, pos: (8 * k) as int };
    lemma_squeeze_lane(mid, rate, turbo);
    assert(8 * k + 8 == rate);
    assert(st.lanes.subrange(0, rate / 8).drop_last() =~= st.lanes.take(k as int));
    assert(st.lanes.subrange(0, rate / 8).last() == st.lanes[k as int]);
}

/// An extendable-output function: a shorter output is a prefix of a longer
/// one.
pub proof fn lemma_output_prefix(
    msg: Seq<u8>,
    domain: u8,
    rate: int,
    turbo: bool,
    n: nat,
    m: nat,
)
    requires
        n <= m,
    ensures
        sponge_output(msg, domain, rate, turbo, m).take(n as int) == sponge_output(
            msg,
            domain,
            rate,
            turbo,
            n,
        ),
        sponge_output(msg, domain, rate, turbo, m).len() == m,
{
    let st = crate::sponge::pad(
        absorb_bytes(crate::sponge::initial_state(), msg, rate, turbo),
        domain,
        rate,
        turbo,
    );
    lemma_squeeze_concat(st, n, (m - n) as nat, rate, turbo);
    assert(n + (m - n) as nat == m);
    lemma_squeeze_len(st, n, rate, turbo);
    lemma_squeeze_len(st, m, rate, turbo);
    let (o1, s1) = squeeze_bytes(st, n, rate, turbo);
    let (o2, s2) = squeeze_bytes(s1, (m - n) as nat, rate, turbo);
    assert((o1 + o2).take(n as int) =~= o1);
}

/// Squeezing `n` bytes gives `n` bytes.
pub proof fn lemma_squeeze_len(st: SpongeState, n: nat, rate: int, turbo: bool)
    ensures
        squeeze_bytes(st, n, rate, turbo).0.len() == n,
    decreases n,
{
    if n > 0 {
        lemma_squeeze_len(st, (n - 1) as nat, rate, turbo);
    }
}

/// The bytes that padding appends after a message that ends at byte
/// position `pos` of a block: the domain byte (the suffix bits and the first
/// bit of `pad10*1`), zero bytes, and the final bit of `pad10*1` in the last
/// byte of the block (FIPS 202 §6.2 and B.2, RFC 9861 §2.2). Where one byte
/// is left, the two share it.
pub open spec fn padding(pos: int, domain: u8, rate: int) -> Seq<u8> {
    if pos == rate - 1 {
        seq![domain ^ 0x80u8]
    } else {
        seq![domain] + Seq::new((rate - pos - 2) as nat, |i: int| 0u8) + seq![0x80u8]
    }
}

proof fn lemma_xor_byte_twice(x: u64, d: u8, s: u64)
    requires
        s < 64,
    ensures
        x ^ ((d as u64) << s) ^ ((0x80u8 as u64) << s) == x ^ (((d ^ 0x80u8) as u64) << s),
{
    assert(x ^ ((d as u64) << s) ^ ((0x80u8 as u64) << s) == x ^ (((d ^ 0x80u8) as u64) << s))
        by (bit_vector)
        requires
            s < 64,
    ;
}

proof fn lemma_xor_zero_byte(x: u64, s: u64)
    ensures
        x ^ ((0u8 as u64) << s) == x,
{
    assert(x ^ ((0u8 as u64) << s) == x) by (bit_vector);
}

proof fn lemma_absorb_single(st: SpongeState, b: u8, rate: int, turbo: bool)
    ensures
        absorb_bytes(st, seq![b], rate, turbo) == absorb_byte(st, b, rate, turbo),
{
    reveal_with_fuel(absorb_bytes, 2);
    assert(seq![b].drop_last() =~= Seq::<u8>::empty());
}

/// Absorbing zero bytes inside a block only moves the position.
proof fn lemma_absorb_zeros(st: SpongeState, n: nat, rate: int, turbo: bool)
    requires
        state_wf(st, rate),
        st.pos + n < rate,
    ensures
        absorb_bytes(st, Seq::new(n, |i: int| 0u8), rate, turbo) == (SpongeState {
            lanes: st.lanes,
            pos: st.pos + n,
        }),
    decreases n,
{
    if n > 0 {
        let z = Seq::new(n, |i: int| 0u8);
        lemma_absorb_zeros(st, (n - 1) as nat, rate, turbo);
        assert(z.drop_last() =~= Seq::new((n - 1) as nat, |i: int| 0u8));
        let j = st.pos + n - 1;
        lemma_xor_zero_byte(st.lanes[j / 8], (8 * (j % 8)) as u64);
        assert(xor_byte(st.lanes, j, 0u8) =~= st.lanes);
    }
}

/// Padding is absorbing the padding bytes: the sponge pads a message the
/// way FIPS 202 pads it, so that the padded message fills whole blocks.
pub proof fn lemma_pad_is_absorbing_padding(st: SpongeState, domain: u8, rate: int, turbo: bool)
    requires
        state_wf(st, rate),
    ensures
        pad(st, domain, rate, turbo) == absorb_bytes(
            st,
            padding(st.pos, domain, rate),
            rate,
            turbo,
        ),
        (st.pos + padding(st.pos, domain, rate).len()) == rate,
{
    let p = st.pos;
    if p == rate - 1 {
        let b = domain ^ 0x80u8;
        lemma_absorb_single(st, b, rate, turbo);
        lemma_xor_byte_twice(st.lanes[p / 8], domain, (8 * (p % 8)) as u64);
        assert(xor_byte(xor_byte(st.lanes, p, domain), p, 0x80) =~= xor_byte(st.lanes, p, b));
    } else {
        let n = (rate - p - 2) as nat;
        let z = Seq::new(n, |i: int| 0u8);
        lemma_absorb_single(st, domain, rate, turbo);
        let s1 = absorb_bytes(st, seq![domain], rate, turbo);
        lemma_absorb_zeros(s1, n, rate, turbo);
        let s2 = absorb_bytes(s1, z, rate, turbo);
        lemma_absorb_single(s2, 0x80u8, rate, turbo);
        lemma_absorb_concat(st, seq![domain], z, rate, turbo);
        lemma_absorb_concat(st, seq![domain] + z, seq![0x80u8], rate, turbo);
    }
}

/// After absorbing `msg`, the position is where `msg` ends within its last
/// block.
pub proof fn lemma_absorb_pos(st: SpongeState, msg: Seq<u8>, rate: int, turbo: bool)
    requires
        state_wf(st, rate),
    ensures
        absorb_bytes(st, msg, rate, turbo).pos == (st.pos + msg.len()) % rate,
        state_wf(absorb_bytes(st, msg, rate, turbo), rate),
    decreases msg.len(),
{
    if msg.len() > 0 {
        lemma_absorb_pos(st, msg.drop_last(), rate, turbo);
        crate::sponge::lemma_absorb_wf(st, msg, rate, turbo);
        let x = st.pos + msg.len() - 1;
        let q = x % rate;
        vstd::arithmetic::div_mod::lemma_add_mod_noop(x, 1, rate);
        vstd::arithmetic::div_mod::lemma_mod_bound(x, rate);
        if rate > 1 {
            vstd::arithmetic::div_mod::lemma_small_mod(1, rate as nat);
            if q + 1 < rate {
                vstd::arithmetic::div_mod::lemma_small_mod((q + 1) as nat, rate as nat);
            } else {
                vstd::arithmetic::div_mod::lemma_mod_self_0(rate);
            }
        } else {
            vstd::arithmetic::div_mod::lemma_mod_self_0(1);
            vstd::arithmetic::div_mod::lemma_mod_multiples_basic(x + 1, 1);
        }
    } else {
        vstd::arithmetic::div_mod::lemma_small_mod(st.pos as nat, rate as nat);
    }
}

/// SHAKE and TurboSHAKE as FIPS 202 writes the sponge: the message followed
/// by its padding fills whole blocks, and the output is squeezed from the
/// state after absorbing them.
pub proof fn lemma_sponge_output_pads_message(
    msg: Seq<u8>,
    domain: u8,
    bits: int,
    turbo: bool,
    len: nat,
)
    requires
        valid_bits(bits),
    ensures
        ({
            let rate = rate_of(bits);
            let padded = msg + padding((msg.len() as int) % rate, domain, rate);
            &&& (padded.len() as int) % rate == 0
            &&& sponge_output(msg, domain, rate, turbo, len) == squeeze_bytes(
                absorb_bytes(initial_state(), padded, rate, turbo),
                len,
                rate,
                turbo,
            ).0
        }),
{
    let rate = rate_of(bits);
    assert(state_wf(initial_state(), rate));
    lemma_absorb_pos(initial_state(), msg, rate, turbo);
    let st = absorb_bytes(initial_state(), msg, rate, turbo);
    lemma_pad_is_absorbing_padding(st, domain, rate, turbo);
    lemma_absorb_concat(initial_state(), msg, padding(st.pos, domain, rate), rate, turbo);
    let padded = msg + padding((msg.len() as int) % rate, domain, rate);
    assert((padded.len() as int) == (msg.len() as int) + (rate - (msg.len() as int) % rate));
    assert((padded.len() as int) % rate == 0) by {
        vstd::arithmetic::div_mod::lemma_fundamental_div_mod(msg.len() as int, rate);
        vstd::arithmetic::div_mod::lemma_mod_multiples_basic((msg.len() as int) / rate + 1, rate);
        assert((padded.len() as int) == ((msg.len() as int) / rate + 1) * rate) by (nonlinear_arith)
            requires
                (padded.len() as int) == (msg.len() as int) + (rate - (msg.len() as int) % rate),
                (msg.len() as int) == rate * ((msg.len() as int) / rate) + (msg.len() as int) % rate,
        ;
    }
}

/// A block XORed into the state: the `k`-th eight bytes of `block` into
/// lane `k` (FIPS 202 `S ^ (P || 0^c)`).
pub open spec fn xor_block(lanes: Seq<u64>, block: Seq<u8>) -> Seq<u64> {
    Seq::new(
        25,
        |i: int|
            if i < block.len() / 8 {
                lanes[i] ^ le_lane(block.subrange(8 * i, 8 * i + 8))
            } else {
                lanes[i]
            },
    )
}

/// The first `8 * (k as int)` bytes of a block absorbed from the start of the rate.
proof fn lemma_absorb_block_prefix(st: SpongeState, block: Seq<u8>, k: nat, rate: int, turbo: bool)
    requires
        state_wf(st, rate),
        st.pos == 0,
        rate % 8 == 0,
        block.len() == rate,
        8 * (k as int) < rate,
    ensures
        absorb_bytes(st, block.take(8 * (k as int)), rate, turbo) == (SpongeState {
            lanes: xor_block(st.lanes, block.take(8 * (k as int))),
            pos: 8 * (k as int),
        }),
    decreases k,
{
    if k == 0 {
        assert(block.take(0) =~= Seq::<u8>::empty());
        assert(xor_block(st.lanes, block.take(0)) =~= st.lanes);
    } else {
        let j = (k - 1) as nat;
        lemma_absorb_block_prefix(st, block, j, rate, turbo);
        let chunk = block.subrange(8 * (j as int), 8 * (j as int) + 8);
        let mid = SpongeState { lanes: xor_block(st.lanes, block.take(8 * (j as int))), pos: 8 * (j as int) };
        lemma_absorb_lane(mid, chunk, rate, turbo);
        lemma_absorb_concat(st, block.take(8 * (j as int)), chunk, rate, turbo);
        assert(block.take(8 * (j as int)) + chunk =~= block.take(8 * (k as int)));
        assert forall|i: int| 0 <= i < 25 implies #[trigger] xor_block(st.lanes, block.take(8 * (k as int)))[i]
            == mid.lanes.update(j as int, mid.lanes[j as int] ^ le_lane(chunk))[i] by {
            if i < j {
                assert(block.take(8 * (k as int)).subrange(8 * i, 8 * i + 8) =~= block.take(8 * (j as int)).subrange(
                    8 * i,
                    8 * i + 8,
                ));
            } else if i == j {
                assert(block.take(8 * (k as int)).subrange(8 * i, 8 * i + 8) =~= chunk);
            }
        }
        assert(xor_block(st.lanes, block.take(8 * (k as int))) =~= mid.lanes.update(
            j as int,
            mid.lanes[j as int] ^ le_lane(chunk),
        ));
    }
}

/// Absorbing a whole block from the start of the rate XORs it into the
/// state and permutes (FIPS 202 Algorithm 8, step 6).
pub proof fn lemma_absorb_block(st: SpongeState, block: Seq<u8>, bits: int, turbo: bool)
    requires
        valid_bits(bits),
        state_wf(st, rate_of(bits)),
        st.pos == 0,
        block.len() == rate_of(bits),
    ensures
        absorb_bytes(st, block, rate_of(bits), turbo) == (SpongeState {
            lanes: keccak_p(xor_block(st.lanes, block), rounds(turbo)),
            pos: 0,
        }),
{
    let rate = rate_of(bits);
    let k = (rate / 8 - 1) as nat;
    lemma_absorb_block_prefix(st, block, k, rate, turbo);
    let chunk = block.subrange(8 * (k as int), 8 * (k as int) + 8);
    let mid = SpongeState { lanes: xor_block(st.lanes, block.take(8 * (k as int))), pos: 8 * (k as int) };
    lemma_absorb_lane(mid, chunk, rate, turbo);
    lemma_absorb_concat(st, block.take(8 * (k as int)), chunk, rate, turbo);
    assert(block.take(8 * (k as int)) + chunk =~= block);
    assert forall|i: int| 0 <= i < 25 implies #[trigger] xor_block(st.lanes, block)[i]
        == mid.lanes.update(k as int, mid.lanes[k as int] ^ le_lane(chunk))[i] by {
        if i < k {
            assert(block.take(8 * (k as int)).subrange(8 * i, 8 * i + 8) =~= block.subrange(8 * i, 8 * i + 8));
        }
    }
    assert(xor_block(st.lanes, block) =~= mid.lanes.update(
        k as int,
        mid.lanes[k as int] ^ le_lane(chunk),
    ));
}

/// FIPS 202 Algorithm 8, steps 5 and 6: the padded message split into blocks
/// of `rate` bytes, each XORed into the state and followed by the
/// permutation.
pub open spec fn absorb_blocks(lanes: Seq<u64>, padded: Seq<u8>, rate: int, turbo: bool) -> Seq<u64>
    decreases padded.len(),
{
    if rate <= 0 || padded.len() < rate {
        lanes
    } else {
        let n = padded.len() - rate;
        keccak_p(
            xor_block(absorb_blocks(lanes, padded.take(n), rate, turbo), padded.skip(n)),
            rounds(turbo),
        )
    }
}

/// FIPS 202 Algorithm 8, steps 7 to 10: output the rate, permute, and
/// repeat until `len` bytes are out; keep the first `len`.
pub open spec fn squeeze_blocks(lanes: Seq<u64>, len: nat, rate: int, turbo: bool) -> Seq<u8>
    decreases len,
{
    let z = lanes_le_bytes(lanes.take(rate / 8));
    if rate <= 0 || len <= rate {
        z.take(len as int)
    } else {
        z + squeeze_blocks(keccak_p(lanes, rounds(turbo)), (len - rate) as nat, rate, turbo)
    }
}

/// `SPONGE[Keccak-p[1600, nr], pad10*1, r](M || suffix, len)` of FIPS 202
/// §4 and §6.2, with the suffix bits in the domain byte.
pub open spec fn fips_sponge(msg: Seq<u8>, domain: u8, bits: int, turbo: bool, len: nat) -> Seq<u8> {
    let rate = rate_of(bits);
    let padded = msg + padding((msg.len() as int) % rate, domain, rate);
    squeeze_blocks(absorb_blocks(Seq::new(25, |i: int| 0u64), padded, rate, turbo), len, rate, turbo)
}

/// Absorbing whole blocks byte by byte is absorbing them block by block.
proof fn lemma_absorb_is_blockwise(st: SpongeState, padded: Seq<u8>, bits: int, turbo: bool)
    requires
        valid_bits(bits),
        state_wf(st, rate_of(bits)),
        st.pos == 0,
        (padded.len() as int) % rate_of(bits) == 0,
    ensures
        absorb_bytes(st, padded, rate_of(bits), turbo) == (SpongeState {
            lanes: absorb_blocks(st.lanes, padded, rate_of(bits), turbo),
            pos: 0,
        }),
    decreases padded.len(),
{
    let rate = rate_of(bits);
    if padded.len() == 0 {
    } else {
        let n = padded.len() - rate;
        assert(n >= 0) by {
            vstd::arithmetic::div_mod::lemma_fundamental_div_mod(padded.len() as int, rate);
            if padded.len() < rate {
                vstd::arithmetic::div_mod::lemma_small_mod(padded.len(), rate as nat);
            }
        }
        assert((n as int) % rate == 0) by {
            vstd::arithmetic::div_mod::lemma_sub_mod_noop_right(padded.len() as int, rate, rate);
            vstd::arithmetic::div_mod::lemma_mod_self_0(rate);
        }
        lemma_absorb_is_blockwise(st, padded.take(n), bits, turbo);
        crate::sponge::lemma_absorb_wf(st, padded.take(n), rate, turbo);
        lemma_absorb_concat(st, padded.take(n), padded.skip(n), rate, turbo);
        assert(padded.take(n) + padded.skip(n) =~= padded);
        let mid = absorb_bytes(st, padded.take(n), rate, turbo);
        lemma_absorb_block(mid, padded.skip(n), bits, turbo);
    }
}

/// Squeezing from the start of the rate is squeezing block by block.
proof fn lemma_squeeze_is_blockwise(lanes: Seq<u64>, len: nat, bits: int, turbo: bool)
    requires
        valid_bits(bits),
        lanes.len() == 25,
    ensures
        squeeze_bytes(SpongeState { lanes, pos: 0 }, len, rate_of(bits), turbo).0 == squeeze_blocks(
            lanes,
            len,
            rate_of(bits),
            turbo,
        ),
    decreases len,
{
    let rate = rate_of(bits);
    let st = SpongeState { lanes, pos: 0 };
    lemma_drain_rate_is_squeeze(st, bits, turbo);
    if len <= rate {
        lemma_squeeze_concat(st, len, (rate - len) as nat, rate, turbo);
        lemma_squeeze_len(st, len, rate, turbo);
        assert(len + (rate - len) as nat == rate);
        let (o1, s1) = squeeze_bytes(st, len, rate, turbo);
        let (o2, s2) = squeeze_bytes(s1, (rate - len) as nat, rate, turbo);
        assert((o1 + o2).take(len as int) =~= o1);
        assert(lanes.subrange(0, rate / 8) =~= lanes.take(rate / 8));
    } else {
        lemma_squeeze_concat(st, rate as nat, (len - rate) as nat, rate, turbo);
        assert(rate as nat + (len - rate) as nat == len);
        crate::keccak::lemma_keccak_p_len(lanes, rounds(turbo));
        lemma_squeeze_is_blockwise(keccak_p(lanes, rounds(turbo)), (len - rate) as nat, bits, turbo);
        assert(lanes.subrange(0, rate / 8) =~= lanes.take(rate / 8));
    }
}

/// SHAKE128, SHAKE256, TurboSHAKE128 and TurboSHAKE256 as computed here are
/// the FIPS 202 sponge over the padded message, block by block.
pub proof fn lemma_sponge_output_is_fips_sponge(
    msg: Seq<u8>,
    domain: u8,
    bits: int,
    turbo: bool,
    len: nat,
)
    requires
        valid_bits(bits),
    ensures
        sponge_output(msg, domain, rate_of(bits), turbo, len) == fips_sponge(
            msg,
            domain,
            bits,
            turbo,
            len,
        ),
{
    let rate = rate_of(bits);
    let padded = msg + padding((msg.len() as int) % rate, domain, rate);
    lemma_sponge_output_pads_message(msg, domain, bits, turbo, len);
    assert(state_wf(initial_state(), rate));
    lemma_absorb_is_blockwise(initial_state(), padded, bits, turbo);
    let lanes = absorb_blocks(initial_state().lanes, padded, rate, turbo);
    lemma_absorb_blocks_len(initial_state().lanes, padded, rate, turbo);
    lemma_squeeze_is_blockwise(lanes, len, bits, turbo);
}

proof fn lemma_absorb_blocks_len(lanes: Seq<u64>, padded: Seq<u8>, rate: int, turbo: bool)
    requires
        lanes.len() == 25,
    ensures
        absorb_blocks(lanes, padded, rate, turbo).len() == 25,
    decreases padded.len(),
{
    if rate > 0 && padded.len() >= rate {
        let n = padded.len() - rate;
        lemma_absorb_blocks_len(lanes, padded.take(n), rate, turbo);
        crate::keccak::lemma_keccak_p_len(
            xor_block(absorb_blocks(lanes, padded.take(n), rate, turbo), padded.skip(n)),
            rounds(turbo),
        );
    }
}

/// Absorbing the byte strings of `parts` one call after another.
pub open spec fn absorb_parts(st: SpongeState, parts: Seq<Seq<u8>>, rate: int, turbo: bool) -> SpongeState
    decreases parts.len(),
{
    if parts.len() == 0 {
        st
    } else {
        absorb_bytes(absorb_parts(st, parts.drop_last(), rate, turbo), parts.last(), rate, turbo)
    }
}

/// Squeezing `lens[0]`, then `lens[1]`, ... bytes, one call after another:
/// the outputs of the calls and the state after the last.
pub open spec fn squeeze_parts(st: SpongeState, lens: Seq<nat>, rate: int, turbo: bool) -> (
    Seq<Seq<u8>>,
    SpongeState,
)
    decreases lens.len(),
{
    if lens.len() == 0 {
        (Seq::empty(), st)
    } else {
        let (outs, st1) = squeeze_parts(st, lens.drop_last(), rate, turbo);
        let (o, st2) = squeeze_bytes(st1, lens.last(), rate, turbo);
        (outs.push(o), st2)
    }
}

/// The sum of a sequence of lengths.
pub open spec fn total(lens: Seq<nat>) -> nat
    decreases lens.len(),
{
    if lens.len() == 0 {
        0
    } else {
        total(lens.drop_last()) + lens.last()
    }
}

/// Absorbing in several calls is absorbing the concatenation.
pub proof fn lemma_absorb_parts(st: SpongeState, parts: Seq<Seq<u8>>, rate: int, turbo: bool)
    ensures
        absorb_parts(st, parts, rate, turbo) == absorb_bytes(st, concat(parts), rate, turbo),
    decreases parts.len(),
{
    if parts.len() == 0 {
        reveal_with_fuel(absorb_bytes, 1);
    } else {
        lemma_absorb_parts(st, parts.drop_last(), rate, turbo);
        lemma_absorb_concat(st, concat(parts.drop_last()), parts.last(), rate, turbo);
    }
}

/// Squeezing in several calls gives, concatenated, the bytes of one squeeze
/// of the total length, and the same state after.
pub proof fn lemma_squeeze_parts(st: SpongeState, lens: Seq<nat>, rate: int, turbo: bool)
    ensures
        concat(squeeze_parts(st, lens, rate, turbo).0) == squeeze_bytes(st, total(lens), rate, turbo).0,
        squeeze_parts(st, lens, rate, turbo).1 == squeeze_bytes(st, total(lens), rate, turbo).1,
    decreases lens.len(),
{
    if lens.len() > 0 {
        lemma_squeeze_parts(st, lens.drop_last(), rate, turbo);
        lemma_squeeze_concat(st, total(lens.drop_last()), lens.last(), rate, turbo);
        let outs = squeeze_parts(st, lens, rate, turbo).0;
        assert(outs.drop_last() =~= squeeze_parts(st, lens.drop_last(), rate, turbo).0);
    }
}

/// Streaming SHAKE and TurboSHAKE: absorbing the chunks of a message in any
/// number of calls, finalizing, and squeezing in any number of calls gives,
/// concatenated, the FIPS 202 sponge output of the whole message for the
/// total length.
pub proof fn lemma_streaming_is_fips_sponge(
    parts: Seq<Seq<u8>>,
    lens: Seq<nat>,
    domain: u8,
    bits: int,
    turbo: bool,
)
    requires
        valid_bits(bits),
    ensures
        ({
            let rate = rate_of(bits);
            let st = pad(absorb_parts(initial_state(), parts, rate, turbo), domain, rate, turbo);
            concat(squeeze_parts(st, lens, rate, turbo).0) == fips_sponge(
                concat(parts),
                domain,
                bits,
                turbo,
                total(lens),
            )
        }),
{
    let rate = rate_of(bits);
    lemma_absorb_parts(initial_state(), parts, rate, turbo);
    let st = pad(absorb_parts(initial_state(), parts, rate, turbo), domain, rate, turbo);
    lemma_squeeze_parts(st, lens, rate, turbo);
    lemma_sponge_output_is_fips_sponge(concat(parts), domain, bits, turbo, total(lens));
}

/// What draining gives: the little-endian bytes of the rate lanes, then
/// the permutation, `n` times.
pub open spec fn drain_blocks(lanes: Seq<u64>, n: nat, rate: int, turbo: bool) -> Seq<u8>
    decreases n,
{
    if n == 0 {
        Seq::empty()
    } else {
        lanes_le_bytes(lanes.subrange(0, rate / 8)) + drain_blocks(
            keccak_p(lanes, rounds(turbo)),
            (n - 1) as nat,
            rate,
            turbo,
        )
    }
}

/// Draining `n` blocks from the start of the rate gives what squeezing
/// `n` blocks gives.
pub proof fn lemma_drain_blocks_is_squeeze(st: SpongeState, n: nat, bits: int, turbo: bool)
    requires
        valid_bits(bits),
        state_wf(st, rate_of(bits)),
        st.pos == 0,
    ensures
        drain_blocks(st.lanes, n, rate_of(bits), turbo) == squeeze_bytes(
            st,
            n * (rate_of(bits) as nat),
            rate_of(bits),
            turbo,
        ).0,
    decreases n,
{
    let rate = rate_of(bits);
    if n == 0 {
        assert(n * (rate as nat) == 0) by (nonlinear_arith)
            requires
                n == 0,
        ;
    } else {
        lemma_drain_rate_is_squeeze(st, bits, turbo);
        lemma_squeeze_concat(st, rate as nat, ((n - 1) as nat) * (rate as nat), rate, turbo);
        assert(rate as nat + ((n - 1) as nat) * (rate as nat) == n * (rate as nat))
            by (nonlinear_arith)
            requires
                n >= 1,
        ;
        let next = SpongeState { lanes: keccak_p(st.lanes, rounds(turbo)), pos: 0 };
        crate::keccak::lemma_keccak_p_len(st.lanes, rounds(turbo));
        lemma_drain_blocks_is_squeeze(next, (n - 1) as nat, bits, turbo);
    }
}

/// Draining `n` whole blocks after finalizing gives the first `n` blocks of
/// the FIPS 202 sponge output.
pub proof fn lemma_drain_is_fips_sponge(msg: Seq<u8>, domain: u8, bits: int, turbo: bool, n: nat)
    requires
        valid_bits(bits),
    ensures
        ({
            let rate = rate_of(bits);
            let st = pad(absorb_bytes(initial_state(), msg, rate, turbo), domain, rate, turbo);
            drain_blocks(st.lanes, n, rate, turbo) == fips_sponge(
                msg,
                domain,
                bits,
                turbo,
                n * (rate as nat),
            )
        }),
{
    let rate = rate_of(bits);
    assert(state_wf(initial_state(), rate));
    crate::sponge::lemma_absorb_wf(initial_state(), msg, rate, turbo);
    let a = absorb_bytes(initial_state(), msg, rate, turbo);
    let st = pad(a, domain, rate, turbo);
    crate::keccak::lemma_keccak_p_len(
        xor_byte(xor_byte(a.lanes, a.pos, domain), rate - 1, 0x80),
        rounds(turbo),
    );
    lemma_drain_blocks_is_squeeze(st, n, bits, turbo);
    lemma_sponge_output_is_fips_sponge(msg, domain, bits, turbo, n * (rate as nat));
}

proof fn lemma_shifted_byte_injective(x: u64, z: u64, d1: u8, d2: u8, s: u64)
    requires
        s <= 56,
    ensures
        (x ^ ((d1 as u64) << s)) ^ z == (x ^ ((d2 as u64) << s)) ^ z ==> d1 == d2,
        x ^ ((d1 as u64) << s) == x ^ ((d2 as u64) << s) ==> d1 == d2,
{
    assert((x ^ ((d1 as u64) << s)) ^ z == (x ^ ((d2 as u64) << s)) ^ z ==> d1 == d2)
        by (bit_vector)
        requires
            s <= 56,
    ;
    assert(x ^ ((d1 as u64) << s) == x ^ ((d2 as u64) << s) ==> d1 == d2) by (bit_vector)
        requires
            s <= 56,
    ;
}

/// Domain separation: from the same sponge state, two different domain
/// bytes give different padded states (the permutation is injective and
/// its inputs differ in the domain byte).
pub proof fn lemma_domain_separates(st: SpongeState, d1: u8, d2: u8, rate: int, turbo: bool)
    requires
        state_wf(st, rate),
        d1 != d2,
    ensures
        pad(st, d1, rate, turbo).lanes != pad(st, d2, rate, turbo).lanes,
{
    let p = st.pos;
    let in1 = xor_byte(xor_byte(st.lanes, p, d1), rate - 1, 0x80);
    let in2 = xor_byte(xor_byte(st.lanes, p, d2), rate - 1, 0x80);
    if pad(st, d1, rate, turbo).lanes == pad(st, d2, rate, turbo).lanes {
        crate::keccak::lemma_keccak_p_injective(in1, in2, rounds(turbo));
        let j = p / 8;
        let s = (8 * (p % 8)) as u64;
        let t = (8 * ((rate - 1) % 8)) as u64;
        assert(in1[j] == in2[j]);
        lemma_shifted_byte_injective(st.lanes[j], (0x80u8 as u64) << t, d1, d2, s);
        if j == (rate - 1) / 8 {
            assert(in1[j] == (st.lanes[j] ^ ((d1 as u64) << s)) ^ ((0x80u8 as u64) << t));
            assert(in2[j] == (st.lanes[j] ^ ((d2 as u64) << s)) ^ ((0x80u8 as u64) << t));
        } else {
            assert(in1[j] == st.lanes[j] ^ ((d1 as u64) << s));
            assert(in2[j] == st.lanes[j] ^ ((d2 as u64) << s));
        }
    }
}

} // verus!
