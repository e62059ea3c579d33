//! `Shake` (the absorbing phase) and `Xof` (the squeezing phase).
use crate::keccak::{keccak_p, keccak_p1600, rounds};
use crate::sponge::{
    SpongeState, absorb_byte, absorb_bytes, concat, initial_state, lane_bytes, lemma_absorb_concat,
    lemma_absorb_lane, lemma_absorb_take_next, lemma_squeeze_concat,
    lemma_squeeze_lane, lemma_squeeze_wf, le_lane, pad, rate_of, sponge_output, squeeze_byte,
    squeeze_bytes, state_wf, valid_bits,
};
use vstd::prelude::*;

verus! {

/// A Keccak sponge at security level `BITS`, in its absorbing phase:
/// `new` -> `absorb`* -> `finalize`, which pads, permutes and returns the
/// [`Xof`] that squeezes.
///
/// `TURBO` selects the permutation and the padding. `false` is SHAKE (FIPS
/// 202): 24 rounds and the suffix `0x1F`. `true` is TurboSHAKE (RFC 9861):
/// the last 12 rounds and a domain byte given to `finalize`. The rate is
/// 200 bytes of state less a capacity of `2 * BITS` bits: 168 at 128 and
/// 136 at 256. No other `BITS` can be used: `new` and every operation
/// require one of these two.
pub struct Shake<const BITS: usize, const TURBO: bool> {
    state: [u64; 25],
    pos: usize,
}

/// The squeezing phase of a [`Shake`] sponge, borrowed from its `finalize`:
/// output is reachable only through this value, and while it lives the
/// sponge cannot be absorbed into. Squeezing and permuting act on the
/// sponge's own state, so when the `Xof` is dropped the sponge holds the
/// state and position the `Xof` last had. That last fact is not in the
/// contract of `finalize`: stating it would need a spec function that reads
/// the final value of the borrow held in the private field, which is a
/// prophetic spec function, and this crate does not use those.
/// Either drain the rate ([`rate_lanes`](Self::rate_lanes) +
/// [`permute`](Self::permute)) or [`squeeze`](Self::squeeze) a number of
/// bytes. Use one path per value: `permute` refills the rate without moving
/// the `squeeze` position.
pub struct Xof<'a, const BITS: usize, const TURBO: bool> {
    sponge: &'a mut Shake<BITS, TURBO>,
}

/// The lane whose little-endian bytes are `data[i..i + 8]`.
fn load_lane(data: &[u8], i: usize) -> (w: u64)
    requires
        i + 8 <= data@.len(),
    ensures
        w == le_lane(data@.subrange(i as int, i + 8)),
{
    (data[i] as u64) | ((data[i + 1] as u64) << 8u64) | ((data[i + 2] as u64) << 16u64) | ((data[i
        + 3] as u64) << 24u64) | ((data[i + 4] as u64) << 32u64) | ((data[i + 5] as u64) << 40u64)
        | ((data[i + 6] as u64) << 48u64) | ((data[i + 7] as u64) << 56u64)
}

/// SHAKE128 rate in bytes (1600-bit state less a 256-bit capacity).
pub const SHAKE128_RATE: usize = 168;

/// SHAKE256 rate in bytes (1600-bit state less a 512-bit capacity).
pub const SHAKE256_RATE: usize = 136;

/// SHAKE128 (FIPS 202).
pub type Shake128 = Shake<128, false>;

/// SHAKE256 (FIPS 202).
pub type Shake256 = Shake<256, false>;

/// TurboSHAKE128 (RFC 9861): twelve rounds and a domain byte chosen at
/// `finalize`.
pub type TurboShake128 = Shake<128, true>;

/// TurboSHAKE256 (RFC 9861).
pub type TurboShake256 = Shake<256, true>;

impl<const BITS: usize, const TURBO: bool> View for Shake<BITS, TURBO> {
    type V = SpongeState;

    closed spec fn view(&self) -> SpongeState {
        SpongeState { lanes: self.state@, pos: self.pos as int }
    }
}

impl<'a, const BITS: usize, const TURBO: bool> View for Xof<'a, BITS, TURBO> {
    type V = SpongeState;

    closed spec fn view(&self) -> SpongeState {
        (*self.sponge)@
    }
}

impl<const BITS: usize, const TURBO: bool> Shake<BITS, TURBO> {
    /// The rate of this sponge in bytes.
    pub open spec fn spec_rate() -> int {
        rate_of(BITS as int)
    }

    /// A valid security level and a state that the operations can reach.
    pub open spec fn wf(&self) -> bool {
        &&& valid_bits(BITS as int)
        &&& state_wf(self@, Self::spec_rate())
    }

    /// The rate in bytes: the 200-byte state less a capacity of `2 * BITS`
    /// bits. A function rather than an associated constant: a constant whose
    /// value depends on the const parameter `BITS` is not accepted by the
    /// verifier.
    pub fn rate() -> (r: usize)
        requires
            valid_bits(BITS as int),
        ensures
            r == Self::spec_rate(),
    {
        200 - BITS / 4
    }

    /// An empty sponge.
    pub fn new() -> (r: Self)
        requires
            valid_bits(BITS as int),
        ensures
            r.wf(),
            r@ == initial_state(),
    {
        let r = Self { state: [0; 25], pos: 0 };
        assert(r@.lanes =~= initial_state().lanes);
        r
    }

    /// XOR one byte into the state at the position and advance.
    fn absorb_one(&mut self, b: u8, rate: usize)
        requires
            old(self).wf(),
            rate == Self::spec_rate(),
        ensures
            final(self).wf(),
            final(self)@ == absorb_byte(old(self)@, b, Self::spec_rate(), TURBO),
    {
        let lane = self.pos / 8;
        let shift = 8 * (self.pos % 8);
        self.state[lane] = self.state[lane] ^ ((b as u64) << shift);
        self.pos = self.pos + 1;
        if self.pos == rate {
            keccak_p1600::<TURBO>(&mut self.state);
            self.pos = 0;
        }
        assert(self@.lanes =~= absorb_byte(old(self)@, b, Self::spec_rate(), TURBO).lanes);
    }

    /// XOR a whole lane into the state at a lane-aligned position and
    /// advance by eight bytes.
    fn absorb_lane(&mut self, w: u64, rate: usize)
        requires
            old(self).wf(),
            rate == Self::spec_rate(),
            old(self)@.pos % 8 == 0,
            old(self)@.pos + 8 <= rate,
        ensures
            final(self).wf(),
            final(self)@ == ({
                let st = old(self)@;
                let lanes = st.lanes.update(st.pos / 8, st.lanes[st.pos / 8] ^ w);
                if st.pos + 8 == rate {
                    SpongeState { lanes: keccak_p(lanes, rounds(TURBO)), pos: 0 }
                } else {
                    SpongeState { lanes, pos: st.pos + 8 }
                }
            }),
    {
        let lane = self.pos / 8;
        self.state[lane] = self.state[lane] ^ w;
        self.pos = self.pos + 8;
        if self.pos == rate {
            keccak_p1600::<TURBO>(&mut self.state);
            self.pos = 0;
        }
    }

    /// Absorb `data` into the state, byte by byte in order, permuting each
    /// time the rate is full. Calls compose: absorbing `a` then `b` is
    /// absorbing `a ++ b`.
    pub fn absorb(&mut self, data: &[u8])
        requires
            old(self).wf(),
        ensures
            final(self).wf(),
            final(self)@ == absorb_bytes(old(self)@, data@, Self::spec_rate(), TURBO),
    {
        let ghost st0 = self@;
        let rate = Self::rate();
        let mut i: usize = 0;
        let len = data.len();

        // Phase 1: byte by byte until lane-aligned.
        while i < len && self.pos % 8 != 0
            invariant
                self.wf(),
                rate == Self::spec_rate(),
                len == data@.len(),
                i <= len,
                self@ == absorb_bytes(st0, data@.take(i as int), Self::spec_rate(), TURBO),
            decreases len - i,
        {
            proof {
                lemma_absorb_take_next(st0, data@, i as int, Self::spec_rate(), TURBO);
            }
            self.absorb_one(data[i], rate);
            i = i + 1;
        }

        // Phase 2: whole 8-byte lanes. Bytes within a lane are little-endian
        // (FIPS 202), so a run of eight bytes is one lane.
        while len - i >= 8
            invariant
                self.wf(),
                rate == Self::spec_rate(),
                len == data@.len(),
                i <= len,
                i < len ==> self@.pos % 8 == 0,
                self@ == absorb_bytes(st0, data@.take(i as int), Self::spec_rate(), TURBO),
            decreases len - i,
        {
            let w = load_lane(data, i);
            proof {
                let chunk = data@.subrange(i as int, i + 8);
                lemma_absorb_lane(self@, chunk, Self::spec_rate(), TURBO);
                lemma_absorb_concat(st0, data@.take(i as int), chunk, Self::spec_rate(), TURBO);
                assert(data@.take(i as int) + chunk =~= data@.take(i + 8));
            }
            self.absorb_lane(w, rate);
            i = i + 8;
        }

        // Phase 3: the tail bytes (fewer than 8 left).
        while i < len
            invariant
                self.wf(),
                rate == Self::spec_rate(),
                len == data@.len(),
                i <= len,
                self@ == absorb_bytes(st0, data@.take(i as int), Self::spec_rate(), TURBO),
            decreases len - i,
        {
            proof {
                lemma_absorb_take_next(st0, data@, i as int, Self::spec_rate(), TURBO);
            }
            self.absorb_one(data[i], rate);
            i = i + 1;
        }
        assert(data@.take(len as int) =~= data@);
    }

    /// Read the state byte at the position and advance.
    fn squeeze_one(&mut self, rate: usize) -> (b: u8)
        requires
            old(self).wf(),
            rate == Self::spec_rate(),
        ensures
            final(self).wf(),
            (b, final(self)@) == squeeze_byte(old(self)@, Self::spec_rate(), TURBO),
    {
        let lane = self.pos / 8;
        let shift = 8 * (self.pos % 8);
        let b = (self.state[lane] >> shift) as u8;
        self.pos = self.pos + 1;
        if self.pos == rate {
            keccak_p1600::<TURBO>(&mut self.state);
            self.pos = 0;
        }
        b
    }

    /// Pad with the domain byte `DOMAIN` and `pad10*1`, permute, and return
    /// the [`Xof`] that squeezes from the padded state, borrowing the sponge.
    /// SHAKE requires `0x1F`; TurboSHAKE accepts `0x01..=0x7F` (RFC 9861).
    pub fn finalize_with_domain<const DOMAIN: u8>(&mut self) -> (x: Xof<'_, BITS, TURBO>)
        requires
            old(self).wf(),
            0x01 <= DOMAIN <= 0x7f,
            TURBO || DOMAIN == 0x1f,
        ensures
            x.wf(),
            x@ == pad(old(self)@, DOMAIN, Self::spec_rate(), TURBO),
    {
        let rate = Self::rate();
        let lane = self.pos / 8;
        let shift = 8 * (self.pos % 8);
        self.state[lane] = self.state[lane] ^ ((DOMAIN as u64) << shift);
        let last = rate - 1;
        self.state[last / 8] = self.state[last / 8] ^ (0x80u64 << (8 * (last % 8)));
        keccak_p1600::<TURBO>(&mut self.state);
        self.pos = 0;
        Xof { sponge: self }
    }
}

impl<const BITS: usize, const TURBO: bool> Default for Shake<BITS, TURBO> {
    /// An empty sponge, as [`Shake::new`] builds it.
    fn default() -> (r: Self)
        ensures
            r@ == initial_state(),
            valid_bits(BITS as int) ==> r.wf(),
    {
        let r = Self { state: [0; 25], pos: 0 };
        assert(r@.lanes =~= initial_state().lanes);
        r
    }
}

impl<const BITS: usize> Shake<BITS, false> {
    /// SHAKE of `data`: exactly `LEN` output bytes.
    pub fn hash<const LEN: usize>(data: &[u8]) -> (out: [u8; LEN])
        requires
            valid_bits(BITS as int),
        ensures
            out@ == sponge_output(data@, 0x1f, rate_of(BITS as int), false, LEN as nat),
    {
        let parts: [&[u8]; 1] = [data];
        let ps = parts.as_slice();
        let out = Self::hashv::<LEN>(ps);
        proof {
            lemma_concat_one(data@);
            assert(ps@ == parts@);
            assert(slice_views(ps@) =~= seq![data@]);
        }
        out
    }

    /// SHAKE of the concatenation of the slices of `data`. Slice boundaries
    /// add no padding or domain separation.
    pub fn hashv<const LEN: usize>(data: &[&[u8]]) -> (out: [u8; LEN])
        requires
            valid_bits(BITS as int),
        ensures
            out@ == sponge_output(
                concat(slice_views(data@)),
                0x1f,
                rate_of(BITS as int),
                false,
                LEN as nat,
            ),
    {
        let mut sponge = Self::new();
        absorb_all(&mut sponge, data);
        let mut out = [0; LEN];
        let mut x = sponge.finalize();
        x.squeeze(&mut out);
        out
    }

    /// SHAKE padding (FIPS 202 §6.2: the suffix `1111` then `pad10*1`, so
    /// the byte `0x1F`) and the permutation. The returned [`Xof`], which
    /// borrows the sponge, is the only way to read output.
    pub fn finalize(&mut self) -> (x: Xof<'_, BITS, false>)
        requires
            old(self).wf(),
        ensures
            x.wf(),
            x@ == pad(old(self)@, 0x1f, Self::spec_rate(), false),
    {
        self.finalize_with_domain::<0x1f>()
    }
}

impl<const BITS: usize> Shake<BITS, true> {
    /// TurboSHAKE of `data` with the domain byte `DOMAIN`: exactly `LEN`
    /// output bytes.
    pub fn hash<const LEN: usize, const DOMAIN: u8>(data: &[u8]) -> (out: [u8; LEN])
        requires
            valid_bits(BITS as int),
            0x01 <= DOMAIN <= 0x7f,
        ensures
            out@ == sponge_output(data@, DOMAIN, rate_of(BITS as int), true, LEN as nat),
    {
        let parts: [&[u8]; 1] = [data];
        let ps = parts.as_slice();
        let out = Self::hashv::<LEN, DOMAIN>(ps);
        proof {
            lemma_concat_one(data@);
            assert(ps@ == parts@);
            assert(slice_views(ps@) =~= seq![data@]);
        }
        out
    }

    /// TurboSHAKE of the concatenation of the slices of `data`. Slice
    /// boundaries add no padding or domain separation.
    pub fn hashv<const LEN: usize, const DOMAIN: u8>(data: &[&[u8]]) -> (out: [u8; LEN])
        requires
            valid_bits(BITS as int),
            0x01 <= DOMAIN <= 0x7f,
        ensures
            out@ == sponge_output(
                concat(slice_views(data@)),
                DOMAIN,
                rate_of(BITS as int),
                true,
                LEN as nat,
            ),
    {
        let mut sponge = Self::new();
        absorb_all(&mut sponge, data);
        let mut out = [0; LEN];
        let mut x = sponge.finalize::<DOMAIN>();
        x.squeeze(&mut out);
        out
    }

    /// TurboSHAKE padding (RFC 9861: the domain byte `DOMAIN`, in
    /// `0x01..=0x7F`, then `pad10*1`) and the permutation. The returned
    /// [`Xof`] borrows the sponge.
    pub fn finalize<const DOMAIN: u8>(&mut self) -> (x: Xof<'_, BITS, true>)
        requires
            old(self).wf(),
            0x01 <= DOMAIN <= 0x7f,
        ensures
            x.wf(),
            x@ == pad(old(self)@, DOMAIN, Self::spec_rate(), true),
    {
        self.finalize_with_domain::<DOMAIN>()
    }
}

/// The byte strings that the slices of `data` hold.
pub open spec fn slice_views(data: Seq<&[u8]>) -> Seq<Seq<u8>> {
    data.map_values(|p: &[u8]| p@)
}

/// The byte strings of `data` are those of its slices, one for each, in
/// order.
pub proof fn lemma_slice_views(data: Seq<&[u8]>)
    ensures
        slice_views(data).len() == data.len(),
        forall|i: int| 0 <= i < data.len() ==> #[trigger] slice_views(data)[i] == data[i]@,
{
}

/// `concat` joins the parts front to back: it is vstd's `flatten`, so the
/// input of `hashv` is every slice, from the first to the last, one after
/// another.
pub proof fn lemma_concat_is_flatten(parts: Seq<Seq<u8>>)
    ensures
        concat(parts) == parts.flatten(),
        concat(parts).len() == parts.flatten().len(),
    decreases parts.len(),
{
    lemma_concat_is_flatten_alt(parts);
    parts.lemma_flatten_and_flatten_alt_are_equivalent();
}

proof fn lemma_concat_is_flatten_alt(parts: Seq<Seq<u8>>)
    ensures
        concat(parts) == parts.flatten_alt(),
    decreases parts.len(),
{
    if parts.len() > 0 {
        lemma_concat_is_flatten_alt(parts.drop_last());
    }
}

/// The message `hashv` hashes: the first slice, followed by the
/// concatenation of the others; and one more slice at the end appends its
/// bytes.
pub proof fn lemma_hashv_message(data: Seq<&[u8]>, last: &[u8])
    ensures
        data.len() > 0 ==> concat(slice_views(data)) == data[0]@ + concat(
            slice_views(data.drop_first()),
        ),
        concat(slice_views(data.push(last))) == concat(slice_views(data)) + last@,
{
    lemma_concat_is_flatten(slice_views(data));
    lemma_concat_is_flatten(slice_views(data.drop_first()));
    if data.len() > 0 {
        assert(slice_views(data).drop_first() =~= slice_views(data.drop_first()));
    }
    assert(slice_views(data.push(last)).drop_last() =~= slice_views(data));
}

proof fn lemma_concat_one(m: Seq<u8>)
    ensures
        concat(seq![m]) == m,
{
    reveal_with_fuel(concat, 2);
    assert(seq![m].drop_last() =~= Seq::<Seq<u8>>::empty());
    assert(Seq::<u8>::empty() + m =~= m);
}

/// Absorb every slice of `data` in order.
fn absorb_all<const BITS: usize, const TURBO: bool>(sponge: &mut Shake<BITS, TURBO>, data: &[&[u8]])
    requires
        old(sponge).wf(),
    ensures
        final(sponge).wf(),
        final(sponge)@ == absorb_bytes(
            old(sponge)@,
            concat(slice_views(data@)),
            rate_of(BITS as int),
            TURBO,
        ),
{
    let ghost st0 = sponge@;
    let mut i: usize = 0;
    assert(concat(slice_views(data@).take(0)) =~= Seq::<u8>::empty());
    while i < data.len()
        invariant
            sponge.wf(),
            i <= data@.len(),
            sponge@ == absorb_bytes(
                st0,
                concat(slice_views(data@).take(i as int)),
                rate_of(BITS as int),
                TURBO,
            ),
        decreases data@.len() - i,
    {
        let part = data[i];
        proof {
            let views = slice_views(data@);
            assert(views.take(i + 1).drop_last() =~= views.take(i as int));
            lemma_absorb_concat(
                st0,
                concat(views.take(i as int)),
                part@,
                rate_of(BITS as int),
                TURBO,
            );
        }
        sponge.absorb(part);
        i = i + 1;
    }
    assert(slice_views(data@).take(i as int) =~= slice_views(data@));
}

impl<'a, const BITS: usize, const TURBO: bool> Xof<'a, BITS, TURBO> {
    /// The rate of this sponge in bytes.
    pub open spec fn spec_rate() -> int {
        rate_of(BITS as int)
    }

    /// A valid security level and a state that the operations can reach.
    pub open spec fn wf(&self) -> bool {
        &&& valid_bits(BITS as int)
        &&& state_wf(self@, Self::spec_rate())
    }

    /// The first `RATE / 8` lanes of the state (the rate). Bytes within each
    /// lane are little-endian (FIPS 202): the byte at offset `b` of lane `l`
    /// is `(rate_lanes()[l] >> (8 * b)) & 0xff`. Drain these, then call
    /// [`permute`](Self::permute) for the next block.
    pub fn rate_lanes(&self) -> (r: &[u64])
        requires
            self.wf(),
        ensures
            r@ == self@.lanes.subrange(0, Self::spec_rate() / 8),
    {
        let lanes = Shake::<BITS, TURBO>::rate() / 8;
        self.sponge.state.as_slice().split_at(lanes).0
    }

    /// Apply the permutation to refill the rate (used with
    /// [`rate_lanes`](Self::rate_lanes)). The `squeeze` position stays.
    pub fn permute(&mut self)
        requires
            old(self).wf(),
        ensures
            final(self).wf(),
            final(self)@ == (SpongeState {
                lanes: keccak_p(old(self)@.lanes, rounds(TURBO)),
                pos: old(self)@.pos,
            }),
    {
        keccak_p1600::<TURBO>(&mut self.sponge.state);
    }

    /// Squeeze exactly `LEN` bytes into `out`, permuting at each rate
    /// boundary. Calls compose: squeezing `n` then `m` bytes gives the
    /// same bytes as squeezing `n + m`.
    pub fn squeeze<const LEN: usize>(&mut self, out: &mut [u8; LEN])
        requires
            old(self).wf(),
        ensures
            final(self).wf(),
            (final(out)@, final(self)@) == squeeze_bytes(
                old(self)@,
                LEN as nat,
                Self::spec_rate(),
                TURBO,
            ),
    {
        let ghost st0 = self@;
        let rate = Shake::<BITS, TURBO>::rate();
        let len = LEN;
        let mut i: usize = 0;
        proof {
            lemma_squeeze_wf(st0, LEN as nat, Self::spec_rate(), TURBO);
            assert(out@.take(0) =~= Seq::<u8>::empty());
        }

        // Byte by byte until lane-aligned.
        while i < len && self.sponge.pos % 8 != 0
            invariant
                self.wf(),
                rate == Self::spec_rate(),
                len == LEN,
                i <= len,
                out@.take(i as int) == squeeze_bytes(st0, i as nat, Self::spec_rate(), TURBO).0,
                self@ == squeeze_bytes(st0, i as nat, Self::spec_rate(), TURBO).1,
            decreases len - i,
        {
            let b = self.sponge.squeeze_one(rate);
            out[i] = b;
            proof {
                assert(out@.take(i + 1) =~= out@.take(i as int).push(b));
            }
            i = i + 1;
        }

        // Whole lanes, while no rate boundary falls inside one.
        while len - i >= 8 && self.sponge.pos + 8 <= rate
            invariant
                self.wf(),
                rate == Self::spec_rate(),
                len == LEN,
                i <= len,
                i < len ==> self@.pos % 8 == 0,
                out@.take(i as int) == squeeze_bytes(st0, i as nat, Self::spec_rate(), TURBO).0,
                self@ == squeeze_bytes(st0, i as nat, Self::spec_rate(), TURBO).1,
            decreases len - i,
        {
            proof {
                lemma_squeeze_lane(self@, Self::spec_rate(), TURBO);
                lemma_squeeze_concat(st0, i as nat, 8, Self::spec_rate(), TURBO);
            }
            let w = self.sponge.state[self.sponge.pos / 8];
            out[i] = w as u8;
            out[i + 1] = (w >> 8u64) as u8;
            out[i + 2] = (w >> 16u64) as u8;
            out[i + 3] = (w >> 24u64) as u8;
            out[i + 4] = (w >> 32u64) as u8;
            out[i + 5] = (w >> 40u64) as u8;
            out[i + 6] = (w >> 48u64) as u8;
            out[i + 7] = (w >> 56u64) as u8;
            proof {
                assert(w >> 0u64 == w) by (bit_vector);
                assert(lane_bytes(w)[0] == out[i as int]);
                assert(out@.take(i + 8) =~= out@.take(i as int) + lane_bytes(w));
            }
            self.sponge.pos = self.sponge.pos + 8;
            i = i + 8;
            if self.sponge.pos == rate {
                keccak_p1600::<TURBO>(&mut self.sponge.state);
                self.sponge.pos = 0;
            }
        }

        // The tail: fewer than 8 bytes left, or a partial lane before a
        // rate boundary.
        while i < len
            invariant
                self.wf(),
                rate == Self::spec_rate(),
                len == LEN,
                i <= len,
                out@.take(i as int) == squeeze_bytes(st0, i as nat, Self::spec_rate(), TURBO).0,
                self@ == squeeze_bytes(st0, i as nat, Self::spec_rate(), TURBO).1,
            decreases len - i,
        {
            let b = self.sponge.squeeze_one(rate);
            out[i] = b;
            proof {
                assert(out@.take(i + 1) =~= out@.take(i as int).push(b));
            }
            i = i + 1;
        }
        assert(out@.take(len as int) =~= out@);
    }
}

} // verus!
