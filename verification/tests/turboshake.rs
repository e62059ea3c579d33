//! TurboSHAKE128 / TurboSHAKE256 against the test vectors of RFC 9861 §5,
//! and against the RustCrypto `sha3` crate with inputs split at random
//! points around every rate boundary, for every domain byte the RFC
//! exercises.

use sha3::digest::{ExtendableOutput, Update, XofReader};
use solana_shake::{Shake, TurboShake128, TurboShake256};

fn run<const BITS: usize, const D: u8>(input: &[u8], out_len: usize) -> Vec<u8> {
    let mut s = Shake::<BITS, true>::new();
    s.absorb(input);
    let mut x = s.finalize::<D>();
    let mut out = Vec::with_capacity(out_len);
    while out_len - out.len() >= 32 {
        let mut chunk = [0u8; 32];
        x.squeeze(&mut chunk);
        out.extend_from_slice(&chunk);
    }
    while out.len() < out_len {
        let mut one = [0u8; 1];
        x.squeeze(&mut one);
        out.push(one[0]);
    }
    out
}

/// The domain byte is a const parameter; the vectors and the differential
/// cover every value RFC 9861 §5 uses.
const DOMAINS: [u8; 7] = [0x01, 0x06, 0x07, 0x0B, 0x1F, 0x30, 0x7F];

fn turbo128(d: u8, input: &[u8], len: usize) -> Vec<u8> {
    match d {
        0x01 => run::<128, 0x01>(input, len),
        0x06 => run::<128, 0x06>(input, len),
        0x07 => run::<128, 0x07>(input, len),
        0x0B => run::<128, 0x0B>(input, len),
        0x1F => run::<128, 0x1F>(input, len),
        0x30 => run::<128, 0x30>(input, len),
        0x7F => run::<128, 0x7F>(input, len),
        other => panic!("no dispatch for domain {other:#04x}"),
    }
}

fn turbo256(d: u8, input: &[u8], len: usize) -> Vec<u8> {
    match d {
        0x01 => run::<256, 0x01>(input, len),
        0x06 => run::<256, 0x06>(input, len),
        0x07 => run::<256, 0x07>(input, len),
        0x0B => run::<256, 0x0B>(input, len),
        0x1F => run::<256, 0x1F>(input, len),
        0x30 => run::<256, 0x30>(input, len),
        0x7F => run::<256, 0x7F>(input, len),
        other => panic!("no dispatch for domain {other:#04x}"),
    }
}

fn turbo(bits: usize, d: u8, input: &[u8], len: usize) -> Vec<u8> {
    match bits {
        128 => turbo128(d, input, len),
        256 => turbo256(d, input, len),
        _ => unreachable!(),
    }
}

/// `ptn(n)`: the pattern `00 01 .. FA` repeated and truncated to `n` bytes.
fn ptn(n: usize) -> Vec<u8> {
    (0..n).map(|i| (i % 0xFB) as u8).collect()
}

fn unhex(text: &str) -> Vec<u8> {
    text.split_whitespace()
        .map(|b| u8::from_str_radix(b, 16).unwrap())
        .collect()
}

struct Vector {
    bits: usize,
    domain: u8,
    message: Vec<u8>,
    len: usize,
    last32: bool,
    output: Vec<u8>,
}

fn vector(bits: usize, message: Vec<u8>, domain: u8, len: usize, last32: bool, hex: &str) -> Vector {
    Vector {
        bits,
        domain,
        message,
        len,
        last32,
        output: unhex(hex),
    }
}

/// RFC 9861 §5.
fn vectors() -> Vec<Vector> {
    vec![
        vector(128, Vec::new(), 0x1F, 32, false,
            "1E 41 5F 1C 59 83 AF F2 16 92 17 27 7D 17 BB 53 8C D9 45 A3 97 DD EC 54 1F 1C E4 1A F2 C1 B7 4C"),
        vector(128, Vec::new(), 0x1F, 64, false,
            "1E 41 5F 1C 59 83 AF F2 16 92 17 27 7D 17 BB 53 8C D9 45 A3 97 DD EC 54 1F 1C E4 1A F2 C1 B7 4C \
             3E 8C CA E2 A4 DA E5 6C 84 A0 4C 23 85 C0 3C 15 E8 19 3B DF 58 73 73 63 32 16 91 C0 54 62 C8 DF"),
        vector(128, Vec::new(), 0x1F, 10032, true,
            "A3 B9 B0 38 59 00 CE 76 1F 22 AE D5 48 E7 54 DA 10 A5 24 2D 62 E8 C6 58 E3 F3 A9 23 A7 55 56 07"),
        vector(128, ptn(1), 0x1F, 32, false,
            "55 CE DD 6F 60 AF 7B B2 9A 40 42 AE 83 2E F3 F5 8D B7 29 9F 89 3E BB 92 47 24 7D 85 69 58 DA A9"),
        vector(128, ptn(17), 0x1F, 32, false,
            "9C 97 D0 36 A3 BA C8 19 DB 70 ED E0 CA 55 4E C6 E4 C2 A1 A4 FF BF D9 EC 26 9C A6 A1 11 16 12 33"),
        vector(128, ptn(17 * 17), 0x1F, 32, false,
            "96 C7 7C 27 9E 01 26 F7 FC 07 C9 B0 7F 5C DA E1 E0 BE 60 BD BE 10 62 00 40 E7 5D 72 23 A6 24 D2"),
        vector(128, ptn(17 * 17 * 17), 0x1F, 32, false,
            "D4 97 6E B5 6B CF 11 85 20 58 2B 70 9F 73 E1 D6 85 3E 00 1F DA F8 0E 1B 13 E0 D0 59 9D 5F B3 72"),
        vector(128, ptn(17 * 17 * 17 * 17), 0x1F, 32, false,
            "DA 67 C7 03 9E 98 BF 53 0C F7 A3 78 30 C6 66 4E 14 CB AB 7F 54 0F 58 40 3B 1B 82 95 13 18 EE 5C"),
        vector(128, ptn(17 * 17 * 17 * 17 * 17), 0x1F, 32, false,
            "B9 7A 90 6F BF 83 EF 7C 81 25 17 AB F3 B2 D0 AE A0 C4 F6 03 18 CE 11 CF 10 39 25 12 7F 59 EE CD"),
        vector(128, ptn(17 * 17 * 17 * 17 * 17 * 17), 0x1F, 32, false,
            "35 CD 49 4A DE DE D2 F2 52 39 AF 09 A7 B8 EF 0C 4D 1C A4 FE 2D 1A C3 70 FA 63 21 6F E7 B4 C2 B1"),
        vector(128, unhex("FF FF FF"), 0x01, 32, false,
            "BF 32 3F 94 04 94 E8 8E E1 C5 40 FE 66 0B E8 A0 C9 3F 43 D1 5E C0 06 99 84 62 FA 99 4E ED 5D AB"),
        vector(128, unhex("FF"), 0x06, 32, false,
            "8E C9 C6 64 65 ED 0D 4A 6C 35 D1 35 06 71 8D 68 7A 25 CB 05 C7 4C CA 1E 42 50 1A BD 83 87 4A 67"),
        vector(128, unhex("FF FF FF"), 0x07, 32, false,
            "B6 58 57 60 01 CA D9 B1 E5 F3 99 A9 F7 77 23 BB A0 54 58 04 2D 68 20 6F 72 52 68 2D BA 36 63 ED"),
        vector(128, unhex("FF FF FF FF FF FF FF"), 0x0B, 32, false,
            "8D EE AA 1A EC 47 CC EE 56 9F 65 9C 21 DF A8 E1 12 DB 3C EE 37 B1 81 78 B2 AC D8 05 B7 99 CC 37"),
        vector(128, unhex("FF"), 0x30, 32, false,
            "55 31 22 E2 13 5E 36 3C 32 92 BE D2 C6 42 1F A2 32 BA B0 3D AA 07 C7 D6 63 66 03 28 65 06 32 5B"),
        vector(128, unhex("FF FF FF"), 0x7F, 32, false,
            "16 27 4C C6 56 D4 4C EF D4 22 39 5D 0F 90 53 BD A6 D2 8E 12 2A BA 15 C7 65 E5 AD 0E 6E AF 26 F9"),
        vector(256, Vec::new(), 0x1F, 64, false,
            "36 7A 32 9D AF EA 87 1C 78 02 EC 67 F9 05 AE 13 C5 76 95 DC 2C 66 63 C6 10 35 F5 9A 18 F8 E7 DB \
             11 ED C0 E1 2E 91 EA 60 EB 6B 32 DF 06 DD 7F 00 2F BA FA BB 6E 13 EC 1C C2 0D 99 55 47 60 0D B0"),
        vector(256, Vec::new(), 0x1F, 10032, true,
            "AB EF A1 16 30 C6 61 26 92 49 74 26 85 EC 08 2F 20 72 65 DC CF 2F 43 53 4E 9C 61 BA 0C 9D 1D 75"),
        vector(256, ptn(1), 0x1F, 64, false,
            "3E 17 12 F9 28 F8 EA F1 05 46 32 B2 AA 0A 24 6E D8 B0 C3 78 72 8F 60 BC 97 04 10 15 5C 28 82 0E \
             90 CC 90 D8 A3 00 6A A2 37 2C 5C 5E A1 76 B0 68 2B F2 2B AE 74 67 AC 94 F7 4D 43 D3 9B 04 82 E2"),
        vector(256, ptn(17), 0x1F, 64, false,
            "B3 BA B0 30 0E 6A 19 1F BE 61 37 93 98 35 92 35 78 79 4E A5 48 43 F5 01 10 90 FA 2F 37 80 A9 E5 \
             CB 22 C5 9D 78 B4 0A 0F BF F9 E6 72 C0 FB E0 97 0B D2 C8 45 09 1C 60 44 D6 87 05 4D A5 D8 E9 C7"),
        vector(256, ptn(17 * 17), 0x1F, 64, false,
            "66 B8 10 DB 8E 90 78 04 24 C0 84 73 72 FD C9 57 10 88 2F DE 31 C6 DF 75 BE B9 D4 CD 93 05 CF CA \
             E3 5E 7B 83 E8 B7 E6 EB 4B 78 60 58 80 11 63 16 FE 2C 07 8A 09 B9 4A D7 B8 21 3C 0A 73 8B 65 C0"),
        vector(256, ptn(17 * 17 * 17), 0x1F, 64, false,
            "C7 4E BC 91 9A 5B 3B 0D D1 22 81 85 BA 02 D2 9E F4 42 D6 9D 3D 42 76 A9 3E FE 0B F9 A1 6A 7D C0 \
             CD 4E AB AD AB 8C D7 A5 ED D9 66 95 F5 D3 60 AB E0 9E 2C 65 11 A3 EC 39 7D A3 B7 6B 9E 16 74 FB"),
        vector(256, ptn(17 * 17 * 17 * 17), 0x1F, 64, false,
            "02 CC 3A 88 97 E6 F4 F6 CC B6 FD 46 63 1B 1F 52 07 B6 6C 6D E9 C7 B5 5B 2D 1A 23 13 4A 17 0A FD \
             AC 23 4E AB A9 A7 7C FF 88 C1 F0 20 B7 37 24 61 8C 56 87 B3 62 C4 30 B2 48 CD 38 64 7F 84 8A 1D"),
        vector(256, ptn(17 * 17 * 17 * 17 * 17), 0x1F, 64, false,
            "AD D5 3B 06 54 3E 58 4B 58 23 F6 26 99 6A EE 50 FE 45 ED 15 F2 02 43 A7 16 54 85 AC B4 AA 76 B4 \
             FF DA 75 CE DF 6D 8C DC 95 C3 32 BD 56 F4 B9 86 B5 8B B1 7D 17 78 BF C1 B1 A9 75 45 CD F4 EC 9F"),
        vector(256, ptn(17 * 17 * 17 * 17 * 17 * 17), 0x1F, 64, false,
            "9E 11 BC 59 C2 4E 73 99 3C 14 84 EC 66 35 8E F7 1D B7 4A EF D8 4E 12 3F 78 00 BA 9C 48 53 E0 2C \
             FE 70 1D 9E 6B B7 65 A3 04 F0 DC 34 A4 EE 3B A8 2C 41 0F 0D A7 0E 86 BF BD 90 EA 87 7C 2D 61 04"),
        vector(256, unhex("FF FF FF"), 0x01, 64, false,
            "D2 1C 6F BB F5 87 FA 22 82 F2 9A EA 62 01 75 FB 02 57 41 3A F7 8A 0B 1B 2A 87 41 9C E0 31 D9 33 \
             AE 7A 4D 38 33 27 A8 A1 76 41 A3 4F 8A 1D 10 03 AD 7D A6 B7 2D BA 84 BB 62 FE F2 8F 62 F1 24 24"),
        vector(256, unhex("FF"), 0x06, 64, false,
            "73 8D 7B 4E 37 D1 8B 7F 22 AD 1B 53 13 E3 57 E3 DD 7D 07 05 6A 26 A3 03 C4 33 FA 35 33 45 52 80 \
             F4 F5 A7 D4 F7 00 EF B4 37 FE 6D 28 14 05 E0 7B E3 2A 0A 97 2E 22 E6 3A DC 1B 09 0D AE FE 00 4B"),
        vector(256, unhex("FF FF FF"), 0x07, 64, false,
            "18 B3 B5 B7 06 1C 2E 67 C1 75 3A 00 E6 AD 7E D7 BA 1C 90 6C F9 3E FB 70 92 EA F2 7F BE EB B7 55 \
             AE 6E 29 24 93 C1 10 E4 8D 26 00 28 49 2B 8E 09 B5 50 06 12 B8 F2 57 89 85 DE D5 35 7D 00 EC 67"),
        vector(256, unhex("FF FF FF FF FF FF FF"), 0x0B, 64, false,
            "BB 36 76 49 51 EC 97 E9 D8 5F 7E E9 A6 7A 77 18 FC 00 5C F4 25 56 BE 79 CE 12 C0 BD E5 0E 57 36 \
             D6 63 2B 0D 0D FB 20 2D 1B BB 8F FE 3D D7 4C B0 08 34 FA 75 6C B0 34 71 BA B1 3A 1E 2C 16 B3 C0"),
        vector(256, unhex("FF"), 0x30, 64, false,
            "F3 FE 12 87 3D 34 BC BB 2E 60 87 79 D6 B7 0E 7F 86 BE C7 E9 0B F1 13 CB D4 FD D0 C4 E2 F4 62 5E \
             14 8D D7 EE 1A 52 77 6C F7 7F 24 05 14 D9 CC FC 3B 5D DA B8 EE 25 5E 39 EE 38 90 72 96 2C 11 1A"),
        vector(256, unhex("FF FF FF"), 0x7F, 64, false,
            "AB E5 69 C1 F7 7E C3 40 F0 27 05 E7 D3 7C 9A B7 E1 55 51 6E 4A 6A 15 00 21 D7 0B 6F AC 0B B4 0C \
             06 9F 9A 98 28 A0 D5 75 CD 99 F9 BA E4 35 AB 1A CF 7E D9 11 0B A9 7C E0 38 8D 07 4B AC 76 87 76"),
    ]
}

#[test]
fn rfc9861_vectors() {
    let all = vectors();
    assert_eq!(
        all.len(),
        31,
        "RFC 9861 §5 lists 16 TurboSHAKE128 and 15 TurboSHAKE256 vectors"
    );
    for v in &all {
        let got = turbo(v.bits, v.domain, &v.message, v.len);
        let got = if v.last32 {
            &got[v.len - 32..]
        } else {
            &got[..]
        };
        assert_eq!(
            got, v.output,
            "TurboSHAKE{} D={:#04x} len={}",
            v.bits, v.domain, v.len
        );
    }
}

/// Deterministic xorshift so the differential inputs are reproducible.
struct Rng(u64);

impl Rng {
    fn next(&mut self) -> u64 {
        self.0 ^= self.0 << 13;
        self.0 ^= self.0 >> 7;
        self.0 ^= self.0 << 17;
        self.0
    }
    fn below(&mut self, n: usize) -> usize {
        (self.next() % n as u64) as usize
    }
    fn fill(&mut self, buf: &mut [u8]) {
        for b in buf {
            *b = self.next() as u8;
        }
    }
}

fn sha3_turbo(bits: usize, d: u8, input: &[u8], out_len: usize) -> Vec<u8> {
    let mut out = vec![0u8; out_len];
    if bits == 128 {
        let mut h = sha3::TurboShake128::from_core(sha3::TurboShake128Core::new(d));
        h.update(input);
        h.finalize_xof().read(&mut out);
    } else {
        let mut h = sha3::TurboShake256::from_core(sha3::TurboShake256Core::new(d));
        h.update(input);
        h.finalize_xof().read(&mut out);
    }
    out
}

/// Random input lengths around every rate boundary, absorbed in random
/// chunks, against the `sha3` crate, for both levels and every RFC domain.
#[test]
fn chunked_matches_sha3_for_every_domain() {
    let mut rng = Rng(0x5851_f42d_4c95_7f2d);
    for bits in [128usize, 256] {
        let rate = 200 - bits / 4;
        for d in DOMAINS {
            for iter in 0..400 {
                let in_len = match iter % 3 {
                    0 => rng.below(3 * rate + 8),
                    1 => rate * (1 + rng.below(3)) + rng.below(3) - 1,
                    _ => rng.below(9),
                };
                let out_len = 1 + rng.below(2 * rate + 8);
                let mut input = vec![0u8; in_len];
                rng.fill(&mut input);
                let expected = sha3_turbo(bits, d, &input, out_len);
                let ours = chunked(bits, d, &input, out_len, &mut rng);
                assert_eq!(
                    ours, expected,
                    "TurboSHAKE{bits} D={d:#04x} in_len={in_len} out_len={out_len}"
                );
            }
        }
    }
}

fn chunked_run<const BITS: usize, const D: u8>(
    input: &[u8],
    out_len: usize,
    rng: &mut Rng,
) -> Vec<u8> {
    let mut s = Shake::<BITS, true>::new();
    let mut pos = 0;
    while pos < input.len() {
        let take = 1 + rng.below(input.len() - pos);
        s.absorb(&input[pos..pos + take]);
        pos += take;
    }
    let mut x = s.finalize::<D>();
    let mut out = Vec::with_capacity(out_len);
    while out.len() < out_len {
        let remaining = out_len - out.len();
        if remaining >= 64 && rng.below(2) == 0 {
            let mut b = [0u8; 64];
            x.squeeze(&mut b);
            out.extend_from_slice(&b);
        } else {
            let mut b = [0u8; 1];
            x.squeeze(&mut b);
            out.extend_from_slice(&b);
        }
    }
    out
}

fn chunked128(d: u8, input: &[u8], len: usize, rng: &mut Rng) -> Vec<u8> {
    match d {
        0x01 => chunked_run::<128, 0x01>(input, len, rng),
        0x06 => chunked_run::<128, 0x06>(input, len, rng),
        0x07 => chunked_run::<128, 0x07>(input, len, rng),
        0x0B => chunked_run::<128, 0x0B>(input, len, rng),
        0x1F => chunked_run::<128, 0x1F>(input, len, rng),
        0x30 => chunked_run::<128, 0x30>(input, len, rng),
        0x7F => chunked_run::<128, 0x7F>(input, len, rng),
        other => panic!("no dispatch for domain {other:#04x}"),
    }
}

fn chunked256(d: u8, input: &[u8], len: usize, rng: &mut Rng) -> Vec<u8> {
    match d {
        0x01 => chunked_run::<256, 0x01>(input, len, rng),
        0x06 => chunked_run::<256, 0x06>(input, len, rng),
        0x07 => chunked_run::<256, 0x07>(input, len, rng),
        0x0B => chunked_run::<256, 0x0B>(input, len, rng),
        0x1F => chunked_run::<256, 0x1F>(input, len, rng),
        0x30 => chunked_run::<256, 0x30>(input, len, rng),
        0x7F => chunked_run::<256, 0x7F>(input, len, rng),
        other => panic!("no dispatch for domain {other:#04x}"),
    }
}

fn chunked(bits: usize, d: u8, input: &[u8], len: usize, rng: &mut Rng) -> Vec<u8> {
    match bits {
        128 => chunked128(d, input, len, rng),
        256 => chunked256(d, input, len, rng),
        _ => unreachable!(),
    }
}

/// The rate-draining path yields the same bytes as `squeeze`, block after
/// block, on the twelve-round permutation too.
#[test]
fn turboshake_rate_lanes_match_squeeze() {
    fn check<const BITS: usize, const RATE: usize>() {
        assert_eq!(RATE, Shake::<BITS, true>::rate());
        let mut a = Shake::<BITS, true>::new();
        a.absorb(b"rate-drain");
        let mut a = a.finalize::<0x07>();
        let mut b = Shake::<BITS, true>::new();
        b.absorb(b"rate-drain");
        let mut b = b.finalize::<0x07>();
        for _ in 0..3 {
            let mut drained = Vec::with_capacity(RATE);
            for lane in a.rate_lanes() {
                drained.extend_from_slice(&lane.to_le_bytes());
            }
            a.permute();
            let mut squeezed = [0u8; RATE];
            b.squeeze(&mut squeezed);
            assert_eq!(&squeezed[..], &drained[..]);
        }
    }
    check::<128, 168>();
    check::<256, 136>();
}

fn empty_turboshake128() -> [u8; 32] {
    let mut s = TurboShake128::new();
    let mut x = s.finalize::<0x1F>();
    let mut out = [0u8; 32];
    x.squeeze(&mut out);
    out
}

fn lanes_turboshake256() -> u64 {
    let mut s = TurboShake256::new();
    s.absorb(b"lanes");
    let mut x = s.finalize::<0x0B>();
    x.permute();
    x.rate_lanes()[3]
}

#[test]
fn const_evaluation_matches_runtime_and_rfc() {
    let digest = empty_turboshake128();
    assert_eq!(digest.to_vec(), turbo(128, 0x1F, &[], 32));
    // RFC 9861 §5, TurboSHAKE128(M=`00`^0, D=`1F`, 32), first four bytes.
    assert_eq!(&digest[..4], &[0x1E, 0x41, 0x5F, 0x1C]);
    let mut s = TurboShake256::new();
    s.absorb(b"lanes");
    let mut x = s.finalize::<0x0B>();
    x.permute();
    let runtime = x.rate_lanes()[3];
    assert_eq!(lanes_turboshake256(), runtime);
}

#[test]
fn turboshake_hashv_matches_sha3_at_rate_boundaries() {
    fn check<const BITS: usize, const D: u8>() {
        let input = [0x5a; 337];
        for len in [0, 1, 135, 136, 137, 167, 168, 169, 337] {
            let input = &input[..len];
            let expected = sha3_turbo(BITS, D, input, 400);
            assert_eq!(
                Shake::<BITS, true>::hash::<400, D>(input).as_slice(),
                expected
            );
            for split in [0, len / 2, len] {
                assert_eq!(
                    Shake::<BITS, true>::hashv::<400, D>(&[
                        &[],
                        &input[..split],
                        &[],
                        &input[split..]
                    ])
                    .as_slice(),
                    expected
                );
            }
        }
    }
    check::<128, 0x01>();
    check::<128, 0x7f>();
    check::<256, 0x01>();
    check::<256, 0x7f>();
    let empty: [u8; 32] = Shake::<128, true>::hashv::<32, 0x1f>(&[]);
    assert_eq!(empty, empty_turboshake128());
}
