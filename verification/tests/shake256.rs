//! Correctness tests for the SHAKE256 / Keccak-f[1600] core, through the
//! same calls its consumers make.

use solana_shake::Shake256;

#[test]
fn shake256_shake256_empty() {
    // NIST KAT: SHAKE256("") first 32 bytes
    let expected: [u8; 32] = [
        0x46, 0xb9, 0xdd, 0x2b, 0x0b, 0xa8, 0x8d, 0x13, 0x23, 0x3b, 0x3f, 0xeb, 0x74, 0x3e, 0xeb,
        0x24, 0x3f, 0xcd, 0x52, 0xea, 0x62, 0xb8, 0x1b, 0x82, 0xb5, 0x0c, 0x27, 0x64, 0x6e, 0xd5,
        0x76, 0x2f,
    ];
    let mut s = Shake256::new();
    let mut x = s.finalize();
    let mut out = [0u8; 32];
    x.squeeze(&mut out);
    assert_eq!(out, expected);
}

#[test]
fn shake256_shake256_abc() {
    // SHAKE256("abc") first 32 bytes
    let expected: [u8; 32] = [
        0x48, 0x33, 0x66, 0x60, 0x13, 0x60, 0xa8, 0x77, 0x1c, 0x68, 0x63, 0x08, 0x0c, 0xc4, 0x11,
        0x4d, 0x8d, 0xb4, 0x45, 0x30, 0xf8, 0xf1, 0xe1, 0xee, 0x4f, 0x94, 0xea, 0x37, 0xe7, 0x8b,
        0x57, 0x39,
    ];
    let mut s = Shake256::new();
    s.absorb(b"abc");
    let mut x = s.finalize();
    let mut out = [0u8; 32];
    x.squeeze(&mut out);
    assert_eq!(out, expected);
}

#[test]
fn shake256_shake256_long_squeeze() {
    // Squeeze across multiple rate blocks (RATE = 136 B/permute).
    let mut s = Shake256::new();
    let mut x = s.finalize();
    let mut out = [0u8; 200];
    x.squeeze(&mut out);
    let mut s2 = Shake256::new();
    let mut x2 = s2.finalize();
    let mut a = [0u8; 100];
    let mut b = [0u8; 100];
    x2.squeeze(&mut a);
    x2.squeeze(&mut b);
    assert_eq!(&out[..100], &a[..]);
    assert_eq!(&out[100..], &b[..]);
}
