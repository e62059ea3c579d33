//! Concrete cases of the properties the library proves: the permutation,
//! streaming absorb and squeeze, the output-prefix property, padding at a
//! block's last byte, and the example program's instruction.

use sha3::digest::{ExtendableOutput, Update, XofReader};
use solana_shake::instruction::{InstructionError, process_instruction};
use solana_shake::keccak::keccak_p1600;
use solana_shake::{Shake, Shake128, Shake256, TurboShake128, TurboShake256};

fn sha3_shake128(input: &[u8], out_len: usize) -> Vec<u8> {
    let mut h = sha3::Shake128::default();
    h.update(input);
    let mut out = vec![0u8; out_len];
    h.finalize_xof().read(&mut out);
    out
}

#[test]
fn keccak_f1600_of_the_zero_state() {
    let mut s = [0u64; 25];
    keccak_p1600::<false>(&mut s);
    assert_eq!(s[0], 0xF1258F7940E1DDE7);
    assert_eq!(s[1], 0x84D5CCF933C0478A);
}

#[test]
fn keccak_p1600_twelve_rounds_differs_from_twenty_four() {
    let mut a = [0u64; 25];
    let mut b = [0u64; 25];
    keccak_p1600::<false>(&mut a);
    keccak_p1600::<true>(&mut b);
    assert_ne!(a, b);
}

#[test]
fn readme_hash_equals_hashv_of_the_pieces() {
    let digest = Shake256::hash::<64>(b"message");
    assert_eq!(digest, Shake256::hashv::<64>(&[b"mes", b"sage"]));
    let turbo = TurboShake128::hash::<32, 0x07>(b"message");
    assert_eq!(turbo, TurboShake128::hashv::<32, 0x07>(&[b"m", b"essage"]));
}

#[test]
fn absorbing_in_pieces_is_absorbing_the_whole() {
    let msg: Vec<u8> = (0..500u32).map(|i| (i * 7 + 3) as u8).collect();
    let mut whole = Shake128::new();
    whole.absorb(&msg);
    let mut pieces = Shake128::new();
    pieces.absorb(&msg[..1]);
    pieces.absorb(&msg[1..9]);
    pieces.absorb(&msg[9..170]);
    pieces.absorb(&[]);
    pieces.absorb(&msg[170..]);
    let mut a = [0u8; 48];
    let mut b = [0u8; 48];
    whole.finalize().squeeze(&mut a);
    pieces.finalize().squeeze(&mut b);
    assert_eq!(a, b);
    assert_eq!(a.to_vec(), sha3_shake128(&msg, 48));
}

#[test]
fn shorter_output_is_a_prefix_of_longer_output() {
    let short = Shake128::hash::<32>(b"prefix");
    let long = Shake128::hash::<500>(b"prefix");
    assert_eq!(&short[..], &long[..32]);
}

#[test]
fn padding_in_the_last_byte_of_a_block() {
    // 167 bytes leave one byte of a SHAKE128 block: domain and final bit
    // share it.
    let msg = [0xa5u8; 167];
    assert_eq!(Shake128::hash::<40>(&msg).to_vec(), sha3_shake128(&msg, 40));
    // 168 bytes fill the block: padding takes a block of its own.
    let msg = [0xa5u8; 168];
    assert_eq!(Shake128::hash::<40>(&msg).to_vec(), sha3_shake128(&msg, 40));
}

#[test]
fn squeeze_position_survives_permute() {
    // `permute` refills the rate without moving the squeeze position.
    let mut a = Shake256::new();
    a.absorb(b"cursor");
    let mut a = a.finalize();
    let mut first = [0u8; 3];
    a.squeeze(&mut first);
    a.permute();
    let lanes = a.rate_lanes().to_vec();
    let mut next = [0u8; 1];
    a.squeeze(&mut next);
    assert_eq!(next[0], (lanes[0] >> 24) as u8);
}

#[test]
fn default_is_new() {
    let mut a: Shake<128, false> = Shake::default();
    let mut b = Shake128::new();
    a.absorb(b"x");
    b.absorb(b"x");
    let mut oa = [0u8; 16];
    let mut ob = [0u8; 16];
    a.finalize().squeeze(&mut oa);
    b.finalize().squeeze(&mut ob);
    assert_eq!(oa, ob);
}

#[test]
fn rates_of_the_four_functions() {
    assert_eq!(Shake128::rate(), 168);
    assert_eq!(Shake256::rate(), 136);
    assert_eq!(TurboShake128::rate(), 168);
    assert_eq!(TurboShake256::rate(), 136);
}

#[test]
fn instruction_without_tag_is_refused() {
    assert_eq!(process_instruction(&[]), Err(InstructionError::InvalidInstructionData));
}

#[test]
fn instruction_with_unknown_tag_is_refused() {
    assert_eq!(process_instruction(&[8, 1, 2, 3]), Err(InstructionError::InvalidInstructionData));
    assert_eq!(process_instruction(&[255]), Err(InstructionError::InvalidInstructionData));
}

#[test]
fn instruction_tags_select_the_functions() {
    let message: Vec<u8> = (0..137u32).map(|i| i as u8).collect();
    let mut data = vec![0u8];
    data.extend_from_slice(&message);
    let expected = [
        Shake128::hash::<32>(&message),
        Shake256::hash::<32>(&message),
        TurboShake128::hash::<32, 0x1f>(&message),
        TurboShake256::hash::<32, 0x1f>(&message),
    ];
    for tag in 0..8u8 {
        data[0] = tag;
        let got = process_instruction(&data).unwrap();
        assert_eq!(got, expected[(tag % 4) as usize], "tag {tag}");
    }
    data[0] = 0;
    assert_eq!(process_instruction(&data).unwrap().to_vec(), sha3_shake128(&message, 32));
}

#[test]
fn instruction_with_empty_message() {
    for tag in 0..8u8 {
        let got = process_instruction(&[tag]).unwrap();
        assert_eq!(got, process_instruction(&[tag % 4]).unwrap());
    }
    assert_eq!(process_instruction(&[0]).unwrap().to_vec(), sha3_shake128(&[], 32));
}

#[test]
fn keccak_p1600_separates_states() {
    let mut a = [0u64; 25];
    let mut b = [0u64; 25];
    b[24] = 1 << 63;
    keccak_p1600::<true>(&mut a);
    keccak_p1600::<true>(&mut b);
    assert_ne!(a, b);
}

#[test]
fn different_domains_give_different_outputs() {
    let a = TurboShake256::hash::<32, 0x01>(b"domain");
    let b = TurboShake256::hash::<32, 0x02>(b"domain");
    assert_ne!(a, b);
    let mut s = TurboShake128::new();
    s.absorb(b"domain");
    let x1 = s.finalize::<0x06>();
    let mut t = TurboShake128::new();
    t.absorb(b"domain");
    let x2 = t.finalize::<0x07>();
    assert_ne!(x1.rate_lanes(), x2.rate_lanes());
}
