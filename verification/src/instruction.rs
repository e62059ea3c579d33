//! The example program's instruction: `[tag: 1][message]`, answered with
//! 32 output bytes. Tags `0..4` select SHAKE128, SHAKE256, TurboSHAKE128 and
//! TurboSHAKE256 through `hash`; tags `4..8` the same functions through
//! `hashv`, with the message split in half. TurboSHAKE uses domain `0x1F`.
use crate::shake::{Shake128, Shake256, TurboShake128, TurboShake256, slice_views};
use crate::sponge::{concat, rate_of, sponge_output};
use vstd::prelude::*;

verus! {

/// Why an instruction was refused.
#[derive(Debug, PartialEq, Eq, Structural)]
pub enum InstructionError {
    /// No tag byte, or a tag outside `0..8`.
    InvalidInstructionData,
}

/// The security level that tag `tag` selects.
pub open spec fn tag_bits(tag: u8) -> int {
    if tag % 2 == 0 {
        128
    } else {
        256
    }
}

/// Whether tag `tag` selects TurboSHAKE.
pub open spec fn tag_turbo(tag: u8) -> bool {
    tag % 4 >= 2
}

/// The 32 bytes that instruction data `data` is answered with, when it is
/// accepted.
pub open spec fn instruction_output(data: Seq<u8>) -> Seq<u8> {
    let tag = data[0];
    sponge_output(data.drop_first(), 0x1f, rate_of(tag_bits(tag)), tag_turbo(tag), 32)
}

/// A message under tag `tag` and under tag `tag + 4` is answered alike:
/// hashing the two halves of a message through `hashv` gives its hash.
pub proof fn lemma_hashv_tags_match_hash_tags(tag: u8, message: Seq<u8>)
    requires
        tag < 4,
    ensures
        instruction_output(seq![tag] + message) == instruction_output(
            seq![(tag + 4) as u8] + message,
        ),
{
    assert((seq![tag] + message).drop_first() =~= message);
    assert((seq![(tag + 4) as u8] + message).drop_first() =~= message);
}

/// The tag alone selects the function, whatever the message: `0` and `4`
/// SHAKE128 (rate 168), `1` and `5` SHAKE256 (rate 136), `2` and `6`
/// TurboSHAKE128, `3` and `7` TurboSHAKE256, all with 32 output bytes and,
/// for TurboSHAKE, the domain byte `0x1F`.
pub proof fn lemma_tags_select_functions(tag: u8, message: Seq<u8>)
    ensures
        (tag == 0 || tag == 4) ==> instruction_output(seq![tag] + message) == sponge_output(
            message,
            0x1f,
            168,
            false,
            32,
        ),
        (tag == 1 || tag == 5) ==> instruction_output(seq![tag] + message) == sponge_output(
            message,
            0x1f,
            136,
            false,
            32,
        ),
        (tag == 2 || tag == 6) ==> instruction_output(seq![tag] + message) == sponge_output(
            message,
            0x1f,
            168,
            true,
            32,
        ),
        (tag == 3 || tag == 7) ==> instruction_output(seq![tag] + message) == sponge_output(
            message,
            0x1f,
            136,
            true,
            32,
        ),
{
    assert((seq![tag] + message).drop_first() =~= message);
    assert((seq![tag] + message)[0] == tag);
}

fn shake128_hash(data: &[u8]) -> (out: [u8; 32])
    ensures
        out@ == sponge_output(data@, 0x1f, 168, false, 32),
{
    Shake128::hash::<32>(data)
}

fn shake256_hash(data: &[u8]) -> (out: [u8; 32])
    ensures
        out@ == sponge_output(data@, 0x1f, 136, false, 32),
{
    Shake256::hash::<32>(data)
}

fn turboshake128_hash(data: &[u8]) -> (out: [u8; 32])
    ensures
        out@ == sponge_output(data@, 0x1f, 168, true, 32),
{
    TurboShake128::hash::<32, 0x1f>(data)
}

fn turboshake256_hash(data: &[u8]) -> (out: [u8; 32])
    ensures
        out@ == sponge_output(data@, 0x1f, 136, true, 32),
{
    TurboShake256::hash::<32, 0x1f>(data)
}

/// The two halves of `data` (the first one shorter by one byte where the
/// length is odd), concatenated back.
proof fn lemma_halves(data: &[u8], left: &[u8], right: &[u8])
    requires
        left@ == data@.subrange(0, (data@.len() / 2) as int),
        right@ == data@.subrange((data@.len() / 2) as int, data@.len() as int),
    ensures
        concat(slice_views(seq![left, right])) == data@,
{
    reveal_with_fuel(concat, 3);
    let parts = slice_views(seq![left, right]);
    assert(parts.drop_last().drop_last() =~= Seq::<Seq<u8>>::empty());
    assert(parts.drop_last() =~= seq![left@]);
    assert(Seq::<u8>::empty() + left@ =~= left@);
    assert(left@ + right@ =~= data@);
}

fn shake128_hashv(data: &[u8]) -> (out: [u8; 32])
    ensures
        out@ == sponge_output(data@, 0x1f, 168, false, 32),
{
    let (left, right) = data.split_at(data.len() / 2);
    let parts: [&[u8]; 2] = [left, right];
    let ps = parts.as_slice();
    proof {
        assert(ps@ =~= seq![left, right]);
        lemma_halves(data, left, right);
    }
    Shake128::hashv::<32>(ps)
}

fn shake256_hashv(data: &[u8]) -> (out: [u8; 32])
    ensures
        out@ == sponge_output(data@, 0x1f, 136, false, 32),
{
    let (left, right) = data.split_at(data.len() / 2);
    let parts: [&[u8]; 2] = [left, right];
    let ps = parts.as_slice();
    proof {
        assert(ps@ =~= seq![left, right]);
        lemma_halves(data, left, right);
    }
    Shake256::hashv::<32>(ps)
}

fn turboshake128_hashv(data: &[u8]) -> (out: [u8; 32])
    ensures
        out@ == sponge_output(data@, 0x1f, 168, true, 32),
{
    let (left, right) = data.split_at(data.len() / 2);
    let parts: [&[u8]; 2] = [left, right];
    let ps = parts.as_slice();
    proof {
        assert(ps@ =~= seq![left, right]);
        lemma_halves(data, left, right);
    }
    TurboShake128::hashv::<32, 0x1f>(ps)
}

fn turboshake256_hashv(data: &[u8]) -> (out: [u8; 32])
    ensures
        out@ == sponge_output(data@, 0x1f, 136, true, 32),
{
    let (left, right) = data.split_at(data.len() / 2);
    let parts: [&[u8]; 2] = [left, right];
    let ps = parts.as_slice();
    proof {
        assert(ps@ =~= seq![left, right]);
        lemma_halves(data, left, right);
    }
    TurboShake256::hashv::<32, 0x1f>(ps)
}

/// The 32 bytes that the instruction `[tag][message]` is answered with: the
/// hash of the message under the function that `tag` selects. Through
/// `hashv` (tags `4..8`) the answer is the same as through `hash`.
pub fn process_instruction(data: &[u8]) -> (r: Result<[u8; 32], InstructionError>)
    ensures
        data@.len() == 0 || data@[0] >= 8 <==> r is Err,
        r matches Ok(out) ==> out@ == instruction_output(data@),
        r matches Ok(out) ==> (data@[0] == 0 || data@[0] == 4) ==> out@ == sponge_output(
            data@.drop_first(),
            0x1f,
            168,
            false,
            32,
        ),
        r matches Ok(out) ==> (data@[0] == 1 || data@[0] == 5) ==> out@ == sponge_output(
            data@.drop_first(),
            0x1f,
            136,
            false,
            32,
        ),
        r matches Ok(out) ==> (data@[0] == 2 || data@[0] == 6) ==> out@ == sponge_output(
            data@.drop_first(),
            0x1f,
            168,
            true,
            32,
        ),
        r matches Ok(out) ==> (data@[0] == 3 || data@[0] == 7) ==> out@ == sponge_output(
            data@.drop_first(),
            0x1f,
            136,
            true,
            32,
        ),
{
    if data.len() == 0 {
        return Err(InstructionError::InvalidInstructionData);
    }
    let (head, message) = data.split_at(1);
    let tag = head[0];
    assert(message@ =~= data@.drop_first());
    match tag {
        0 => Ok(shake128_hash(message)),
        1 => Ok(shake256_hash(message)),
        2 => Ok(turboshake128_hash(message)),
        3 => Ok(turboshake256_hash(message)),
        4 => Ok(shake128_hashv(message)),
        5 => Ok(shake256_hashv(message)),
        6 => Ok(turboshake128_hashv(message)),
        7 => Ok(turboshake256_hashv(message)),
        _ => Err(InstructionError::InvalidInstructionData),
    }
}

} // verus!
