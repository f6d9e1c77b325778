//! Wire frames of the bootloader protocol.
use byteorder::{BigEndian, ByteOrder};
use vstd::prelude::*;

verus! {

/// Largest block the bootloader moves in one exchange.
pub const BLOCK_SIZE: usize = 128;

/// XOR of `init` with every byte of `s`, folded from the left.
pub open spec fn xor_fold(init: u8, s: Seq<u8>) -> u8
    decreases s.len(),
{
    if s.len() == 0 {
        init
    } else {
        xor_fold(init, s.drop_last()) ^ s.last()
    }
}

/// The four bytes of `a`, most significant first.
pub open spec fn be_bytes(a: u32) -> Seq<u8> {
    seq![(a >> 24u32) as u8, (a >> 16u32) as u8, (a >> 8u32) as u8, a as u8]
}

/// An opcode followed by its complement.
pub open spec fn command_frame_of(op: u8) -> Seq<u8> {
    seq![op, op ^ 0xFFu8]
}

/// A big-endian address followed by the XOR of its four bytes.
pub open spec fn address_frame_of(a: u32) -> Seq<u8> {
    be_bytes(a).push(xor_fold(0, be_bytes(a)))
}

/// Length byte (`len - 1`), the payload, then the XOR of both.
pub open spec fn data_frame_of(block: Seq<u8>) -> Seq<u8> {
    let n = (block.len() - 1) as u8;
    seq![n] + block + seq![xor_fold(n, block)]
}

/// Relies on byteorder's `BigEndian::write_u32`: it stores `n` most significant byte first.
#[verifier::external_body]
fn be_u32_bytes(n: u32) -> (r: [u8; 4])
    ensures
        r@ == be_bytes(n),
{
    let mut b = [0u8; 4];
    BigEndian::write_u32(&mut b, n);
    b
}

/// Relies on byteorder's `BigEndian::read_u16`: the first byte is the high one.
#[verifier::external_body]
pub(crate) fn be_u16(b: &[u8; 2]) -> (r: u16)
    ensures
        r == b@[0] as u16 * 256 + b@[1] as u16,
{
    BigEndian::read_u16(b)
}

/// XOR of `init` with every byte of `bytes`.
pub fn fold_xor(init: u8, bytes: &[u8]) -> (r: u8)
    ensures
        r == xor_fold(init, bytes@),
{
    let mut acc: u8 = init;
    let mut i: usize = 0;
    while i < bytes.len()
        invariant
            i <= bytes@.len(),
            acc == xor_fold(init, bytes@.take(i as int)),
        decreases bytes@.len() - i,
    {
        assert(bytes@.take(i + 1).drop_last() == bytes@.take(i as int));
        acc = acc ^ bytes[i];
        i = i + 1;
    }
    assert(bytes@.take(i as int) == bytes@);
    acc
}

/// The two bytes that carry a command opcode.
pub fn command_frame(op: u8) -> (r: Vec<u8>)
    ensures
        r@ == command_frame_of(op),
{
    let r = vec![op, op ^ 0xFF];
    assert(r@ == command_frame_of(op));
    r
}

/// The five bytes that carry an address.
pub fn address_frame(a: u32) -> (r: Vec<u8>)
    ensures
        r@ == address_frame_of(a),
{
    let b = be_u32_bytes(a);
    let parity = fold_xor(0, &b);
    let mut r: Vec<u8> = Vec::new();
    let mut i: usize = 0;
    while i < 4
        invariant
            i <= 4,
            b@ == be_bytes(a),
            r@ == b@.take(i as int),
        decreases 4 - i,
    {
        r.push(b[i]);
        i = i + 1;
    }
    r.push(parity);
    assert(r@ == address_frame_of(a));
    r
}

/// The length-prefixed, checksummed frame that carries a data block.
pub fn data_frame(block: &[u8]) -> (r: Vec<u8>)
    requires
        1 <= block@.len() <= BLOCK_SIZE,
    ensures
        r@ == data_frame_of(block@),
{
    let n = (block.len() - 1) as u8;
    let mut r: Vec<u8> = Vec::new();
    r.push(n);
    let mut i: usize = 0;
    while i < block.len()
        invariant
            i <= block@.len(),
            r@ == seq![n] + block@.take(i as int),
        decreases block@.len() - i,
    {
        r.push(block[i]);
        i = i + 1;
        assert(r@ == seq![n] + block@.take(i as int));
    }
    r.push(fold_xor(n, block));
    assert(block@.take(i as int) == block@);
    r
}

/// The fifth byte of an address frame is the XOR-fold of the four before it,
/// which are the address, most significant byte first.
pub proof fn lemma_address_frame_parity(a: u32)
    ensures
        address_frame_of(a).len() == 5,
        address_frame_of(a).take(4) == be_bytes(a),
        address_frame_of(a)[4] == xor_fold(0, address_frame_of(a).take(4)),
{
    assert(address_frame_of(a).take(4) =~= be_bytes(a));
}

/// A data frame for a block of `n` bytes is `1 + n + 1` bytes: `n - 1`, the block,
/// then `n - 1` XOR-folded with every byte of the block.
pub proof fn lemma_data_frame_layout(block: Seq<u8>)
    requires
        1 <= block.len() <= BLOCK_SIZE,
    ensures
        data_frame_of(block).len() == 1 + block.len() + 1,
        data_frame_of(block)[0] == (block.len() - 1) as u8,
        data_frame_of(block).subrange(1, block.len() + 1 as int) == block,
        data_frame_of(block).last() == xor_fold((block.len() - 1) as u8, block),
{
    assert(data_frame_of(block).subrange(1, block.len() + 1 as int) =~= block);
}

} // verus!
