//! Single AES-128 blocks: the block type, byte-wise XOR, and the block cipher.

use aes::cipher::{BlockDecrypt, BlockEncrypt, KeyInit};
use vstd::prelude::*;

verus! {

/// Size in bytes of an AES block, of an AES-128 key and of an IV.
pub const BLOCK: usize = 16;

/// One AES block.
pub type Block = [u8; 16];

/// Byte-wise XOR of two byte strings, as long as the shorter one.
pub open spec fn xor_bytes(a: Seq<u8>, b: Seq<u8>) -> Seq<u8> {
    Seq::new(
        if a.len() <= b.len() { a.len() } else { b.len() },
        |i: int| a[i] ^ b[i],
    )
}

/// AES-128 encryption of one 16-byte block under a 16-byte key.
pub uninterp spec fn aes128_encrypt_block(key: Seq<u8>, block: Seq<u8>) -> Seq<u8>;

/// AES-128 decryption of one 16-byte block under a 16-byte key.
pub uninterp spec fn aes128_decrypt_block(key: Seq<u8>, block: Seq<u8>) -> Seq<u8>;

/// XOR of two blocks.
pub fn xor16(a: &Block, b: &Block) -> (out: Block)
    ensures
        out@ == xor_bytes(a@, b@),
{
    let mut out: Block = [0u8; 16];
    let mut i: usize = 0;
    while i < BLOCK
        invariant
            i <= BLOCK,
            out@.len() == BLOCK,
            forall|j: int| 0 <= j < i ==> out@[j] == a@[j] ^ b@[j],
        decreases BLOCK - i,
    {
        out[i] = a[i] ^ b[i];
        i += 1;
    }
    assert(out@ =~= xor_bytes(a@, b@));
    out
}

/// XOR of two byte strings, truncated to the shorter one.
pub fn xor_n(a: &[u8], b: &[u8]) -> (out: Vec<u8>)
    ensures
        out@ == xor_bytes(a@, b@),
{
    let n: usize = if a.len() <= b.len() { a.len() } else { b.len() };
    let mut out: Vec<u8> = Vec::with_capacity(n);
    let mut i: usize = 0;
    while i < n
        invariant
            i <= n,
            n == (if a@.len() <= b@.len() { a@.len() } else { b@.len() }),
            out@.len() == i,
            forall|j: int| 0 <= j < i ==> out@[j] == a@[j] ^ b@[j],
        decreases n - i,
    {
        out.push(a[i] ^ b[i]);
        i += 1;
    }
    assert(out@ =~= xor_bytes(a@, b@));
    out
}

/// Copies a 16-byte slice into a block.
pub fn parse_block(b: &[u8]) -> (out: Block)
    requires
        b@.len() == BLOCK,
    ensures
        out@ == b@,
{
    let mut out: Block = [0u8; 16];
    let mut i: usize = 0;
    while i < BLOCK
        invariant
            i <= BLOCK,
            b@.len() == BLOCK,
            out@.len() == BLOCK,
            forall|j: int| 0 <= j < i ==> out@[j] == b@[j],
        decreases BLOCK - i,
    {
        out[i] = b[i];
        i += 1;
    }
    assert(out@ =~= b@);
    out
}

/// Encrypts one block under `key` with AES-128.
///
/// Trusted: builds the key schedule with `aes::Aes128::new` (`KeyInit`) and
/// applies `BlockEncrypt::encrypt_block` in place. The result is named by
/// `aes128_encrypt_block`; the contract adds that AES-128 decryption under
/// the same key gives the input block back, since the AES rounds are a
/// permutation of the block and `decrypt_block` is its inverse.
#[verifier::external_body]
pub(crate) fn aes_enc(key: &Block, block: &Block) -> (out: Block)
    ensures
        out@ == aes128_encrypt_block(key@, block@),
        aes128_decrypt_block(key@, out@) == block@,
{
    let cipher = aes::Aes128::new(&(*key).into());
    let mut b = aes::Block::from(*block);
    cipher.encrypt_block(&mut b);
    b.into()
}

/// Decrypts one block under `key` with AES-128.
///
/// Trusted: builds the key schedule with `aes::Aes128::new` (`KeyInit`) and
/// applies `BlockDecrypt::decrypt_block` in place. The result is named by
/// `aes128_decrypt_block`; the contract adds that AES-128 encryption under
/// the same key gives the input block back.
#[verifier::external_body]
pub(crate) fn aes_dec(key: &Block, block: &Block) -> (out: Block)
    ensures
        out@ == aes128_decrypt_block(key@, block@),
        aes128_encrypt_block(key@, out@) == block@,
{
    let cipher = aes::Aes128::new(&(*key).into());
    let mut b = aes::Block::from(*block);
    cipher.decrypt_block(&mut b);
    b.into()
}

} // verus!
