//! Random bytes and passphrase-based key derivation.

use crate::text::{hex_lower, to_hex};
use rand::RngCore;
use vstd::prelude::*;
use vstd::string::*;

verus! {

/// PBKDF2 with HMAC-SHA-256 as PRF: `len` bytes derived from `password` and
/// `salt` with `rounds` iterations.
pub uninterp spec fn pbkdf2_hmac_sha256(password: Seq<u8>, salt: Seq<u8>, rounds: u32, len: nat) -> Seq<u8>;

/// Overwrites `buf` with bytes from the thread-local random generator.
///
/// Trusted: `rand::thread_rng().fill_bytes` writes every byte of the slice
/// and never changes its length; which bytes come out is chance, so nothing
/// else is stated.
#[verifier::external_body]
fn fill_random(buf: &mut Vec<u8>)
    ensures
        final(buf)@.len() == old(buf)@.len(),
{
    rand::thread_rng().fill_bytes(buf.as_mut_slice());
}

/// Fills `out` with the PBKDF2-HMAC-SHA256 key of its own length.
///
/// Trusted: `pbkdf2::pbkdf2_hmac::<sha2::Sha256>` overwrites the whole output
/// slice, block by block, with the derived key; its result depends only on
/// the password, salt, round count and output length, which `pbkdf2_hmac_sha256`
/// names. Block numbers are 32-bit, so the output is limited to `2^32 - 1`
/// blocks of 32 bytes.
#[verifier::external_body]
fn pbkdf2_sha256_fill(password: &[u8], salt: &[u8], rounds: u32, out: &mut Vec<u8>)
    requires
        old(out)@.len() <= 32 * 0xffff_ffffnat,
    ensures
        final(out)@ == pbkdf2_hmac_sha256(password@, salt@, rounds, old(out)@.len()),
        final(out)@.len() == old(out)@.len(),
{
    pbkdf2::pbkdf2_hmac::<sha2::Sha256>(password, salt, rounds, out.as_mut_slice());
}

/// `n` random bytes.
pub fn random_bytes(n: usize) -> (v: Vec<u8>)
    ensures
        v@.len() == n,
{
    let mut v: Vec<u8> = vec![0u8; n];
    fill_random(&mut v);
    v
}

/// `n` random bytes rendered as lowercase hex.
pub fn random_hex(n: usize) -> (s: String)
    ensures
        exists|b: Seq<u8>| b.len() == n && s@ == hex_lower(b),
{
    let b = random_bytes(n);
    let s = to_hex(b.as_slice());
    assert(b@.len() == n && s@ == hex_lower(b@));
    s
}

/// PBKDF2-HMAC-SHA256 of the passphrase's UTF-8 bytes and `salt` with
/// `iters` rounds, `out_len` bytes long, returned as lowercase hex.
pub fn derive_key(passphrase: &str, salt: &[u8], iters: u32, out_len: usize) -> (s: String)
    requires
        out_len <= 32 * 0xffff_ffffnat,
    ensures
        s@ == hex_lower(pbkdf2_hmac_sha256(passphrase.spec_bytes(), salt@, iters, out_len as nat)),
        s@.len() == 2 * out_len,
{
    let mut out: Vec<u8> = vec![0u8; out_len];
    pbkdf2_sha256_fill(passphrase.as_bytes(), salt, iters, &mut out);
    to_hex(out.as_slice())
}

} // verus!
