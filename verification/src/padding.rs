//! PKCS#7 padding to the AES block size.

use crate::block::BLOCK;
use vstd::prelude::*;
use vstd::string::*;

verus! {

/// Number of padding bytes PKCS#7 appends to a message of `n` bytes:
/// between 1 and 16, never 0.
pub open spec fn pkcs7_pad_count(n: nat) -> nat {
    (16 - n % 16) as nat
}

/// A message followed by its PKCS#7 padding.
pub open spec fn pkcs7_padded(data: Seq<u8>) -> Seq<u8> {
    let p: nat = pkcs7_pad_count(data.len());
    data + Seq::new(p, |i: int| p as u8)
}

/// The error text for input that is empty or not made of whole blocks.
pub open spec fn msg_not_whole_blocks() -> Seq<char> {
    "ciphertext not a multiple of 16 bytes"@
}

/// The error text for malformed PKCS#7 padding.
pub open spec fn msg_bad_padding() -> Seq<char> {
    "invalid PKCS#7 padding"@
}

/// Whether `data` is a non-empty run of whole blocks.
pub open spec fn whole_blocks(data: Seq<u8>) -> bool {
    data.len() > 0 && data.len() % 16 == 0
}

/// Whether the whole-block `data` ends in well-formed PKCS#7 padding: its last
/// byte `p` lies in 1..=16 and the last `p` bytes all equal `p`.
pub open spec fn pkcs7_well_formed(data: Seq<u8>) -> bool {
    let p: u8 = data.last();
    &&& 1 <= p <= 16
    &&& forall|i: int| data.len() - p <= i < data.len() ==> data[i] == p
}

/// What removing PKCS#7 padding from `data` gives: the message and the
/// padding byte, or the error text.
pub open spec fn pkcs7_unpadded(data: Seq<u8>) -> Result<(Seq<u8>, u8), Seq<char>> {
    if !whole_blocks(data) {
        Err(msg_not_whole_blocks())
    } else if !pkcs7_well_formed(data) {
        Err(msg_bad_padding())
    } else {
        Ok((data.subrange(0, data.len() - data.last()), data.last()))
    }
}

/// Appends PKCS#7 padding; returns the padded message and the padding byte.
pub fn pkcs7_pad(data: &[u8]) -> (res: (Vec<u8>, u8))
    requires
        data@.len() + 16 <= usize::MAX,
    ensures
        res.0@ == pkcs7_padded(data@),
        res.1 as nat == pkcs7_pad_count(data@.len()),
        pkcs7_unpadded(res.0@) == Ok::<(Seq<u8>, u8), Seq<char>>((data@, res.1)),
{
    let pad: u8 = (BLOCK - (data.len() % BLOCK)) as u8;
    let mut out: Vec<u8> = Vec::with_capacity(data.len() + pad as usize);
    let mut i: usize = 0;
    while i < data.len()
        invariant
            i <= data@.len(),
            out@ == data@.subrange(0, i as int),
        decreases data@.len() - i,
    {
        out.push(data[i]);
        i += 1;
    }
    let mut k: u8 = 0;
    while k < pad
        invariant
            k <= pad,
            pad as nat == pkcs7_pad_count(data@.len()),
            out@ == data@ + Seq::new(k as nat, |j: int| pad),
        decreases pad - k,
    {
        out.push(pad);
        k += 1;
        assert(out@ =~= data@ + Seq::new(k as nat, |j: int| pad));
    }
    assert(out@ =~= pkcs7_padded(data@));
    proof {
        lemma_pkcs7_unpad_pad(data@);
    }
    (out, pad)
}

/// Strips PKCS#7 padding from a run of whole blocks; returns the message and
/// the padding byte, or the error text.
pub fn pkcs7_unpad(data: &[u8]) -> (res: Result<(&[u8], u8), String>)
    ensures
        match (res, pkcs7_unpadded(data@)) {
            (Ok((m, p)), Ok((sm, sp))) => m@ == sm && p == sp,
            (Err(e), Err(se)) => e@ == se,
            _ => false,
        },
{
    if data.len() == 0 || data.len() % BLOCK != 0 {
        return Err(String::from_str("ciphertext not a multiple of 16 bytes"));
    }
    let pad: u8 = data[data.len() - 1];
    if pad == 0 || pad as usize > BLOCK {
        return Err(String::from_str("invalid PKCS#7 padding"));
    }
    let cut: usize = data.len() - pad as usize;
    let mut i: usize = cut;
    while i < data.len()
        invariant
            cut <= i <= data@.len(),
            cut == data@.len() - pad,
            whole_blocks(data@),
            1 <= pad <= 16,
            pad == data@.last(),
            forall|j: int| cut <= j < i ==> data@[j] == pad,
        decreases data@.len() - i,
    {
        if data[i] != pad {
            assert(!pkcs7_well_formed(data@)) by {
                assert(data@[i as int] != data@.last());
            }
            return Err(String::from_str("invalid PKCS#7 padding"));
        }
        i += 1;
    }
    Ok((&data[0..cut], pad))
}

/// Padding appends between 1 and 16 copies of the padding byte, which
/// tells how many there are, up to the next whole block (a full block of
/// 16s for a message of whole blocks); removing it gives the message back,
/// with the padding byte.
pub proof fn lemma_pkcs7_unpad_pad(data: Seq<u8>)
    ensures
        1 <= pkcs7_pad_count(data.len()) <= 16,
        pkcs7_padded(data).len() == (data.len() / 16 + 1) * 16,
        forall|i: int|
            data.len() <= i < pkcs7_padded(data).len() ==> #[trigger] pkcs7_padded(data)[i]
                == pkcs7_pad_count(data.len()) as u8,
        pkcs7_unpadded(pkcs7_padded(data)) == Ok::<(Seq<u8>, u8), Seq<char>>(
            (data, pkcs7_pad_count(data.len()) as u8),
        ),
{
    let padded = pkcs7_padded(data);
    let p: nat = pkcs7_pad_count(data.len());
    assert(padded.len() == data.len() + p);
    assert(padded.len() % 16 == 0);
    assert(padded.last() == p as u8);
    assert(padded.subrange(0, padded.len() - p) =~= data);
}

} // verus!
