//! The five modes of operation over AES-128: ECB, CBC (both with PKCS#7
//! padding), and the stream modes CFB-128, OFB and CTR.

use crate::block::{
    aes128_decrypt_block, aes128_encrypt_block, aes_dec, aes_enc, parse_block, xor16, xor_bytes,
    xor_n, Block, BLOCK,
};
use crate::counter::{
    be_increment, be_value, ctr_increment, lemma_be_increment_value, lemma_be_value_bound, pow256,
};
use vstd::arithmetic::div_mod::{lemma_add_mod_noop, lemma_small_mod};
use crate::padding::{
    lemma_pkcs7_unpad_pad, msg_not_whole_blocks, pkcs7_pad, pkcs7_pad_count, pkcs7_padded,
    pkcs7_unpad, pkcs7_unpadded, whole_blocks,
};
use crate::text::{decimal, hex_lower, to_decimal, to_hex};
use crate::trace::{
    appends_records, lemma_append_record, lemma_replace_last_output, output_replaced,
    with_last_output, BlockTrace, TraceModel,
};
use vstd::prelude::*;
use vstd::slice::slice_to_vec;
use vstd::string::*;

verus! {

// ---- positions -------------------------------------------------------------

/// The `i`-th 16-byte block of whole-block data.
pub open spec fn block_at(d: Seq<u8>, i: int) -> Seq<u8> {
    d.subrange(16 * i, 16 * i + 16)
}

/// The `i`-th chunk of data cut into 16-byte pieces, the last possibly shorter.
pub open spec fn chunk_at(d: Seq<u8>, i: int) -> Seq<u8> {
    d.subrange(16 * i, if 16 * i + 16 <= d.len() { 16 * i + 16 } else { d.len() as int })
}

/// Number of chunks of `n` bytes cut into 16-byte pieces.
pub open spec fn chunk_count(n: nat) -> nat {
    (n + 15) / 16
}

/// Byte string of `n` bytes whose byte `j` is byte `j % 16` of block `j / 16`.
pub open spec fn blockwise(n: nat, f: spec_fn(int) -> Seq<u8>) -> Seq<u8> {
    Seq::new(n, |j: int| f(j / 16)[j % 16])
}

/// Byte string `d` XORed, chunk by chunk, with the keystream blocks `ks`.
pub open spec fn keystream_xor(d: Seq<u8>, ks: spec_fn(int) -> Seq<u8>) -> Seq<u8> {
    Seq::new(d.len(), |j: int| d[j] ^ ks(j / 16)[j % 16])
}

/// Text that reports the PKCS#7 padding byte that was added (`added`) or
/// stripped, in hex and in decimal.
pub open spec fn pad_note(added: bool, pad: u8) -> Seq<char> {
    (if added { "PKCS#7 pad: 0x"@ } else { "PKCS#7 strip: 0x"@ }) + hex_lower(seq![pad]) + " ("@
        + decimal(pad as nat) + (if pad == 1 { " byte)"@ } else { " bytes)"@ })
}

/// Renders `pad_note`.
fn pad_note_text(added: bool, pad: u8) -> (s: String)
    ensures
        s@ == pad_note(added, pad),
{
    let head = if added {
        String::from_str("PKCS#7 pad: 0x")
    } else {
        String::from_str("PKCS#7 strip: 0x")
    };
    let pad_bytes: [u8; 1] = [pad];
    let hex = to_hex(&pad_bytes);
    let dec = to_decimal(pad as usize);
    let tail = if pad == 1 {
        String::from_str(" byte)")
    } else {
        String::from_str(" bytes)")
    };
    proof {
        assert(pad_bytes@ =~= seq![pad]);
    }
    let s = head.concat(hex.as_str());
    let s = s.concat(" (");
    let s = s.concat(dec.as_str());
    s.concat(tail.as_str())
}

/// Appending one block `b` as block `i` keeps a `blockwise` prefix.
proof fn lemma_blockwise_push(
    out: Seq<u8>,
    b: Seq<u8>,
    i: int,
    f: spec_fn(int) -> Seq<u8>,
)
    requires
        0 <= i,
        out.len() == 16 * i,
        b.len() == 16,
        b == f(i),
        forall|j: int| 0 <= j < out.len() ==> out[j] == #[trigger] f(j / 16)[j % 16],
    ensures
        forall|j: int| 0 <= j < out.len() + 16 ==> (out + b)[j] == #[trigger] f(j / 16)[j % 16],
{
    assert forall|j: int| 0 <= j < out.len() + 16 implies (out + b)[j] == #[trigger] f(j / 16)[j
        % 16] by {
        if j >= out.len() {
            assert(j / 16 == i);
            assert(j % 16 == j - 16 * i);
        }
    }
}

/// Block `i` of `n` whole blocks lies inside the data.
proof fn lemma_block_in_bounds(i: int, n: int, len: int)
    requires
        0 <= i < n,
        n == len / 16,
        len >= 0,
    ensures
        16 * i + 16 <= len,
{
}

// ---- ECB -------------------------------------------------------------------

/// ECB encryption of whole-block data: each block encrypted on its own.
pub open spec fn ecb_encrypt_blocks(key: Seq<u8>, d: Seq<u8>) -> Seq<u8> {
    blockwise(d.len(), |i: int| aes128_encrypt_block(key, block_at(d, i)))
}

/// ECB decryption of whole-block data: each block decrypted on its own.
pub open spec fn ecb_decrypt_blocks(key: Seq<u8>, d: Seq<u8>) -> Seq<u8> {
    blockwise(d.len(), |i: int| aes128_decrypt_block(key, block_at(d, i)))
}

/// Trace of ECB encryption of whole-block data.
pub open spec fn ecb_encrypt_trace(key: Seq<u8>, d: Seq<u8>) -> Seq<TraceModel> {
    Seq::new(
        d.len() / 16,
        |i: int|
            TraceModel {
                index: i,
                input: block_at(d, i),
                aes_in: block_at(d, i),
                aes_out: aes128_encrypt_block(key, block_at(d, i)),
                xor_with: seq![],
                output: aes128_encrypt_block(key, block_at(d, i)),
                counter: seq![],
            },
    )
}

/// ECB-encrypts `pt` after PKCS#7 padding; returns the ciphertext and a note
/// on the padding, and appends one trace record per block.
pub fn encrypt_ecb(key: &Block, pt: &[u8], trace: &mut Vec<BlockTrace>) -> (res: (
    Vec<u8>,
    Option<String>,
))
    requires
        pt@.len() + 16 <= usize::MAX,
    ensures
        res.0@ == ecb_encrypt_blocks(key@, pkcs7_padded(pt@)),
        res.1 matches Some(note) && note@ == pad_note(true, pkcs7_pad_count(pt@.len()) as u8),
        appends_records(old(trace)@, final(trace)@, ecb_encrypt_trace(key@, pkcs7_padded(pt@))),
        whole_blocks(res.0@),
        unpad_result(ecb_decrypt_blocks(key@, res.0@)) == Ok::<(Seq<u8>, Seq<char>), Seq<char>>(
            (pt@, pad_note(false, pkcs7_pad_count(pt@.len()) as u8)),
        ),
        ecb_encrypt_law(key@, pkcs7_padded(pt@), res.0@),
{
    let (padded, pad) = pkcs7_pad(pt);
    let ghost d = padded@;
    let ghost f = |i: int| aes128_encrypt_block(key@, block_at(d, i));
    let ghost model = ecb_encrypt_trace(key@, d);
    let ghost before = trace@;
    let n: usize = padded.len() / BLOCK;
    let mut ct: Vec<u8> = Vec::with_capacity(padded.len());
    let mut i: usize = 0;
    assert(trace@.subrange(0, before.len() as int) =~= before);
    while i < n
        invariant
            d == padded@,
            d.len() % 16 == 0,
            n == d.len() / 16,
            i <= n,
            model == ecb_encrypt_trace(key@, d),
            f == (|i: int| aes128_encrypt_block(key@, block_at(d, i))),
            forall|k: int| 0 <= k < i ==> #[trigger] ecb_block_inverts(key@, d, k),
            ct@.len() == 16 * i,
            forall|j: int| 0 <= j < ct@.len() ==> ct@[j] == #[trigger] f(j / 16)[j % 16],
            appends_records(before, trace@, model.take(i as int)),
        decreases n - i,
    {
        proof {
            lemma_block_in_bounds(i as int, n as int, d.len() as int);
            assert(i * 16 + 16 <= padded.len());
        }
        let p = parse_block(&padded[i * BLOCK..i * BLOCK + BLOCK]);
        let c = aes_enc(key, &p);
        let none: [u8; 0] = [];
        let rec = BlockTrace::new(i, &p, &p, &c, &none, &c, &none);
        let ghost prev_trace = trace@;
        let ghost prev_ct = ct@;
        trace.push(rec);
        ct.extend_from_slice(&c);
        proof {
            assert(p@ == block_at(d, i as int));
            assert(ecb_block_inverts(key@, d, i as int));
            lemma_blockwise_push(prev_ct, c@, i as int, f);
            assert(ct@ =~= prev_ct + c@);
            assert(none@ =~= Seq::<u8>::empty());
            lemma_append_record(before, prev_trace, rec, model, i as int);
        }
        i += 1;
    }
    assert(model.take(n as int) =~= model);
    assert(ct@ =~= ecb_encrypt_blocks(key@, d));
    proof {
        lemma_ecb_round_trip(key@, pt@);
        assert forall|k: int| 0 <= k < d.len() / 16 implies #[trigger] aes128_encrypt_block(
            key@,
            block_at(d, k),
        ).len() == 16 by {
            assert(ecb_block_inverts(key@, d, k));
        }
        lemma_ecb_encrypt_law(key@, d);
    }
    let note = pad_note_text(true, pad);
    (ct, Some(note))
}

/// Trace of ECB decryption of whole-block data.
pub open spec fn ecb_decrypt_trace(key: Seq<u8>, d: Seq<u8>) -> Seq<TraceModel> {
    Seq::new(
        d.len() / 16,
        |i: int|
            TraceModel {
                index: i,
                input: block_at(d, i),
                aes_in: block_at(d, i),
                aes_out: aes128_decrypt_block(key, block_at(d, i)),
                xor_with: seq![],
                output: aes128_decrypt_block(key, block_at(d, i)),
                counter: seq![],
            },
    )
}

/// What a padded mode's decryption returns once the blocks are decrypted to
/// `raw`: the message with a note on the stripped padding, or the error text.
pub open spec fn unpad_result(raw: Seq<u8>) -> Result<(Seq<u8>, Seq<char>), Seq<char>> {
    match pkcs7_unpadded(raw) {
        Ok((m, p)) => Ok((m, pad_note(false, p))),
        Err(e) => Err(e),
    }
}

/// Whether an executable decryption result is `expected`.
pub open spec fn decrypt_result_is(
    res: Result<(Vec<u8>, Option<String>), String>,
    expected: Result<(Seq<u8>, Seq<char>), Seq<char>>,
) -> bool {
    match (res, expected) {
        (Ok((m, Some(note))), Ok((em, enote))) => m@ == em && note@ == enote,
        (Err(e), Err(ee)) => e@ == ee,
        _ => false,
    }
}

/// The trace of a padded mode's decryption once the padding is stripped: the
/// last record's output keeps only the plaintext bytes before the padding
/// (none when the last block is all padding). When the padding is malformed
/// nothing is stripped.
pub open spec fn decrypt_trace_stripped(records: Seq<TraceModel>, raw: Seq<u8>) -> Seq<TraceModel> {
    match pkcs7_unpadded(raw) {
        Ok((m, p)) => with_last_output(records, raw.subrange(raw.len() - 16, raw.len() - p)),
        Err(_) => records,
    }
}

/// Strips the padding from decrypted blocks, reports it, and cuts the
/// padding off the output of the last trace record.
fn finish_decrypt(raw: &Vec<u8>, trace: &mut Vec<BlockTrace>) -> (res: Result<
    (Vec<u8>, Option<String>),
    String,
>)
    requires
        whole_blocks(raw@),
        old(trace)@.len() > 0,
    ensures
        decrypt_result_is(res, unpad_result(raw@)),
        match pkcs7_unpadded(raw@) {
            Ok((m, p)) => {
                &&& final(trace)@.len() == old(trace)@.len()
                &&& final(trace)@.drop_last() == old(trace)@.drop_last()
                &&& output_replaced(
                    old(trace)@.last(),
                    final(trace)@.last(),
                    raw@.subrange(raw@.len() - 16, raw@.len() - p),
                )
            },
            Err(_) => final(trace)@ == old(trace)@,
        },
{
    match pkcs7_unpad(raw.as_slice()) {
        Ok((stripped, pad)) => {
            let n: usize = raw.len();
            let tail = &raw.as_slice()[n - BLOCK..n - pad as usize];
            let out_hex = to_hex(tail);
            let ghost prev = trace@;
            match trace.pop() {
                Some(mut rec) => {
                    rec.output = out_hex;
                    trace.push(rec);
                },
                None => {},
            }
            assert(trace@.drop_last() =~= prev.drop_last());
            let note = pad_note_text(false, pad);
            Ok((slice_to_vec(stripped), Some(note)))
        },
        Err(e) => Err(e),
    }
}

/// ECB-decrypts whole blocks and strips the PKCS#7 padding; appends one trace
/// record per block unless the input is not a non-empty run of whole blocks.
pub fn decrypt_ecb(key: &Block, ct: &[u8], trace: &mut Vec<BlockTrace>) -> (res: Result<
    (Vec<u8>, Option<String>),
    String,
>)
    ensures
        !whole_blocks(ct@) ==> (res matches Err(e) && e@ == msg_not_whole_blocks())
            && final(trace)@ == old(trace)@,
        whole_blocks(ct@) ==> decrypt_result_is(res, unpad_result(ecb_decrypt_blocks(key@, ct@)))
            && appends_records(
            old(trace)@,
            final(trace)@,
            decrypt_trace_stripped(ecb_decrypt_trace(key@, ct@), ecb_decrypt_blocks(key@, ct@)),
        ),
        res matches Ok((m, note)) ==> ecb_decrypt_law(key@, ct@, m@),
{
    if ct.len() == 0 || ct.len() % BLOCK != 0 {
        return Err(String::from_str("ciphertext not a multiple of 16 bytes"));
    }
    let ghost d = ct@;
    let ghost f = |i: int| aes128_decrypt_block(key@, block_at(d, i));
    let ghost model = ecb_decrypt_trace(key@, d);
    let ghost before = trace@;
    let n: usize = ct.len() / BLOCK;
    let mut pt: Vec<u8> = Vec::with_capacity(ct.len());
    let mut i: usize = 0;
    assert(trace@.subrange(0, before.len() as int) =~= before);
    while i < n
        invariant
            d == ct@,
            d.len() % 16 == 0,
            n == d.len() / 16,
            i <= n,
            model == ecb_decrypt_trace(key@, d),
            f == (|i: int| aes128_decrypt_block(key@, block_at(d, i))),
            pt@.len() == 16 * i,
            forall|j: int| 0 <= j < pt@.len() ==> pt@[j] == #[trigger] f(j / 16)[j % 16],
            appends_records(before, trace@, model.take(i as int)),
        decreases n - i,
    {
        proof {
            lemma_block_in_bounds(i as int, n as int, d.len() as int);
            assert(i * 16 + 16 <= ct.len());
        }
        let c = parse_block(&ct[i * BLOCK..i * BLOCK + BLOCK]);
        let p = aes_dec(key, &c);
        let none: [u8; 0] = [];
        let rec = BlockTrace::new(i, &c, &c, &p, &none, &p, &none);
        let ghost prev_trace = trace@;
        let ghost prev_pt = pt@;
        trace.push(rec);
        pt.extend_from_slice(&p);
        proof {
            assert(c@ == block_at(d, i as int));
            lemma_blockwise_push(prev_pt, p@, i as int, f);
            assert(pt@ =~= prev_pt + p@);
            assert(none@ =~= Seq::<u8>::empty());
            lemma_append_record(before, prev_trace, rec, model, i as int);
        }
        i += 1;
    }
    assert(model.take(n as int) =~= model);
    assert(pt@ =~= ecb_decrypt_blocks(key@, d));
    let ghost full = trace@;
    let res = finish_decrypt(&pt, trace);
    proof {
        if let Ok((m, p)) = pkcs7_unpadded(pt@) {
            lemma_replace_last_output(
                before,
                full,
                trace@,
                model,
                pt@.subrange(pt@.len() - 16, pt@.len() - p),
            );
            lemma_ecb_decrypt_law(key@, d, pt@.len() - p);
        }
    }
    res
}

// ---- CBC -------------------------------------------------------------------

/// The block XORed into plaintext block `i` before encryption: the IV for the
/// first block, else the previous ciphertext block. `cbc_chain(.., i + 1)` is
/// ciphertext block `i`.
pub open spec fn cbc_chain(key: Seq<u8>, iv: Seq<u8>, d: Seq<u8>, i: nat) -> Seq<u8>
    decreases i,
{
    if i == 0 {
        iv
    } else {
        aes128_encrypt_block(
            key,
            xor_bytes(block_at(d, i - 1), cbc_chain(key, iv, d, (i - 1) as nat)),
        )
    }
}

/// CBC encryption of whole-block data.
pub open spec fn cbc_encrypt_blocks(key: Seq<u8>, iv: Seq<u8>, d: Seq<u8>) -> Seq<u8> {
    blockwise(d.len(), |i: int| cbc_chain(key, iv, d, (i + 1) as nat))
}

/// Trace of CBC encryption of whole-block data.
pub open spec fn cbc_encrypt_trace(key: Seq<u8>, iv: Seq<u8>, d: Seq<u8>) -> Seq<TraceModel> {
    Seq::new(
        d.len() / 16,
        |i: int|
            TraceModel {
                index: i,
                input: block_at(d, i),
                aes_in: xor_bytes(block_at(d, i), cbc_chain(key, iv, d, i as nat)),
                aes_out: cbc_chain(key, iv, d, (i + 1) as nat),
                xor_with: cbc_chain(key, iv, d, i as nat),
                output: cbc_chain(key, iv, d, (i + 1) as nat),
                counter: seq![],
            },
    )
}

/// CBC-encrypts `pt` after PKCS#7 padding; returns the ciphertext and a note
/// on the padding, and appends one trace record per block.
pub fn encrypt_cbc(key: &Block, iv: &Block, pt: &[u8], trace: &mut Vec<BlockTrace>) -> (res: (
    Vec<u8>,
    Option<String>,
))
    requires
        pt@.len() + 16 <= usize::MAX,
    ensures
        res.0@ == cbc_encrypt_blocks(key@, iv@, pkcs7_padded(pt@)),
        res.1 matches Some(note) && note@ == pad_note(true, pkcs7_pad_count(pt@.len()) as u8),
        appends_records(
            old(trace)@,
            final(trace)@,
            cbc_encrypt_trace(key@, iv@, pkcs7_padded(pt@)),
        ),
        whole_blocks(res.0@),
        unpad_result(cbc_decrypt_blocks(key@, iv@, res.0@)) == Ok::<
            (Seq<u8>, Seq<char>),
            Seq<char>,
        >((pt@, pad_note(false, pkcs7_pad_count(pt@.len()) as u8))),
        cbc_encrypt_law(key@, iv@, pkcs7_padded(pt@), res.0@),
{
    let (padded, pad) = pkcs7_pad(pt);
    let ghost d = padded@;
    let ghost f = |i: int| cbc_chain(key@, iv@, d, (i + 1) as nat);
    let ghost model = cbc_encrypt_trace(key@, iv@, d);
    let ghost before = trace@;
    let n: usize = padded.len() / BLOCK;
    let mut ct: Vec<u8> = Vec::with_capacity(padded.len());
    let mut prev: Block = *iv;
    let mut i: usize = 0;
    assert(trace@.subrange(0, before.len() as int) =~= before);
    while i < n
        invariant
            d == padded@,
            d.len() % 16 == 0,
            n == d.len() / 16,
            i <= n,
            model == cbc_encrypt_trace(key@, iv@, d),
            f == (|i: int| cbc_chain(key@, iv@, d, (i + 1) as nat)),
            prev@ == cbc_chain(key@, iv@, d, i as nat),
            forall|k: int| 0 <= k < i ==> #[trigger] cbc_block_inverts(key@, iv@, d, k),
            ct@.len() == 16 * i,
            forall|j: int| 0 <= j < ct@.len() ==> ct@[j] == #[trigger] f(j / 16)[j % 16],
            appends_records(before, trace@, model.take(i as int)),
        decreases n - i,
    {
        proof {
            lemma_block_in_bounds(i as int, n as int, d.len() as int);
            assert(i * 16 + 16 <= padded.len());
        }
        let p = parse_block(&padded[i * BLOCK..i * BLOCK + BLOCK]);
        let x = xor16(&p, &prev);
        let c = aes_enc(key, &x);
        let none: [u8; 0] = [];
        let rec = BlockTrace::new(i, &p, &x, &c, &prev, &c, &none);
        let ghost prev_trace = trace@;
        let ghost prev_ct = ct@;
        trace.push(rec);
        ct.extend_from_slice(&c);
        proof {
            assert(p@ == block_at(d, i as int));
            assert(c@ == cbc_chain(key@, iv@, d, (i + 1) as nat));
            assert(cbc_block_inverts(key@, iv@, d, i as int));
            lemma_blockwise_push(prev_ct, c@, i as int, f);
            assert(ct@ =~= prev_ct + c@);
            assert(none@ =~= Seq::<u8>::empty());
            lemma_append_record(before, prev_trace, rec, model, i as int);
        }
        prev = c;
        i += 1;
    }
    assert(model.take(n as int) =~= model);
    assert(ct@ =~= cbc_encrypt_blocks(key@, iv@, d));
    proof {
        lemma_cbc_round_trip(key@, iv@, pt@);
        assert forall|k: int| 0 <= k < d.len() / 16 implies #[trigger] cbc_chain(
            key@,
            iv@,
            d,
            (k + 1) as nat,
        ).len() == 16 by {
            assert(cbc_block_inverts(key@, iv@, d, k));
        }
        lemma_cbc_encrypt_law(key@, iv@, d);
    }
    let note = pad_note_text(true, pad);
    (ct, Some(note))
}

/// The block XORed into decrypted block `i`: the IV for the first block, else
/// the previous ciphertext block.
pub open spec fn cbc_prev(iv: Seq<u8>, c: Seq<u8>, i: int) -> Seq<u8> {
    if i == 0 {
        iv
    } else {
        block_at(c, i - 1)
    }
}

/// CBC decryption of whole-block data.
pub open spec fn cbc_decrypt_blocks(key: Seq<u8>, iv: Seq<u8>, c: Seq<u8>) -> Seq<u8> {
    blockwise(
        c.len(),
        |i: int| xor_bytes(aes128_decrypt_block(key, block_at(c, i)), cbc_prev(iv, c, i)),
    )
}

/// Trace of CBC decryption of whole-block data.
pub open spec fn cbc_decrypt_trace(key: Seq<u8>, iv: Seq<u8>, c: Seq<u8>) -> Seq<TraceModel> {
    Seq::new(
        c.len() / 16,
        |i: int|
            TraceModel {
                index: i,
                input: block_at(c, i),
                aes_in: block_at(c, i),
                aes_out: aes128_decrypt_block(key, block_at(c, i)),
                xor_with: cbc_prev(iv, c, i),
                output: xor_bytes(aes128_decrypt_block(key, block_at(c, i)), cbc_prev(iv, c, i)),
                counter: seq![],
            },
    )
}

/// CBC-decrypts whole blocks and strips the PKCS#7 padding; appends one trace
/// record per block unless the input is not a non-empty run of whole blocks.
pub fn decrypt_cbc(key: &Block, iv: &Block, ct: &[u8], trace: &mut Vec<BlockTrace>) -> (res:
    Result<(Vec<u8>, Option<String>), String>)
    ensures
        !whole_blocks(ct@) ==> (res matches Err(e) && e@ == msg_not_whole_blocks())
            && final(trace)@ == old(trace)@,
        whole_blocks(ct@) ==> decrypt_result_is(
            res,
            unpad_result(cbc_decrypt_blocks(key@, iv@, ct@)),
        ) && appends_records(
            old(trace)@,
            final(trace)@,
            decrypt_trace_stripped(
                cbc_decrypt_trace(key@, iv@, ct@),
                cbc_decrypt_blocks(key@, iv@, ct@),
            ),
        ),
        res matches Ok((m, note)) ==> cbc_decrypt_law(key@, iv@, ct@, m@),
{
    if ct.len() == 0 || ct.len() % BLOCK != 0 {
        return Err(String::from_str("ciphertext not a multiple of 16 bytes"));
    }
    let ghost d = ct@;
    let ghost f = |i: int| xor_bytes(aes128_decrypt_block(key@, block_at(d, i)), cbc_prev(iv@, d, i));
    let ghost model = cbc_decrypt_trace(key@, iv@, d);
    let ghost before = trace@;
    let n: usize = ct.len() / BLOCK;
    let mut pt: Vec<u8> = Vec::with_capacity(ct.len());
    let mut prev: Block = *iv;
    let mut i: usize = 0;
    assert(trace@.subrange(0, before.len() as int) =~= before);
    while i < n
        invariant
            d == ct@,
            d.len() % 16 == 0,
            n == d.len() / 16,
            i <= n,
            model == cbc_decrypt_trace(key@, iv@, d),
            f == (|i: int|
                xor_bytes(aes128_decrypt_block(key@, block_at(d, i)), cbc_prev(iv@, d, i))),
            prev@ == cbc_prev(iv@, d, i as int),
            forall|k: int|
                0 <= k < i ==> #[trigger] aes128_decrypt_block(key@, block_at(d, k)).len() == 16,
            pt@.len() == 16 * i,
            forall|j: int| 0 <= j < pt@.len() ==> pt@[j] == #[trigger] f(j / 16)[j % 16],
            appends_records(before, trace@, model.take(i as int)),
        decreases n - i,
    {
        proof {
            lemma_block_in_bounds(i as int, n as int, d.len() as int);
            assert(i * 16 + 16 <= ct.len());
        }
        let c = parse_block(&ct[i * BLOCK..i * BLOCK + BLOCK]);
        let dd = aes_dec(key, &c);
        let p = xor16(&dd, &prev);
        let none: [u8; 0] = [];
        let rec = BlockTrace::new(i, &c, &c, &dd, &prev, &p, &none);
        let ghost prev_trace = trace@;
        let ghost prev_pt = pt@;
        trace.push(rec);
        pt.extend_from_slice(&p);
        proof {
            assert(c@ == block_at(d, i as int));
            lemma_blockwise_push(prev_pt, p@, i as int, f);
            assert(pt@ =~= prev_pt + p@);
            assert(none@ =~= Seq::<u8>::empty());
            lemma_append_record(before, prev_trace, rec, model, i as int);
            assert(c@ == cbc_prev(iv@, d, i + 1));
            assert(aes128_decrypt_block(key@, block_at(d, i as int)).len() == 16);
        }
        prev = c;
        i += 1;
    }
    assert(model.take(n as int) =~= model);
    assert(pt@ =~= cbc_decrypt_blocks(key@, iv@, d));
    let ghost full = trace@;
    let res = finish_decrypt(&pt, trace);
    proof {
        if let Ok((m, p)) = pkcs7_unpadded(pt@) {
            lemma_replace_last_output(
                before,
                full,
                trace@,
                model,
                pt@.subrange(pt@.len() - 16, pt@.len() - p),
            );
            lemma_cbc_decrypt_law(key@, iv@, d, pt@.len() - p);
        }
    }
    res
}


// ---- stream modes ------------------------------------------------------------

/// Chunk `i` of `n` lies inside the data and is 16 bytes long unless it is
/// the last one.
proof fn lemma_chunk_in_bounds(i: int, n: int, len: int)
    requires
        0 <= i < n,
        n == (len + 15) / 16,
        len >= 0,
    ensures
        16 * i < len,
        16 * i + 16 <= len || i == n - 1,
        16 * i + 16 > len ==> len - 16 * i < 16,
{
}

/// Appending the XOR of chunk `i` with keystream block `i` keeps a
/// `keystream_xor` prefix.
proof fn lemma_stream_push(
    out: Seq<u8>,
    x: Seq<u8>,
    d: Seq<u8>,
    i: int,
    ks: spec_fn(int) -> Seq<u8>,
)
    requires
        0 <= i,
        out.len() == 16 * i,
        16 * i < d.len(),
        ks(i).len() == 16,
        x == xor_bytes(chunk_at(d, i), ks(i).take(chunk_at(d, i).len() as int)),
        forall|j: int| 0 <= j < out.len() ==> out[j] == d[j] ^ #[trigger] ks(j / 16)[j % 16],
    ensures
        (out + x).len() == chunk_at(d, i).len() + 16 * i,
        forall|j: int|
            0 <= j < (out + x).len() ==> (out + x)[j] == d[j] ^ #[trigger] ks(j / 16)[j % 16],
{
    let c = chunk_at(d, i);
    assert(c.len() <= 16);
    assert forall|j: int| 0 <= j < (out + x).len() implies (out + x)[j] == d[j] ^ #[trigger] ks(
        j / 16,
    )[j % 16] by {
        if j >= out.len() {
            assert(j / 16 == i);
            assert(j % 16 == j - 16 * i);
            assert(x[j - 16 * i] == c[j - 16 * i] ^ ks(i)[j - 16 * i]);
        }
    }
}

/// Once every chunk is written, the output is the whole `keystream_xor`.
proof fn lemma_stream_done(out: Seq<u8>, d: Seq<u8>, ks: spec_fn(int) -> Seq<u8>)
    requires
        out.len() == d.len(),
        forall|j: int| 0 <= j < out.len() ==> out[j] == d[j] ^ #[trigger] ks(j / 16)[j % 16],
    ensures
        out == keystream_xor(d, ks),
{
    assert(out =~= keystream_xor(d, ks));
}

/// Trace record of one stream-mode chunk: `aes_in` goes into AES, giving the
/// keystream block `ks`, whose first bytes are XORed into the chunk.
pub open spec fn stream_record(
    i: int,
    chunk: Seq<u8>,
    aes_in: Seq<u8>,
    ks: Seq<u8>,
    counter: Seq<u8>,
) -> TraceModel {
    TraceModel {
        index: i,
        input: chunk,
        aes_in: aes_in,
        aes_out: ks,
        xor_with: ks.take(chunk.len() as int),
        output: xor_bytes(chunk, ks.take(chunk.len() as int)),
        counter: counter,
    }
}

/// CFB-128 feedback block for chunk `i`: the IV, then the previous ciphertext
/// chunk (the output when encrypting, the input when decrypting); a partial
/// chunk leaves it unchanged.
pub open spec fn cfb_feedback(key: Seq<u8>, iv: Seq<u8>, d: Seq<u8>, encrypt: bool, i: nat) -> Seq<
    u8,
>
    decreases i,
{
    if i == 0 {
        iv
    } else {
        let prev = cfb_feedback(key, iv, d, encrypt, (i - 1) as nat);
        let c = chunk_at(d, i - 1);
        if c.len() == 16 {
            if encrypt {
                xor_bytes(c, aes128_encrypt_block(key, prev))
            } else {
                c
            }
        } else {
            prev
        }
    }
}

/// CFB-128 keystream block for chunk `i`.
pub open spec fn cfb_keystream(key: Seq<u8>, iv: Seq<u8>, d: Seq<u8>, encrypt: bool) -> spec_fn(
    int,
) -> Seq<u8> {
    |i: int| aes128_encrypt_block(key, cfb_feedback(key, iv, d, encrypt, i as nat))
}

/// CFB-128 output: the input XORed with the keystream.
pub open spec fn cfb_output(key: Seq<u8>, iv: Seq<u8>, d: Seq<u8>, encrypt: bool) -> Seq<u8> {
    keystream_xor(d, cfb_keystream(key, iv, d, encrypt))
}

/// Trace of a CFB-128 run.
pub open spec fn cfb_trace(key: Seq<u8>, iv: Seq<u8>, d: Seq<u8>, encrypt: bool) -> Seq<
    TraceModel,
> {
    Seq::new(
        chunk_count(d.len()),
        |i: int|
            stream_record(
                i,
                chunk_at(d, i),
                cfb_feedback(key, iv, d, encrypt, i as nat),
                aes128_encrypt_block(key, cfb_feedback(key, iv, d, encrypt, i as nat)),
                seq![],
            ),
    )
}

/// CFB-128 (full-block feedback) encryption or decryption; the last chunk may
/// be partial. Appends one trace record per chunk.
pub fn process_cfb(
    key: &Block,
    iv: &Block,
    data: &[u8],
    encrypt: bool,
    trace: &mut Vec<BlockTrace>,
) -> (out: Vec<u8>)
    ensures
        out@ == cfb_output(key@, iv@, data@, encrypt),
        appends_records(old(trace)@, final(trace)@, cfb_trace(key@, iv@, data@, encrypt)),
        encrypt ==> cfb_output(key@, iv@, out@, false) == data@,
        cfb_law(key@, iv@, data@, encrypt, out@),
{
    let ghost d = data@;
    let ghost ks = cfb_keystream(key@, iv@, d, encrypt);
    let ghost model = cfb_trace(key@, iv@, d, encrypt);
    let ghost before = trace@;
    let n: usize = data.len() / BLOCK + if data.len() % BLOCK == 0 { 0 } else { 1 };
    let mut out: Vec<u8> = Vec::with_capacity(data.len());
    let mut feedback: Block = *iv;
    let mut i: usize = 0;
    assert(trace@.subrange(0, before.len() as int) =~= before);
    while i < n
        invariant
            d == data@,
            n == chunk_count(d.len()),
            i <= n,
            model == cfb_trace(key@, iv@, d, encrypt),
            ks == cfb_keystream(key@, iv@, d, encrypt),
            feedback@ == cfb_feedback(key@, iv@, d, encrypt, i as nat),
            forall|k: int| 0 <= k < i ==> #[trigger] cfb_block_sized(key@, iv@, d, encrypt, k),
            out@.len() == if i < n { 16 * i } else { d.len() as int },
            forall|j: int| 0 <= j < out@.len() ==> out@[j] == d[j] ^ #[trigger] ks(j / 16)[j % 16],
            appends_records(before, trace@, model.take(i as int)),
        decreases n - i,
    {
        proof {
            lemma_chunk_in_bounds(i as int, n as int, d.len() as int);
            assert(i * 16 < data.len());
        }
        let start: usize = i * BLOCK;
        let end: usize = if data.len() - start >= BLOCK { start + BLOCK } else { data.len() };
        let chunk = &data[start..end];
        let k = aes_enc(key, &feedback);
        let ks_part = &k[0..chunk.len()];
        let xored = xor_n(chunk, ks_part);
        let none: [u8; 0] = [];
        let rec = BlockTrace::new(i, chunk, &feedback, &k, ks_part, &xored, &none);
        let ghost prev_trace = trace@;
        let ghost prev_out = out@;
        let ghost prev_fb = feedback@;
        trace.push(rec);
        proof {
            assert(chunk@ == chunk_at(d, i as int));
            assert(ks(i as int) == k@);
            assert(cfb_block_sized(key@, iv@, d, encrypt, i as int));
            assert(none@ =~= Seq::<u8>::empty());
            lemma_append_record(before, prev_trace, rec, model, i as int);
        }
        if encrypt {
            if chunk.len() == BLOCK {
                feedback = parse_block(&xored);
            }
        } else {
            if chunk.len() == BLOCK {
                feedback = parse_block(chunk);
            }
        }
        out.extend_from_slice(&xored);
        proof {
            lemma_stream_push(prev_out, xored@, d, i as int, ks);
            assert(out@ =~= prev_out + xored@);
            assert(xored@ =~= xor_bytes(chunk@, k@)) by {
                if chunk@.len() == 16 {
                    assert(k@.take(16) =~= k@);
                }
            }
            assert(feedback@ == cfb_feedback(key@, iv@, d, encrypt, (i + 1) as nat));
        }
        i += 1;
    }
    assert(model.take(n as int) =~= model);
    proof {
        lemma_stream_done(out@, d, ks);
        if encrypt {
            lemma_cfb_round_trip(key@, iv@, d);
        }
        lemma_cfb_law(key@, iv@, d, encrypt);
    }
    out
}

/// OFB output block chain: the IV, then each block the encryption of the one
/// before. Chunk `i` is XORed with `ofb_state(.., i + 1)`.
pub open spec fn ofb_state(key: Seq<u8>, iv: Seq<u8>, i: nat) -> Seq<u8>
    decreases i,
{
    if i == 0 {
        iv
    } else {
        aes128_encrypt_block(key, ofb_state(key, iv, (i - 1) as nat))
    }
}

/// OFB keystream block for chunk `i`.
pub open spec fn ofb_keystream(key: Seq<u8>, iv: Seq<u8>) -> spec_fn(int) -> Seq<u8> {
    |i: int| ofb_state(key, iv, (i + 1) as nat)
}

/// OFB output: the input XORed with the keystream.
pub open spec fn ofb_output(key: Seq<u8>, iv: Seq<u8>, d: Seq<u8>) -> Seq<u8> {
    keystream_xor(d, ofb_keystream(key, iv))
}

/// Trace of an OFB run.
pub open spec fn ofb_trace(key: Seq<u8>, iv: Seq<u8>, d: Seq<u8>) -> Seq<TraceModel> {
    Seq::new(
        chunk_count(d.len()),
        |i: int|
            stream_record(
                i,
                chunk_at(d, i),
                ofb_state(key, iv, i as nat),
                ofb_state(key, iv, (i + 1) as nat),
                seq![],
            ),
    )
}

/// OFB encryption or decryption (the same operation); appends one trace
/// record per chunk.
pub fn process_ofb(key: &Block, iv: &Block, data: &[u8], trace: &mut Vec<BlockTrace>) -> (out:
    Vec<u8>)
    ensures
        out@ == ofb_output(key@, iv@, data@),
        appends_records(old(trace)@, final(trace)@, ofb_trace(key@, iv@, data@)),
        ofb_law(key@, iv@, data@, out@),
{
    let ghost d = data@;
    let ghost ks = ofb_keystream(key@, iv@);
    let ghost model = ofb_trace(key@, iv@, d);
    let ghost before = trace@;
    let n: usize = data.len() / BLOCK + if data.len() % BLOCK == 0 { 0 } else { 1 };
    let mut out: Vec<u8> = Vec::with_capacity(data.len());
    let mut o: Block = *iv;
    let mut i: usize = 0;
    assert(trace@.subrange(0, before.len() as int) =~= before);
    while i < n
        invariant
            d == data@,
            n == chunk_count(d.len()),
            i <= n,
            model == ofb_trace(key@, iv@, d),
            ks == ofb_keystream(key@, iv@),
            o@ == ofb_state(key@, iv@, i as nat),
            forall|k: int| 1 <= k <= i ==> #[trigger] ofb_state(key@, iv@, k as nat).len() == 16,
            out@.len() == if i < n { 16 * i } else { d.len() as int },
            forall|j: int| 0 <= j < out@.len() ==> out@[j] == d[j] ^ #[trigger] ks(j / 16)[j % 16],
            appends_records(before, trace@, model.take(i as int)),
        decreases n - i,
    {
        proof {
            lemma_chunk_in_bounds(i as int, n as int, d.len() as int);
            assert(i * 16 < data.len());
        }
        let start: usize = i * BLOCK;
        let end: usize = if data.len() - start >= BLOCK { start + BLOCK } else { data.len() };
        let chunk = &data[start..end];
        let prev = o;
        o = aes_enc(key, &o);
        let ks_part = &o[0..chunk.len()];
        let xored = xor_n(chunk, ks_part);
        let none: [u8; 0] = [];
        let rec = BlockTrace::new(i, chunk, &prev, &o, ks_part, &xored, &none);
        let ghost prev_trace = trace@;
        let ghost prev_out = out@;
        trace.push(rec);
        out.extend_from_slice(&xored);
        proof {
            assert(chunk@ == chunk_at(d, i as int));
            assert(ks(i as int) == o@);
            assert(none@ =~= Seq::<u8>::empty());
            lemma_append_record(before, prev_trace, rec, model, i as int);
            lemma_stream_push(prev_out, xored@, d, i as int, ks);
            assert(out@ =~= prev_out + xored@);
        }
        i += 1;
    }
    assert(model.take(n as int) =~= model);
    proof {
        lemma_stream_done(out@, d, ks);
        lemma_ofb_output_law(key@, iv@, d);
    }
    out
}

/// CTR counter block for chunk `i`: the IV incremented `i` times as a
/// 128-bit big-endian number.
pub open spec fn ctr_counter(iv: Seq<u8>, i: nat) -> Seq<u8>
    decreases i,
{
    if i == 0 {
        iv
    } else {
        be_increment(ctr_counter(iv, (i - 1) as nat))
    }
}

/// CTR keystream block for chunk `i`.
pub open spec fn ctr_keystream(key: Seq<u8>, iv: Seq<u8>) -> spec_fn(int) -> Seq<u8> {
    |i: int| aes128_encrypt_block(key, ctr_counter(iv, i as nat))
}

/// CTR output: the input XORed with the keystream.
pub open spec fn ctr_output(key: Seq<u8>, iv: Seq<u8>, d: Seq<u8>) -> Seq<u8> {
    keystream_xor(d, ctr_keystream(key, iv))
}

/// Trace of a CTR run.
pub open spec fn ctr_trace(key: Seq<u8>, iv: Seq<u8>, d: Seq<u8>) -> Seq<TraceModel> {
    Seq::new(
        chunk_count(d.len()),
        |i: int|
            stream_record(
                i,
                chunk_at(d, i),
                ctr_counter(iv, i as nat),
                aes128_encrypt_block(key, ctr_counter(iv, i as nat)),
                ctr_counter(iv, i as nat),
            ),
    )
}

/// CTR encryption or decryption (the same operation), with the whole block
/// as a big-endian counter starting from the IV; appends one trace record
/// per chunk.
pub fn process_ctr(key: &Block, iv: &Block, data: &[u8], trace: &mut Vec<BlockTrace>) -> (out:
    Vec<u8>)
    ensures
        out@ == ctr_output(key@, iv@, data@),
        appends_records(old(trace)@, final(trace)@, ctr_trace(key@, iv@, data@)),
        ctr_law(key@, iv@, data@, out@),
{
    let ghost d = data@;
    let ghost ks = ctr_keystream(key@, iv@);
    let ghost model = ctr_trace(key@, iv@, d);
    let ghost before = trace@;
    let n: usize = data.len() / BLOCK + if data.len() % BLOCK == 0 { 0 } else { 1 };
    let mut out: Vec<u8> = Vec::with_capacity(data.len());
    let mut counter: Block = *iv;
    let mut i: usize = 0;
    assert(trace@.subrange(0, before.len() as int) =~= before);
    while i < n
        invariant
            d == data@,
            n == chunk_count(d.len()),
            i <= n,
            model == ctr_trace(key@, iv@, d),
            ks == ctr_keystream(key@, iv@),
            counter@ == ctr_counter(iv@, i as nat),
            out@.len() == if i < n { 16 * i } else { d.len() as int },
            forall|j: int| 0 <= j < out@.len() ==> out@[j] == d[j] ^ #[trigger] ks(j / 16)[j % 16],
            appends_records(before, trace@, model.take(i as int)),
        decreases n - i,
    {
        proof {
            lemma_chunk_in_bounds(i as int, n as int, d.len() as int);
            assert(i * 16 < data.len());
        }
        let start: usize = i * BLOCK;
        let end: usize = if data.len() - start >= BLOCK { start + BLOCK } else { data.len() };
        let chunk = &data[start..end];
        let k = aes_enc(key, &counter);
        let ks_part = &k[0..chunk.len()];
        let xored = xor_n(chunk, ks_part);
        let rec = BlockTrace::new(i, chunk, &counter, &k, ks_part, &xored, &counter);
        let ghost prev_trace = trace@;
        let ghost prev_out = out@;
        trace.push(rec);
        ctr_increment(&mut counter);
        out.extend_from_slice(&xored);
        proof {
            assert(chunk@ == chunk_at(d, i as int));
            assert(ks(i as int) == k@);
            lemma_append_record(before, prev_trace, rec, model, i as int);
            lemma_stream_push(prev_out, xored@, d, i as int, ks);
            assert(out@ =~= prev_out + xored@);
        }
        i += 1;
    }
    assert(model.take(n as int) =~= model);
    proof {
        lemma_stream_done(out@, d, ks);
    }
    out
}

// ---- round trips -------------------------------------------------------------

/// What the block cipher gave for block `i` of an ECB encryption: a 16-byte
/// block that decrypts back to the plaintext block.
pub open spec fn ecb_block_inverts(key: Seq<u8>, d: Seq<u8>, i: int) -> bool {
    &&& aes128_encrypt_block(key, block_at(d, i)).len() == 16
    &&& aes128_decrypt_block(key, aes128_encrypt_block(key, block_at(d, i))) == block_at(d, i)
}

/// What the block cipher gave for block `i` of a CBC encryption: a 16-byte
/// ciphertext block that decrypts back to what went into AES.
pub open spec fn cbc_block_inverts(key: Seq<u8>, iv: Seq<u8>, d: Seq<u8>, i: int) -> bool {
    &&& cbc_chain(key, iv, d, (i + 1) as nat).len() == 16
    &&& aes128_decrypt_block(key, cbc_chain(key, iv, d, (i + 1) as nat)) == xor_bytes(
        block_at(d, i),
        cbc_chain(key, iv, d, i as nat),
    )
}

/// What the block cipher gave for chunk `i` of a CFB-128 run: a 16-byte
/// keystream block.
pub open spec fn cfb_block_sized(key: Seq<u8>, iv: Seq<u8>, d: Seq<u8>, encrypt: bool, i: int) -> bool {
    aes128_encrypt_block(key, cfb_feedback(key, iv, d, encrypt, i as nat)).len() == 16
}

/// XORing the same byte twice gives the byte back.
pub proof fn lemma_xor_twice(a: u8, k: u8)
    ensures
        (a ^ k) ^ k == a,
{
    assert((a ^ k) ^ k == a) by (bit_vector);
}

/// XORing a byte string twice with the same equally long key gives it back.
pub proof fn lemma_xor_bytes_twice(a: Seq<u8>, k: Seq<u8>)
    requires
        a.len() == k.len(),
    ensures
        xor_bytes(xor_bytes(a, k), k) == a,
{
    assert forall|i: int| 0 <= i < a.len() implies xor_bytes(xor_bytes(a, k), k)[i] == a[i] by {
        lemma_xor_twice(a[i], k[i]);
    }
    assert(xor_bytes(xor_bytes(a, k), k) =~= a);
}

/// XORing with a keystream twice gives the input back.
pub proof fn lemma_keystream_xor_twice(d: Seq<u8>, ks: spec_fn(int) -> Seq<u8>)
    ensures
        keystream_xor(keystream_xor(d, ks), ks) == d,
{
    let c = keystream_xor(d, ks);
    assert forall|j: int| 0 <= j < d.len() implies keystream_xor(c, ks)[j] == d[j] by {
        lemma_xor_twice(d[j], ks(j / 16)[j % 16]);
    }
    assert(keystream_xor(c, ks) =~= d);
}

/// CTR decryption undoes CTR encryption: running the mode twice under the same
/// key and IV gives the data back.
pub proof fn lemma_ctr_round_trip(key: Seq<u8>, iv: Seq<u8>, d: Seq<u8>)
    ensures
        ctr_output(key, iv, ctr_output(key, iv, d)) == d,
{
    lemma_keystream_xor_twice(d, ctr_keystream(key, iv));
}

/// OFB decryption undoes OFB encryption: running the mode twice under the same
/// key and IV gives the data back.
pub proof fn lemma_ofb_round_trip(key: Seq<u8>, iv: Seq<u8>, d: Seq<u8>)
    ensures
        ofb_output(key, iv, ofb_output(key, iv, d)) == d,
{
    lemma_keystream_xor_twice(d, ofb_keystream(key, iv));
}

/// The bytes of chunk `i` of `keystream_xor(d, ks)` are those of chunk `i` of
/// `d` XORed with keystream block `i`.
proof fn lemma_keystream_chunk(d: Seq<u8>, ks: spec_fn(int) -> Seq<u8>, i: int)
    requires
        0 <= i,
        16 * i < d.len(),
        ks(i).len() == 16,
    ensures
        chunk_at(keystream_xor(d, ks), i) == xor_bytes(chunk_at(d, i), ks(i)),
{
    let c = keystream_xor(d, ks);
    let a = chunk_at(c, i);
    let b = xor_bytes(chunk_at(d, i), ks(i));
    assert forall|k: int| 0 <= k < a.len() implies a[k] == b[k] by {
        let j: int = 16 * i + k;
        assert(j / 16 == i);
        assert(j % 16 == k);
    }
    assert(a =~= b);
}

/// While encrypting and then decrypting with CFB-128, both runs feed the same
/// block into AES for every chunk, and that block is 16 bytes long.
proof fn lemma_cfb_feedback_agree(key: Seq<u8>, iv: Seq<u8>, p: Seq<u8>, i: nat)
    requires
        i == 0 || 16 * (i - 1) < p.len(),
        iv.len() == 16,
        forall|j: int| 0 <= j < chunk_count(p.len()) ==> #[trigger] cfb_block_sized(key, iv, p, true, j),
    ensures
        cfb_feedback(key, iv, cfb_output(key, iv, p, true), false, i) == cfb_feedback(
            key,
            iv,
            p,
            true,
            i,
        ),
        cfb_feedback(key, iv, p, true, i).len() == 16,
    decreases i,
{
    if i > 0 {
        let c = cfb_output(key, iv, p, true);
        lemma_cfb_feedback_agree(key, iv, p, (i - 1) as nat);
        let prev = cfb_feedback(key, iv, p, true, (i - 1) as nat);
        let ks = cfb_keystream(key, iv, p, true);
        assert(ks(i - 1) == aes128_encrypt_block(key, prev));
        assert(cfb_block_sized(key, iv, p, true, i - 1));
        assert(aes128_encrypt_block(key, prev).len() == 16);
        lemma_keystream_chunk(p, ks, i - 1);
        assert(chunk_at(c, i - 1).len() == chunk_at(p, i - 1).len());
    }
}

/// CFB-128 decryption undoes CFB-128 encryption under the same key and IV
/// (given the 16-byte keystream blocks that `process_cfb` reports).
pub proof fn lemma_cfb_round_trip(key: Seq<u8>, iv: Seq<u8>, p: Seq<u8>)
    requires
        iv.len() == 16,
        forall|j: int| 0 <= j < chunk_count(p.len()) ==> #[trigger] cfb_block_sized(key, iv, p, true, j),
    ensures
        cfb_output(key, iv, cfb_output(key, iv, p, true), false) == p,
{
    let c = cfb_output(key, iv, p, true);
    let ks_e = cfb_keystream(key, iv, p, true);
    let ks_d = cfb_keystream(key, iv, c, false);
    assert forall|j: int| 0 <= j < p.len() implies cfb_output(key, iv, c, false)[j] == p[j] by {
        lemma_cfb_feedback_agree(key, iv, p, (j / 16) as nat);
        assert(ks_d(j / 16) == ks_e(j / 16));
        lemma_xor_twice(p[j], ks_e(j / 16)[j % 16]);
    }
    assert(cfb_output(key, iv, c, false) =~= p);
}

/// Block `i` of a `blockwise` byte string is the `i`-th block given to it.
proof fn lemma_block_of_blockwise(n: nat, f: spec_fn(int) -> Seq<u8>, i: int)
    requires
        n % 16 == 0,
        0 <= i < n / 16,
        f(i).len() == 16,
    ensures
        block_at(blockwise(n, f), i) == f(i),
{
    let b = block_at(blockwise(n, f), i);
    assert forall|k: int| 0 <= k < 16 implies b[k] == f(i)[k] by {
        let j: int = 16 * i + k;
        assert(j / 16 == i);
        assert(j % 16 == k);
    }
    assert(b =~= f(i));
}

/// Every CBC chaining block is 16 bytes long.
proof fn lemma_cbc_chain_len(key: Seq<u8>, iv: Seq<u8>, d: Seq<u8>, i: nat)
    requires
        16 * i <= d.len(),
        iv.len() == 16,
        forall|j: int| 0 <= j < d.len() / 16 ==> #[trigger] cbc_block_inverts(key, iv, d, j),
    ensures
        cbc_chain(key, iv, d, i).len() == 16,
{
    if i > 0 {
        assert(cbc_block_inverts(key, iv, d, i - 1));
    }
}

/// ECB decryption of ECB-encrypted whole blocks gives them back (given the
/// block facts that `encrypt_ecb` reports).
pub proof fn lemma_ecb_blocks_round_trip(key: Seq<u8>, d: Seq<u8>)
    requires
        d.len() % 16 == 0,
        forall|i: int| 0 <= i < d.len() / 16 ==> #[trigger] ecb_block_inverts(key, d, i),
    ensures
        ecb_decrypt_blocks(key, ecb_encrypt_blocks(key, d)) == d,
{
    let f = |i: int| aes128_encrypt_block(key, block_at(d, i));
    let c = ecb_encrypt_blocks(key, d);
    assert forall|j: int| 0 <= j < d.len() implies ecb_decrypt_blocks(key, c)[j] == d[j] by {
        let i: int = j / 16;
        assert(ecb_block_inverts(key, d, i));
        lemma_block_of_blockwise(d.len(), f, i);
        assert(block_at(c, i) == f(i));
        assert(aes128_decrypt_block(key, block_at(c, i)) == block_at(d, i));
        assert(block_at(d, i)[j % 16] == d[j]);
    }
    assert(ecb_decrypt_blocks(key, c) =~= d);
}

/// CBC decryption of CBC-encrypted whole blocks, under the same key and IV,
/// gives them back (given the block facts that `encrypt_cbc` reports).
pub proof fn lemma_cbc_blocks_round_trip(key: Seq<u8>, iv: Seq<u8>, d: Seq<u8>)
    requires
        d.len() % 16 == 0,
        iv.len() == 16,
        forall|i: int| 0 <= i < d.len() / 16 ==> #[trigger] cbc_block_inverts(key, iv, d, i),
    ensures
        cbc_decrypt_blocks(key, iv, cbc_encrypt_blocks(key, iv, d)) == d,
{
    let f = |i: int| cbc_chain(key, iv, d, (i + 1) as nat);
    let c = cbc_encrypt_blocks(key, iv, d);
    assert forall|j: int| 0 <= j < d.len() implies cbc_decrypt_blocks(key, iv, c)[j] == d[j] by {
        let i: int = j / 16;
        lemma_cbc_chain_len(key, iv, d, (i + 1) as nat);
        lemma_cbc_chain_len(key, iv, d, i as nat);
        lemma_block_of_blockwise(d.len(), f, i);
        assert(block_at(c, i) == cbc_chain(key, iv, d, (i + 1) as nat));
        if i > 0 {
            lemma_block_of_blockwise(d.len(), f, i - 1);
        }
        assert(cbc_prev(iv, c, i) == cbc_chain(key, iv, d, i as nat));
        let x = xor_bytes(block_at(d, i), cbc_chain(key, iv, d, i as nat));
        assert(cbc_block_inverts(key, iv, d, i));
        assert(aes128_decrypt_block(key, block_at(c, i)) == x);
        lemma_xor_bytes_twice(block_at(d, i), cbc_chain(key, iv, d, i as nat));
        assert(block_at(d, i)[j % 16] == d[j]);
    }
    assert(cbc_decrypt_blocks(key, iv, c) =~= d);
}

/// Decrypting ECB output: the ciphertext is whole blocks, and decrypting it
/// under the same key gives the plaintext back, with a note on the padding
/// that `encrypt_ecb` added (given the block facts it reports).
pub proof fn lemma_ecb_round_trip(key: Seq<u8>, pt: Seq<u8>)
    requires
        forall|i: int|
            0 <= i < pkcs7_padded(pt).len() / 16 ==> #[trigger] ecb_block_inverts(
                key,
                pkcs7_padded(pt),
                i,
            ),
    ensures
        whole_blocks(ecb_encrypt_blocks(key, pkcs7_padded(pt))),
        unpad_result(ecb_decrypt_blocks(key, ecb_encrypt_blocks(key, pkcs7_padded(pt)))) == Ok::<
            (Seq<u8>, Seq<char>),
            Seq<char>,
        >((pt, pad_note(false, pkcs7_pad_count(pt.len()) as u8))),
{
    lemma_pkcs7_unpad_pad(pt);
    lemma_ecb_blocks_round_trip(key, pkcs7_padded(pt));
}

/// Decrypting CBC output: the ciphertext is whole blocks, and decrypting it
/// under the same key and IV gives the plaintext back, with a note on the
/// padding that `encrypt_cbc` added (given the block facts it reports).
pub proof fn lemma_cbc_round_trip(key: Seq<u8>, iv: Seq<u8>, pt: Seq<u8>)
    requires
        iv.len() == 16,
        forall|i: int|
            0 <= i < pkcs7_padded(pt).len() / 16 ==> #[trigger] cbc_block_inverts(
                key,
                iv,
                pkcs7_padded(pt),
                i,
            ),
    ensures
        whole_blocks(cbc_encrypt_blocks(key, iv, pkcs7_padded(pt))),
        unpad_result(cbc_decrypt_blocks(key, iv, cbc_encrypt_blocks(key, iv, pkcs7_padded(pt))))
            == Ok::<(Seq<u8>, Seq<char>), Seq<char>>(
            (pt, pad_note(false, pkcs7_pad_count(pt.len()) as u8)),
        ),
{
    lemma_pkcs7_unpad_pad(pt);
    lemma_cbc_blocks_round_trip(key, iv, pkcs7_padded(pt));
}

// ---- what the modes compute, in terms of the block cipher ------------------------

/// XORing a byte with a key and then with the byte itself leaves the key.
pub proof fn lemma_xor_recovers_key(a: u8, k: u8)
    ensures
        (a ^ k) ^ a == k,
{
    assert((a ^ k) ^ a == k) by (bit_vector);
}

/// AES-128 under `key` maps 16-byte blocks to 16-byte blocks.
pub open spec fn aes128_sized(key: Seq<u8>) -> bool {
    forall|b: Seq<u8>| b.len() == 16 ==> #[trigger] aes128_encrypt_block(key, b).len() == 16
}

/// The keystream that produced block `i` (`i >= 1`) of an output: output XOR input
/// over that block.
pub open spec fn used_keystream(out: Seq<u8>, d: Seq<u8>, i: int) -> Seq<u8> {
    xor_bytes(out.subrange(16 * i, 16 * i + 16), d.subrange(16 * i, 16 * i + 16))
}

/// OFB as the standard defines it: the first block is XORed with `E_K(IV)`,
/// and every later block with the encryption of the keystream block before it
/// (which is output XOR input over the previous block).
pub open spec fn ofb_law(key: Seq<u8>, iv: Seq<u8>, d: Seq<u8>, out: Seq<u8>) -> bool {
    &&& out.len() == d.len()
    &&& forall|j: int|
        0 <= j < out.len() && j < 16 ==> #[trigger] out[j] == d[j] ^ aes128_encrypt_block(
            key,
            iv,
        )[j]
    &&& forall|j: int|
        16 <= j < out.len() ==> #[trigger] out[j] == d[j] ^ aes128_encrypt_block(
            key,
            used_keystream(out, d, j / 16 - 1),
        )[j % 16]
}

/// `ofb_output` meets the OFB law when the chained blocks are 16 bytes long.
proof fn lemma_ofb_output_law(key: Seq<u8>, iv: Seq<u8>, d: Seq<u8>)
    requires
        forall|k: int| 1 <= k <= chunk_count(d.len()) ==> #[trigger] ofb_state(key, iv, k as nat).len() == 16,
    ensures
        ofb_law(key, iv, d, ofb_output(key, iv, d)),
{
    let out = ofb_output(key, iv, d);
    assert forall|j: int| 0 <= j < out.len() && j < 16 implies #[trigger] out[j] == d[j]
        ^ aes128_encrypt_block(key, iv)[j] by {
        assert(j / 16 == 0 && j % 16 == j);
        assert(ofb_state(key, iv, 1) == aes128_encrypt_block(key, ofb_state(key, iv, 0)));
    }
    assert forall|j: int| 16 <= j < out.len() implies #[trigger] out[j] == d[j] ^ aes128_encrypt_block(
        key,
        used_keystream(out, d, j / 16 - 1),
    )[j % 16] by {
        let i: int = j / 16;
        assert(1 <= i <= chunk_count(d.len()));
        assert(ofb_state(key, iv, i as nat).len() == 16);
        let u = used_keystream(out, d, i - 1);
        assert forall|k: int| 0 <= k < 16 implies u[k] == ofb_state(key, iv, i as nat)[k] by {
            let jj: int = 16 * (i - 1) + k;
            assert(jj / 16 == i - 1);
            assert(jj % 16 == k);
            lemma_xor_recovers_key(d[jj], ofb_state(key, iv, i as nat)[k]);
        }
        assert(u =~= ofb_state(key, iv, i as nat));
    }
}

/// OFB: over all keys, IVs and data, the output is the data XORed with the
/// chain `E_K(IV)`, `E_K(E_K(IV))`, ...: the first block with `E_K(IV)`, each
/// later block with the encryption of the keystream block before it.
pub proof fn lemma_ofb_is_output_feedback(key: Seq<u8>, iv: Seq<u8>, d: Seq<u8>)
    requires
        iv.len() == 16,
        aes128_sized(key),
    ensures
        ofb_law(key, iv, d, ofb_output(key, iv, d)),
{
    assert forall|k: int| 1 <= k <= chunk_count(d.len()) implies #[trigger] ofb_state(
        key,
        iv,
        k as nat,
    ).len() == 16 by {
        lemma_ofb_state_len(key, iv, k as nat);
    }
    lemma_ofb_output_law(key, iv, d);
}

proof fn lemma_ofb_state_len(key: Seq<u8>, iv: Seq<u8>, k: nat)
    requires
        iv.len() == 16,
        aes128_sized(key),
    ensures
        ofb_state(key, iv, k).len() == 16,
    decreases k,
{
    if k > 0 {
        lemma_ofb_state_len(key, iv, (k - 1) as nat);
    }
}

/// ECB encryption as the standard defines it: every ciphertext block is the
/// AES encryption of the plaintext block at the same place.
pub open spec fn ecb_encrypt_law(key: Seq<u8>, p: Seq<u8>, c: Seq<u8>) -> bool {
    &&& c.len() == p.len()
    &&& forall|i: int|
        0 <= i < p.len() / 16 ==> #[trigger] block_at(c, i) == aes128_encrypt_block(
            key,
            block_at(p, i),
        )
}

/// ECB decryption: every plaintext byte comes from the AES decryption of the
/// ciphertext block at the same place.
pub open spec fn ecb_decrypt_law(key: Seq<u8>, c: Seq<u8>, m: Seq<u8>) -> bool {
    &&& m.len() <= c.len()
    &&& forall|j: int|
        0 <= j < m.len() ==> #[trigger] m[j] == aes128_decrypt_block(key, block_at(c, j / 16))[j
            % 16]
}

/// CBC encryption as the standard defines it: every ciphertext block is the
/// AES encryption of the plaintext block XORed with the ciphertext block
/// before it, and with the IV for the first block.
pub open spec fn cbc_encrypt_law(key: Seq<u8>, iv: Seq<u8>, p: Seq<u8>, c: Seq<u8>) -> bool {
    &&& c.len() == p.len()
    &&& forall|i: int|
        0 <= i < p.len() / 16 ==> #[trigger] block_at(c, i) == aes128_encrypt_block(
            key,
            xor_bytes(block_at(p, i), if i == 0 { iv } else { block_at(c, i - 1) }),
        )
}

/// CBC decryption: every plaintext byte is the AES decryption of its
/// ciphertext block XORed with the ciphertext block before it, and with the
/// IV for the first block.
pub open spec fn cbc_decrypt_law(key: Seq<u8>, iv: Seq<u8>, c: Seq<u8>, m: Seq<u8>) -> bool {
    &&& m.len() <= c.len()
    &&& forall|j: int|
        0 <= j < m.len() ==> #[trigger] m[j] == aes128_decrypt_block(key, block_at(c, j / 16))[j
            % 16] ^ (if j / 16 == 0 {
            iv
        } else {
            block_at(c, j / 16 - 1)
        })[j % 16]
}

/// CFB-128 as the standard defines it: every byte is XORed with the AES
/// encryption of the IV (first block) or of the ciphertext block before it
/// (the output when encrypting, the input when decrypting).
pub open spec fn cfb_law(key: Seq<u8>, iv: Seq<u8>, d: Seq<u8>, encrypt: bool, out: Seq<u8>) -> bool {
    &&& out.len() == d.len()
    &&& forall|j: int|
        0 <= j < out.len() ==> #[trigger] out[j] == d[j] ^ aes128_encrypt_block(
            key,
            if j / 16 == 0 {
                iv
            } else {
                (if encrypt { out } else { d }).subrange(16 * (j / 16) - 16, 16 * (j / 16))
            },
        )[j % 16]
}

/// CTR as the standard defines it: every byte of block `i` is XORed with the
/// AES encryption of counter block `i`.
pub open spec fn ctr_law(key: Seq<u8>, iv: Seq<u8>, d: Seq<u8>, out: Seq<u8>) -> bool {
    &&& out.len() == d.len()
    &&& forall|j: int|
        0 <= j < out.len() ==> #[trigger] out[j] == d[j] ^ aes128_encrypt_block(
            key,
            ctr_counter(iv, (j / 16) as nat),
        )[j % 16]
}

/// ECB encryption meets the ECB law.
pub proof fn lemma_ecb_encrypt_law(key: Seq<u8>, p: Seq<u8>)
    requires
        p.len() % 16 == 0,
        forall|i: int|
            0 <= i < p.len() / 16 ==> #[trigger] aes128_encrypt_block(key, block_at(p, i)).len()
                == 16,
    ensures
        ecb_encrypt_law(key, p, ecb_encrypt_blocks(key, p)),
{
    let f = |i: int| aes128_encrypt_block(key, block_at(p, i));
    assert forall|i: int| 0 <= i < p.len() / 16 implies #[trigger] block_at(
        ecb_encrypt_blocks(key, p),
        i,
    ) == aes128_encrypt_block(key, block_at(p, i)) by {
        assert(aes128_encrypt_block(key, block_at(p, i)).len() == 16);
        lemma_block_of_blockwise(p.len(), f, i);
    }
}

/// Every prefix of ECB decryption meets the ECB decryption law.
pub proof fn lemma_ecb_decrypt_law(key: Seq<u8>, c: Seq<u8>, k: int)
    requires
        0 <= k <= c.len(),
    ensures
        ecb_decrypt_law(key, c, ecb_decrypt_blocks(key, c).subrange(0, k)),
{
}

/// CBC encryption meets the CBC law.
pub proof fn lemma_cbc_encrypt_law(key: Seq<u8>, iv: Seq<u8>, p: Seq<u8>)
    requires
        p.len() % 16 == 0,
        iv.len() == 16,
        forall|i: int|
            0 <= i < p.len() / 16 ==> #[trigger] cbc_chain(key, iv, p, (i + 1) as nat).len() == 16,
    ensures
        cbc_encrypt_law(key, iv, p, cbc_encrypt_blocks(key, iv, p)),
{
    let f = |i: int| cbc_chain(key, iv, p, (i + 1) as nat);
    let c = cbc_encrypt_blocks(key, iv, p);
    assert forall|i: int| 0 <= i < p.len() / 16 implies #[trigger] block_at(c, i)
        == aes128_encrypt_block(
        key,
        xor_bytes(block_at(p, i), if i == 0 { iv } else { block_at(c, i - 1) }),
    ) by {
        assert(cbc_chain(key, iv, p, (i + 1) as nat).len() == 16);
        lemma_block_of_blockwise(p.len(), f, i);
        assert(block_at(c, i) == f(i));
        assert(((i + 1) as nat - 1) as nat == i as nat);
        assert(cbc_chain(key, iv, p, (i + 1) as nat) == aes128_encrypt_block(
            key,
            xor_bytes(block_at(p, i), cbc_chain(key, iv, p, i as nat)),
        ));
        if i > 0 {
            assert(cbc_chain(key, iv, p, ((i - 1) + 1) as nat).len() == 16);
            assert(((i - 1) + 1) as nat == i as nat);
            lemma_block_of_blockwise(p.len(), f, i - 1);
            assert(block_at(c, i - 1) == cbc_chain(key, iv, p, i as nat));
        }
    }
}

/// Every prefix of CBC decryption meets the CBC decryption law, when the
/// blocks AES decrypted are 16 bytes long.
pub proof fn lemma_cbc_decrypt_law(key: Seq<u8>, iv: Seq<u8>, c: Seq<u8>, k: int)
    requires
        c.len() % 16 == 0,
        iv.len() == 16,
        0 <= k <= c.len(),
        forall|i: int|
            0 <= i < c.len() / 16 ==> #[trigger] aes128_decrypt_block(key, block_at(c, i)).len()
                == 16,
    ensures
        cbc_decrypt_law(key, iv, c, cbc_decrypt_blocks(key, iv, c).subrange(0, k)),
{
    let m = cbc_decrypt_blocks(key, iv, c).subrange(0, k);
    assert forall|j: int| 0 <= j < m.len() implies #[trigger] m[j] == aes128_decrypt_block(
        key,
        block_at(c, j / 16),
    )[j % 16] ^ (if j / 16 == 0 {
        iv
    } else {
        block_at(c, j / 16 - 1)
    })[j % 16] by {
        assert(aes128_decrypt_block(key, block_at(c, j / 16)).len() == 16);
    }
}

/// CFB-128 meets the CFB law, when the keystream blocks are 16 bytes long.
pub proof fn lemma_cfb_law(key: Seq<u8>, iv: Seq<u8>, d: Seq<u8>, encrypt: bool)
    requires
        iv.len() == 16,
        forall|i: int| 0 <= i < chunk_count(d.len()) ==> #[trigger] cfb_block_sized(key, iv, d, encrypt, i),
    ensures
        cfb_law(key, iv, d, encrypt, cfb_output(key, iv, d, encrypt)),
{
    let out = cfb_output(key, iv, d, encrypt);
    let ks = cfb_keystream(key, iv, d, encrypt);
    assert forall|j: int| 0 <= j < out.len() implies #[trigger] out[j] == d[j] ^ aes128_encrypt_block(
        key,
        if j / 16 == 0 {
            iv
        } else {
            (if encrypt { out } else { d }).subrange(16 * (j / 16) - 16, 16 * (j / 16))
        },
    )[j % 16] by {
        let i: int = j / 16;
        if i > 0 {
            let prev = cfb_feedback(key, iv, d, encrypt, (i - 1) as nat);
            assert(cfb_block_sized(key, iv, d, encrypt, i - 1));
            assert(chunk_at(d, i - 1) == d.subrange(16 * i - 16, 16 * i));
            if encrypt {
                lemma_keystream_chunk(d, ks, i - 1);
                assert(chunk_at(out, i - 1) == out.subrange(16 * i - 16, 16 * i));
            }
            assert(cfb_feedback(key, iv, d, encrypt, i as nat) == (if encrypt {
                out
            } else {
                d
            }).subrange(16 * i - 16, 16 * i));
        }
    }
}

/// CTR output meets the CTR law.
pub proof fn lemma_ctr_law(key: Seq<u8>, iv: Seq<u8>, d: Seq<u8>)
    ensures
        ctr_law(key, iv, d, ctr_output(key, iv, d)),
{
}

/// The CTR counter block for block `i` is the IV plus `i`, as a 128-bit
/// big-endian number that wraps around.
pub proof fn lemma_ctr_counter_value(iv: Seq<u8>, i: nat)
    requires
        iv.len() == 16,
    ensures
        ctr_counter(iv, i).len() == 16,
        be_value(ctr_counter(iv, i)) == (be_value(iv) + i) % pow256(16),
    decreases i,
{
    lemma_be_value_bound(iv);
    if i == 0 {
        lemma_small_mod(be_value(iv), pow256(16));
    } else {
        lemma_ctr_counter_value(iv, (i - 1) as nat);
        let prev = ctr_counter(iv, (i - 1) as nat);
        lemma_be_increment_value(prev);
        let m = pow256(16) as int;
        assert(m > 0) by {
            reveal_with_fuel(pow256, 17);
        }
        lemma_add_mod_noop(be_value(iv) + i - 1, 1, m);
        lemma_small_mod(1, m as nat);
    }
}

/// AES-128 decryption under `key` maps 16-byte blocks to 16-byte blocks.
pub open spec fn aes128_decrypt_sized(key: Seq<u8>) -> bool {
    forall|b: Seq<u8>| b.len() == 16 ==> #[trigger] aes128_decrypt_block(key, b).len() == 16
}

/// CBC chaining blocks are 16 bytes long when AES keeps the block size.
pub proof fn lemma_cbc_chain_sized(key: Seq<u8>, iv: Seq<u8>, p: Seq<u8>, i: nat)
    requires
        iv.len() == 16,
        aes128_sized(key),
        16 * i <= p.len(),
    ensures
        cbc_chain(key, iv, p, i).len() == 16,
    decreases i,
{
    if i > 0 {
        lemma_cbc_chain_sized(key, iv, p, (i - 1) as nat);
        let x = xor_bytes(block_at(p, i - 1), cbc_chain(key, iv, p, (i - 1) as nat));
        assert(x.len() == 16);
    }
}

/// CFB feedback blocks are 16 bytes long when AES keeps the block size.
pub proof fn lemma_cfb_feedback_sized(key: Seq<u8>, iv: Seq<u8>, d: Seq<u8>, encrypt: bool, i: nat)
    requires
        iv.len() == 16,
        aes128_sized(key),
        i == 0 || 16 * (i - 1) < d.len(),
    ensures
        cfb_feedback(key, iv, d, encrypt, i).len() == 16,
    decreases i,
{
    if i > 0 {
        lemma_cfb_feedback_sized(key, iv, d, encrypt, (i - 1) as nat);
    }
}

} // verus!
