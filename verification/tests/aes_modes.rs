use crypto_practices::block::parse_block;
use crypto_practices::counter::ctr_increment;
use crypto_practices::modes::{
    decrypt_cbc, decrypt_ecb, encrypt_cbc, encrypt_ecb, process_cfb, process_ctr, process_ofb,
};
use crypto_practices::padding::{pkcs7_pad, pkcs7_unpad};
use crypto_practices::process::process;
use crypto_practices::trace::{pack_trace, BlockTrace};

fn k() -> [u8; 16] {
    *b"YELLOW SUBMARINE"
}

fn iv() -> [u8; 16] {
    [0u8; 16]
}

fn run(direction: &str, mode: &str, data: &[u8]) -> Vec<u8> {
    let key = k();
    let mut trace: Vec<BlockTrace> = Vec::new();
    match (mode, direction) {
        ("ECB", "encrypt") => encrypt_ecb(&key, data, &mut trace).0,
        ("ECB", "decrypt") => decrypt_ecb(&key, data, &mut trace).unwrap().0,
        ("CBC", "encrypt") => encrypt_cbc(&key, &iv(), data, &mut trace).0,
        ("CBC", "decrypt") => decrypt_cbc(&key, &iv(), data, &mut trace).unwrap().0,
        ("CFB", "encrypt") => process_cfb(&key, &iv(), data, true, &mut trace),
        ("CFB", "decrypt") => process_cfb(&key, &iv(), data, false, &mut trace),
        ("OFB", _) => process_ofb(&key, &iv(), data, &mut trace),
        ("CTR", _) => process_ctr(&key, &iv(), data, &mut trace),
        _ => unreachable!(),
    }
}

#[test]
fn round_trip_all_modes() {
    let pt = b"the quick brown fox jumps over the lazy dog. AES-128 modes round trip!";
    for mode in ["ECB", "CBC", "CFB", "OFB", "CTR"] {
        let ct = run("encrypt", mode, pt);
        let back = run("decrypt", mode, &ct);
        assert_eq!(back, pt, "mode {}", mode);
    }
}

#[test]
fn nist_ecb_vector() {
    // NIST SP 800-38A F.1.1
    let key = hex::decode("2b7e151628aed2a6abf7158809cf4f3c").unwrap();
    let pt = hex::decode("6bc1bee22e409f96e93d7e117393172a").unwrap();
    let ct_exp = hex::decode("3ad77bb40d7a3660a89ecaf32466ef97").unwrap();
    let key = parse_block(&key);
    let b = parse_block(&pt);
    let mut trace = Vec::new();
    let (ct, _) = encrypt_ecb(&key, &b, &mut trace);
    assert_eq!(ct[..16].to_vec(), ct_exp);
}

#[test]
fn nist_ctr_vector() {
    // SP 800-38A F.5.1 (CTR-AES128.Encrypt)
    let key = hex::decode("2b7e151628aed2a6abf7158809cf4f3c").unwrap();
    let iv = hex::decode("f0f1f2f3f4f5f6f7f8f9fafbfcfdfeff").unwrap();
    let pt = hex::decode(
        "6bc1bee22e409f96e93d7e117393172a\
         ae2d8a571e03ac9c9eb76fac45af8e51\
         30c81c46a35ce411e5fbc1191a0a52ef\
         f69f2445df4f9b17ad2b417be66c3710",
    )
    .unwrap();
    let exp = hex::decode(
        "874d6191b620e3261bef6864990db6ce\
         9806f66b7970fdff8617187bb9fffdff\
         5ae4df3edbd5d35e5b4f09020db03eab\
         1e031dda2fbe03d1792170a0f3009cee",
    )
    .unwrap();
    let key = parse_block(&key);
    let mut trace = Vec::new();
    let got = process_ctr(&key, &parse_block(&iv), &pt, &mut trace);
    assert_eq!(got, exp);
}

fn nist_key() -> [u8; 16] {
    parse_block(&hex::decode("2b7e151628aed2a6abf7158809cf4f3c").unwrap())
}

fn nist_iv() -> [u8; 16] {
    parse_block(&hex::decode("000102030405060708090a0b0c0d0e0f").unwrap())
}

#[test]
fn nist_cbc_first_block() {
    // SP 800-38A F.2.1
    let pt = hex::decode("6bc1bee22e409f96e93d7e117393172a").unwrap();
    let mut trace = Vec::new();
    let (ct, note) = encrypt_cbc(&nist_key(), &nist_iv(), &pt, &mut trace);
    assert_eq!(hex::encode(&ct[..16]), "7649abac8119b246cee98e9b12e9197d");
    assert_eq!(ct.len(), 32);
    assert_eq!(note.unwrap(), "PKCS#7 pad: 0x10 (16 bytes)");
    assert_eq!(trace.len(), 2);
    assert_eq!(trace[0].input, "6bc1bee22e409f96e93d7e117393172a");
    assert_eq!(trace[0].xor_with, "000102030405060708090a0b0c0d0e0f");
    assert_eq!(trace[0].aes_in, "6bc0bce12a459991e134741a7f9e1925");
    assert_eq!(trace[0].output, "7649abac8119b246cee98e9b12e9197d");
    assert_eq!(trace[1].xor_with, "7649abac8119b246cee98e9b12e9197d");
    assert_eq!(trace[0].counter, "");
}

#[test]
fn nist_ofb_and_cfb_first_block() {
    // SP 800-38A F.4.1 and F.3.13: both encrypt the IV for the first block.
    let pt = hex::decode("6bc1bee22e409f96e93d7e117393172a").unwrap();
    let mut trace = Vec::new();
    let ofb = process_ofb(&nist_key(), &nist_iv(), &pt, &mut trace);
    assert_eq!(hex::encode(&ofb), "3b3fd92eb72dad20333449f8e83cfb4a");
    let cfb = process_cfb(&nist_key(), &nist_iv(), &pt, true, &mut trace);
    assert_eq!(hex::encode(&cfb), "3b3fd92eb72dad20333449f8e83cfb4a");
    assert_eq!(trace.len(), 2);
    assert_eq!(trace[1].index, 0);
    assert_eq!(trace[1].aes_in, "000102030405060708090a0b0c0d0e0f");
}

#[test]
fn stream_modes_keep_partial_chunk() {
    let data = b"seventeen bytes!!";
    for mode in ["CFB", "OFB", "CTR"] {
        let ct = run("encrypt", mode, data);
        assert_eq!(ct.len(), data.len(), "mode {}", mode);
        assert_eq!(run("decrypt", mode, &ct), data.to_vec(), "mode {}", mode);
    }
    let mut trace = Vec::new();
    process_ctr(&k(), &iv(), data, &mut trace);
    assert_eq!(trace.len(), 2);
    assert_eq!(trace[1].input.len(), 2);
    assert_eq!(trace[1].xor_with.len(), 2);
    assert_eq!(trace[1].counter, "00000000000000000000000000000001");
}

#[test]
fn padding_round_trip_and_errors() {
    let (padded, pad) = pkcs7_pad(b"abc");
    assert_eq!(pad, 13);
    assert_eq!(padded.len(), 16);
    assert_eq!(padded[15], 13);
    let (m, p) = pkcs7_unpad(&padded).unwrap();
    assert_eq!(m, b"abc");
    assert_eq!(p, 13);
    let (padded, pad) = pkcs7_pad(&[7u8; 16]);
    assert_eq!(pad, 16);
    assert_eq!(padded.len(), 32);
    assert_eq!(pkcs7_unpad(&[]).unwrap_err(), "ciphertext not a multiple of 16 bytes");
    assert_eq!(pkcs7_unpad(&[1u8; 15]).unwrap_err(), "ciphertext not a multiple of 16 bytes");
    assert_eq!(pkcs7_unpad(&[0u8; 16]).unwrap_err(), "invalid PKCS#7 padding");
    assert_eq!(pkcs7_unpad(&[17u8; 16]).unwrap_err(), "invalid PKCS#7 padding");
    let mut bad = [2u8; 16];
    bad[14] = 3;
    assert_eq!(pkcs7_unpad(&bad).unwrap_err(), "invalid PKCS#7 padding");
}

#[test]
fn counter_increment_carries_and_wraps() {
    let mut c = [0u8; 16];
    c[15] = 0xff;
    c[14] = 0xff;
    ctr_increment(&mut c);
    let mut exp = [0u8; 16];
    exp[13] = 1;
    assert_eq!(c, exp);
    let mut all = [0xffu8; 16];
    ctr_increment(&mut all);
    assert_eq!(all, [0u8; 16]);
    let mut one = [0u8; 16];
    ctr_increment(&mut one);
    assert_eq!(one[15], 1);
}

#[test]
fn pack_trace_keeps_head_and_tail() {
    let full: Vec<usize> = (0..20).collect();
    let (packed, truncated) = pack_trace(full);
    assert!(truncated);
    assert_eq!(packed, vec![0, 1, 2, 3, 4, 5, 6, 7, 8, 9, 18, 19]);
    let short: Vec<usize> = (0..12).collect();
    let (packed, truncated) = pack_trace(short.clone());
    assert!(!truncated);
    assert_eq!(packed, short);
}

#[test]
fn decrypt_rejects_bad_lengths_and_padding() {
    let mut trace = Vec::new();
    assert_eq!(
        decrypt_ecb(&k(), &[0u8; 15], &mut trace).unwrap_err(),
        "ciphertext not a multiple of 16 bytes"
    );
    assert!(trace.is_empty());
    assert_eq!(
        decrypt_cbc(&k(), &iv(), &[], &mut trace).unwrap_err(),
        "ciphertext not a multiple of 16 bytes"
    );
    let ct = run("encrypt", "ECB", b"hello");
    let mut tampered = ct.clone();
    tampered[15] ^= 0x55;
    assert_eq!(decrypt_ecb(&k(), &tampered, &mut trace).unwrap_err(), "invalid PKCS#7 padding");
    assert_eq!(trace.len(), 1);
}

#[test]
fn process_reports_errors() {
    let key = k();
    let err = |r: Result<_, String>| r.err().unwrap();
    assert_eq!(err(process("encrypt", "CBC", &key[..5], &iv(), b"x")), "key must be 16 bytes (got 5)");
    assert_eq!(err(process("encrypt", "CBC", &key, &[1, 2, 3], b"x")), "CBC requires a 16-byte IV (got 3)");
    assert_eq!(err(process("encrypt", "XYZ", &key, &[1, 2, 3], b"x")), "XYZ requires a 16-byte IV (got 3)");
    assert_eq!(err(process("sideways", "CBC", &key, &iv(), b"x")), "direction must be encrypt|decrypt");
    assert_eq!(err(process("encrypt", "XYZ", &key, &iv(), b"x")), "unknown mode XYZ");
    assert_eq!(err(process("decrypt", "ECB", &key, &[], b"short")), "ciphertext not a multiple of 16 bytes");
}

#[test]
fn process_round_trips_and_traces() {
    let key = k();
    let data: Vec<u8> = (0u8..200).collect();
    for mode in ["ECB", "CBC", "CFB", "OFB", "CTR"] {
        let enc = process("encrypt", mode, &key, &iv(), &data).ok().unwrap();
        let dec = process("decrypt", mode, &key, &iv(), &enc.ciphertext).ok().unwrap();
        assert_eq!(dec.ciphertext, data, "mode {}", mode);
        assert!(enc.truncated, "mode {}", mode);
        assert_eq!(enc.trace.len(), 12);
        assert_eq!(enc.trace[10].index, enc.blocks_total - 2);
        assert_eq!(enc.trace[11].index, enc.blocks_total - 1);
        let padded = mode == "ECB" || mode == "CBC";
        assert_eq!(enc.pad_info.is_some(), padded);
        assert_eq!(enc.blocks_total, if padded { 13 } else { 13 });
    }
    let enc = process("encrypt", "ECB", &key, b"ignored iv", b"fifteen bytes!!").ok().unwrap();
    assert_eq!(enc.pad_info.unwrap(), "PKCS#7 pad: 0x01 (1 byte)");
    assert!(!enc.truncated);
    assert_eq!(enc.blocks_total, 1);
    let dec = process("decrypt", "ECB", &key, &[], &enc.ciphertext).ok().unwrap();
    assert_eq!(dec.pad_info.unwrap(), "PKCS#7 strip: 0x01 (1 byte)");
}

#[test]
fn decrypt_trace_shows_stripped_last_block() {
    let mut trace = Vec::new();
    let ct = run("encrypt", "ECB", b"hello");
    let (pt, note) = decrypt_ecb(&k(), &ct, &mut trace).unwrap();
    assert_eq!(pt, b"hello");
    assert_eq!(note.unwrap(), "PKCS#7 strip: 0x0b (11 bytes)");
    assert_eq!(trace.len(), 1);
    assert_eq!(trace[0].output, "68656c6c6f");
    assert_eq!(trace[0].aes_out.len(), 32);

    let mut trace = Vec::new();
    let block = *b"exactly 16 bytes";
    let ct = run("encrypt", "CBC", &block);
    let (pt, _) = decrypt_cbc(&k(), &iv(), &ct, &mut trace).unwrap();
    assert_eq!(pt, block.to_vec());
    assert_eq!(trace.len(), 2);
    assert_eq!(trace[0].output, hex::encode(block));
    assert_eq!(trace[1].output, "");

    let out = process("decrypt", "CBC", &k(), &iv(), &run("encrypt", "CBC", b"abc")).ok().unwrap();
    assert_eq!(out.trace.len(), 1);
    assert_eq!(out.trace[0].output, "616263");
}
