//! One cipher run as the front end asks for it: direction, mode, key, IV and
//! data in; output bytes, a (possibly truncated) block trace and a padding
//! note out.

use crate::block::{aes128_decrypt_block, aes128_encrypt_block, Block, BLOCK};
use crate::modes::{
    aes128_decrypt_sized, aes128_sized, block_at, cbc_chain, cfb_block_sized, chunk_count,
    lemma_cbc_chain_sized, lemma_cbc_decrypt_law, lemma_cbc_encrypt_law, lemma_cfb_feedback_sized,
    lemma_cfb_law, lemma_ctr_law, lemma_ecb_decrypt_law, lemma_ecb_encrypt_law,
    lemma_ofb_is_output_feedback,
    cbc_decrypt_law, cbc_encrypt_law, cfb_law, ctr_law, ecb_decrypt_law, ecb_encrypt_law, ofb_law,
    cbc_decrypt_blocks, cbc_decrypt_trace,
    cbc_encrypt_blocks, cbc_encrypt_trace, cfb_output, cfb_trace, ctr_output, ctr_trace,
    decrypt_cbc, decrypt_ecb, decrypt_trace_stripped, ecb_decrypt_blocks, ecb_decrypt_trace, ecb_encrypt_blocks,
    ecb_encrypt_trace, encrypt_cbc, encrypt_ecb, lemma_ctr_round_trip, lemma_ofb_round_trip,
    ofb_output, ofb_trace,
    pad_note, process_cfb, process_ctr, process_ofb, unpad_result,
};
use crate::padding::{
    lemma_pkcs7_unpad_pad, msg_not_whole_blocks, pkcs7_pad_count, pkcs7_padded, pkcs7_unpadded,
    whole_blocks,
};
use crate::text::{decimal, to_decimal};
use crate::trace::{appends_records, pack_trace, packed, BlockTrace, TraceModel};
use vstd::prelude::*;
use vstd::string::*;
use vstd::utf8::encode_utf8_decode_utf8;

verus! {

/// A mode of operation.
#[derive(Clone, Copy, PartialEq, Eq, Debug)]
pub enum Mode {
    Ecb,
    Cbc,
    Cfb,
    Ofb,
    Ctr,
}

/// The mode a name selects, if any.
pub open spec fn mode_named(name: Seq<char>) -> Option<Mode> {
    if name == "ECB"@ {
        Some(Mode::Ecb)
    } else if name == "CBC"@ {
        Some(Mode::Cbc)
    } else if name == "CFB"@ {
        Some(Mode::Cfb)
    } else if name == "OFB"@ {
        Some(Mode::Ofb)
    } else if name == "CTR"@ {
        Some(Mode::Ctr)
    } else {
        None
    }
}

/// Whether two strings hold the same characters.
pub fn str_eq(a: &str, b: &str) -> (r: bool)
    ensures
        r == (a@ == b@),
{
    let x = a.as_bytes();
    let y = b.as_bytes();
    proof {
        encode_utf8_decode_utf8(a@);
        encode_utf8_decode_utf8(b@);
    }
    if x.len() != y.len() {
        return false;
    }
    let mut i: usize = 0;
    while i < x.len()
        invariant
            i <= x@.len(),
            x@.len() == y@.len(),
            a@ == b@ ==> x@ == y@,
            forall|j: int| 0 <= j < i ==> x@[j] == y@[j],
        decreases x@.len() - i,
    {
        if x[i] != y[i] {
            return false;
        }
        i += 1;
    }
    assert(x@ =~= y@);
    true
}

/// The mode a name selects, if any.
pub fn parse_mode(name: &str) -> (m: Option<Mode>)
    ensures
        m == mode_named(name@),
{
    if str_eq(name, "ECB") {
        Some(Mode::Ecb)
    } else if str_eq(name, "CBC") {
        Some(Mode::Cbc)
    } else if str_eq(name, "CFB") {
        Some(Mode::Cfb)
    } else if str_eq(name, "OFB") {
        Some(Mode::Ofb)
    } else if str_eq(name, "CTR") {
        Some(Mode::Ctr)
    } else {
        None
    }
}

/// The error text for a key of the wrong length.
pub open spec fn msg_bad_key(len: nat) -> Seq<char> {
    "key must be 16 bytes (got "@ + decimal(len) + ")"@
}

/// The error text for an IV of the wrong length in a mode that uses one.
pub open spec fn msg_bad_iv(mode: Seq<char>, len: nat) -> Seq<char> {
    mode + " requires a 16-byte IV (got "@ + decimal(len) + ")"@
}

/// The error text for an unknown direction.
pub open spec fn msg_bad_direction() -> Seq<char> {
    "direction must be encrypt|decrypt"@
}

/// The error text for an unknown mode.
pub open spec fn msg_unknown_mode(mode: Seq<char>) -> Seq<char> {
    "unknown mode "@ + mode
}

/// Checks that the key is one AES-128 key.
pub fn require_key(key: &[u8]) -> (res: Result<Block, String>)
    ensures
        key@.len() == 16 ==> (res matches Ok(k) && k@ == key@),
        key@.len() != 16 ==> (res matches Err(e) && e@ == msg_bad_key(key@.len())),
{
    if key.len() != BLOCK {
        let s = String::from_str("key must be 16 bytes (got ");
        let s = s.concat(to_decimal(key.len()).as_str());
        return Err(s.concat(")"));
    }
    Ok(crate::block::parse_block(key))
}

/// The IV a mode runs with: all zeros for ECB, which uses none, else the
/// given IV, which must be one block.
pub fn require_iv(iv: &[u8], mode: &str) -> (res: Result<Block, String>)
    ensures
        mode@ == "ECB"@ ==> (res matches Ok(v) && v@ == Seq::new(16, |i: int| 0u8)),
        mode@ != "ECB"@ && iv@.len() == 16 ==> (res matches Ok(v) && v@ == iv@),
        mode@ != "ECB"@ && iv@.len() != 16 ==> (res matches Err(e) && e@ == msg_bad_iv(
            mode@,
            iv@.len(),
        )),
{
    if str_eq(mode, "ECB") {
        let z: Block = [0u8; 16];
        assert(z@ =~= Seq::new(16, |i: int| 0u8));
        return Ok(z);
    }
    if iv.len() != BLOCK {
        let s = String::from_str(mode);
        let s = s.concat(" requires a 16-byte IV (got ");
        let s = s.concat(to_decimal(iv.len()).as_str());
        return Err(s.concat(")"));
    }
    Ok(crate::block::parse_block(iv))
}

/// The result of a run, as bytes: output, padding note and one trace model
/// per block.
pub struct Run {
    pub output: Seq<u8>,
    pub pad_info: Option<Seq<char>>,
    pub records: Seq<TraceModel>,
}

/// What a mode does to `data` in the given direction.
pub open spec fn run_mode(mode: Mode, encrypt: bool, key: Seq<u8>, iv: Seq<u8>, data: Seq<u8>) -> Result<
    Run,
    Seq<char>,
> {
    match mode {
        Mode::Ecb => if encrypt {
            let d = pkcs7_padded(data);
            Ok(
                Run {
                    output: ecb_encrypt_blocks(key, d),
                    pad_info: Some(pad_note(true, pkcs7_pad_count(data.len()) as u8)),
                    records: ecb_encrypt_trace(key, d),
                },
            )
        } else if !whole_blocks(data) {
            Err(msg_not_whole_blocks())
        } else {
            match unpad_result(ecb_decrypt_blocks(key, data)) {
                Ok((m, note)) => Ok(
                    Run {
                        output: m,
                        pad_info: Some(note),
                        records: decrypt_trace_stripped(
                            ecb_decrypt_trace(key, data),
                            ecb_decrypt_blocks(key, data),
                        ),
                    },
                ),
                Err(e) => Err(e),
            }
        },
        Mode::Cbc => if encrypt {
            let d = pkcs7_padded(data);
            Ok(
                Run {
                    output: cbc_encrypt_blocks(key, iv, d),
                    pad_info: Some(pad_note(true, pkcs7_pad_count(data.len()) as u8)),
                    records: cbc_encrypt_trace(key, iv, d),
                },
            )
        } else if !whole_blocks(data) {
            Err(msg_not_whole_blocks())
        } else {
            match unpad_result(cbc_decrypt_blocks(key, iv, data)) {
                Ok((m, note)) => Ok(
                    Run {
                        output: m,
                        pad_info: Some(note),
                        records: decrypt_trace_stripped(
                            cbc_decrypt_trace(key, iv, data),
                            cbc_decrypt_blocks(key, iv, data),
                        ),
                    },
                ),
                Err(e) => Err(e),
            }
        },
        Mode::Cfb => Ok(
            Run {
                output: cfb_output(key, iv, data, encrypt),
                pad_info: None,
                records: cfb_trace(key, iv, data, encrypt),
            },
        ),
        Mode::Ofb => Ok(
            Run { output: ofb_output(key, iv, data), pad_info: None, records: ofb_trace(key, iv, data) },
        ),
        Mode::Ctr => Ok(
            Run { output: ctr_output(key, iv, data), pad_info: None, records: ctr_trace(key, iv, data) },
        ),
    }
}

/// What a whole request gives, checks first: key length, then IV length
/// (unless the mode is ECB), then direction, then mode.
pub open spec fn process_spec(
    direction: Seq<char>,
    mode: Seq<char>,
    key: Seq<u8>,
    iv: Seq<u8>,
    data: Seq<u8>,
) -> Result<Run, Seq<char>> {
    if key.len() != 16 {
        Err(msg_bad_key(key.len()))
    } else if mode != "ECB"@ && iv.len() != 16 {
        Err(msg_bad_iv(mode, iv.len()))
    } else if direction != "encrypt"@ && direction != "decrypt"@ {
        Err(msg_bad_direction())
    } else {
        match mode_named(mode) {
            None => Err(msg_unknown_mode(mode)),
            Some(m) => run_mode(
                m,
                direction == "encrypt"@,
                key,
                if m == Mode::Ecb { Seq::new(16, |i: int| 0u8) } else { iv },
                data,
            ),
        }
    }
}

/// The mode and direction names are all different.
proof fn lemma_names_distinct()
    ensures
        "encrypt"@ != "decrypt"@,
        "ECB"@ != "CBC"@,
        "ECB"@ != "CFB"@,
        "ECB"@ != "OFB"@,
        "ECB"@ != "CTR"@,
        "CBC"@ != "CFB"@,
        "CBC"@ != "OFB"@,
        "CBC"@ != "CTR"@,
        "CFB"@ != "OFB"@,
        "CFB"@ != "CTR"@,
        "OFB"@ != "CTR"@,
{
    reveal_strlit("encrypt");
    reveal_strlit("decrypt");
    reveal_strlit("ECB");
    reveal_strlit("CBC");
    reveal_strlit("CFB");
    reveal_strlit("OFB");
    reveal_strlit("CTR");
    assert("encrypt"@[0] != "decrypt"@[0]);
    assert("ECB"@[0] != "CBC"@[0] && "ECB"@[0] != "CFB"@[0] && "ECB"@[0] != "OFB"@[0]);
    assert("ECB"@[0] != "CTR"@[0] && "CBC"@[1] != "CFB"@[1] && "CBC"@[0] != "OFB"@[0]);
    assert("CBC"@[1] != "CTR"@[1] && "CFB"@[0] != "OFB"@[0] && "CFB"@[1] != "CTR"@[1]);
    assert("OFB"@[0] != "CTR"@[0]);
}

/// What a request computes, in terms of AES-128 under the key and the IV the
/// caller gave: ECB and CBC over the PKCS#7-padded data when encrypting and
/// over the given blocks when decrypting; CFB-128, OFB and CTR over the data.
/// Every mode but ECB starts from exactly the caller's IV.
pub open spec fn follows_mode(
    direction: Seq<char>,
    mode: Seq<char>,
    key: Seq<u8>,
    iv: Seq<u8>,
    data: Seq<u8>,
    out: Seq<u8>,
) -> bool {
    &&& mode == "ECB"@ && direction == "encrypt"@ ==> ecb_encrypt_law(key, pkcs7_padded(data), out)
    &&& mode == "ECB"@ && direction == "decrypt"@ ==> ecb_decrypt_law(key, data, out)
    &&& mode == "CBC"@ && direction == "encrypt"@ ==> cbc_encrypt_law(
        key,
        iv,
        pkcs7_padded(data),
        out,
    )
    &&& mode == "CBC"@ && direction == "decrypt"@ ==> cbc_decrypt_law(key, iv, data, out)
    &&& mode == "CFB"@ ==> cfb_law(key, iv, data, direction == "encrypt"@, out)
    &&& mode == "OFB"@ ==> ofb_law(key, iv, data, out)
    &&& mode == "CTR"@ ==> ctr_law(key, iv, data, out)
}

/// Whether a decryption request with the same mode, key and IV turns `out`
/// back into `data`.
pub open spec fn decrypts_back(
    mode: Seq<char>,
    key: Seq<u8>,
    iv: Seq<u8>,
    data: Seq<u8>,
    out: Seq<u8>,
) -> bool {
    process_spec("decrypt"@, mode, key, iv, out) matches Ok(back) && back.output == data
}

/// The outcome of a run that the front end displays.
pub struct ProcessOut {
    /// Output bytes (ciphertext or plaintext).
    pub ciphertext: Vec<u8>,
    /// Number of blocks (or chunks) processed.
    pub blocks_total: usize,
    /// Whether the trace was cut to `MAX_TRACE` records.
    pub truncated: bool,
    /// The first `MAX_TRACE - 2` records and the last 2 when there are more
    /// than `MAX_TRACE`, else all of them.
    pub trace: Vec<BlockTrace>,
    /// For ECB and CBC, the PKCS#7 padding added or stripped.
    pub pad_info: Option<String>,
}

impl ProcessOut {
    /// Whether this outcome displays `run`.
    pub open spec fn displays(&self, run: Run) -> bool {
        &&& self.ciphertext@ == run.output
        &&& self.blocks_total == run.records.len()
        &&& self.truncated == (run.records.len() > 12)
        &&& self.trace@.len() == packed(run.records).len()
        &&& forall|i: int|
            0 <= i < self.trace@.len() ==> #[trigger] self.trace@[i].shows(packed(run.records)[i])
        &&& match (self.pad_info, run.pad_info) {
            (Some(s), Some(t)) => s@ == t,
            (None, None) => true,
            _ => false,
        }
    }
}

/// Runs one request: `direction` is `encrypt` or `decrypt`, `mode` one of
/// `ECB`, `CBC`, `CFB`, `OFB`, `CTR`.
#[verifier::spinoff_prover]
#[verifier::rlimit(50)]
pub fn process(direction: &str, mode: &str, key: &[u8], iv: &[u8], data: &[u8]) -> (res: Result<
    ProcessOut,
    String,
>)
    requires
        data@.len() + 16 <= usize::MAX,
    ensures
        match (res, process_spec(direction@, mode@, key@, iv@, data@)) {
            (Ok(out), Ok(run)) => out.displays(run),
            (Err(e), Err(se)) => e@ == se,
            _ => false,
        },
        res matches Ok(out) ==> follows_mode(
            direction@,
            mode@,
            key@,
            iv@,
            data@,
            out.ciphertext@,
        ),
        direction@ == "encrypt"@ ==> (res matches Ok(out) ==> decrypts_back(
            mode@,
            key@,
            iv@,
            data@,
            out.ciphertext@,
        )),
{
    let key_arr = match require_key(key) {
        Ok(k) => k,
        Err(e) => return Err(e),
    };
    let iv_arr = match require_iv(iv, mode) {
        Ok(v) => v,
        Err(e) => return Err(e),
    };
    let encrypt = if str_eq(direction, "encrypt") {
        true
    } else if str_eq(direction, "decrypt") {
        false
    } else {
        return Err(String::from_str("direction must be encrypt|decrypt"));
    };
    let m = match parse_mode(mode) {
        Some(m) => m,
        None => {
            let s = String::from_str("unknown mode ");
            return Err(s.concat(mode));
        },
    };
    proof {
        lemma_names_distinct();
    }
    let ghost zero_iv = Seq::new(16, |i: int| 0u8);
    let mut trace: Vec<BlockTrace> = Vec::new();
    let (out_bytes, pad_info) = match m {
        Mode::Ecb => if encrypt {
            let r = encrypt_ecb(&key_arr, data, &mut trace);
            assert(decrypts_back(mode@, key@, iv@, data@, r.0@));
            assert(follows_mode(direction@, mode@, key@, iv@, data@, r.0@));
            r
        } else {
            match decrypt_ecb(&key_arr, data, &mut trace) {
                Ok(r) => {
                    assert(follows_mode(direction@, mode@, key@, iv@, data@, r.0@));
                    r
                },
                Err(e) => return Err(e),
            }
        },
        Mode::Cbc => if encrypt {
            let r = encrypt_cbc(&key_arr, &iv_arr, data, &mut trace);
            assert(decrypts_back(mode@, key@, iv@, data@, r.0@));
            assert(follows_mode(direction@, mode@, key@, iv@, data@, r.0@));
            r
        } else {
            match decrypt_cbc(&key_arr, &iv_arr, data, &mut trace) {
                Ok(r) => {
                    assert(follows_mode(direction@, mode@, key@, iv@, data@, r.0@));
                    r
                },
                Err(e) => return Err(e),
            }
        },
        Mode::Cfb => {
            let r = process_cfb(&key_arr, &iv_arr, data, encrypt, &mut trace);
            assert(encrypt ==> decrypts_back(mode@, key@, iv@, data@, r@));
            assert(follows_mode(direction@, mode@, key@, iv@, data@, r@));
            (r, None)
        },
        Mode::Ofb => {
            let r = process_ofb(&key_arr, &iv_arr, data, &mut trace);
            proof {
                lemma_ofb_round_trip(key@, iv@, data@);
            }
            assert(decrypts_back(mode@, key@, iv@, data@, r@));
            assert(follows_mode(direction@, mode@, key@, iv@, data@, r@));
            (r, None)
        },
        Mode::Ctr => {
            let r = process_ctr(&key_arr, &iv_arr, data, &mut trace);
            proof {
                lemma_ctr_round_trip(key@, iv@, data@);
            }
            assert(decrypts_back(mode@, key@, iv@, data@, r@));
            assert(follows_mode(direction@, mode@, key@, iv@, data@, r@));
            (r, None)
        },
    };
    let ghost run = process_spec(direction@, mode@, key@, iv@, data@);
    assert(run is Ok);
    assert(out_bytes@ == run->Ok_0.output);
    assert(appends_records(Seq::empty(), trace@, run->Ok_0.records));
    let blocks_total = trace.len();
    let ghost full = trace@;
    let (trace, truncated) = pack_trace(trace);
    proof {
        let recs = run->Ok_0.records;
        assert(full.len() == recs.len());
        assert forall|i: int| 0 <= i < full.len() implies #[trigger] full[i].shows(recs[i]) by {
            assert(full[0 + i].shows(recs[i]));
        }
        assert forall|i: int| 0 <= i < trace@.len() implies #[trigger] trace@[i].shows(
            packed(recs)[i],
        ) by {
            if full.len() > 12 && i >= 10 {
                assert(trace@[i] == full[full.len() - 12 + i]);
                assert(packed(recs)[i] == recs[recs.len() - 12 + i]);
            }
        }
    }
    Ok(ProcessOut { ciphertext: out_bytes, blocks_total, truncated, trace, pad_info })
}

/// ECB never reads the IV: a request in ECB gives the same result whatever
/// IV comes with it, of any length.
pub proof fn lemma_ecb_ignores_iv(
    direction: Seq<char>,
    key: Seq<u8>,
    iv1: Seq<u8>,
    iv2: Seq<u8>,
    data: Seq<u8>,
)
    ensures
        process_spec(direction, "ECB"@, key, iv1, data) == process_spec(
            direction,
            "ECB"@,
            key,
            iv2,
            data,
        ),
{
}

/// OFB and CTR are their own inverse: a request in either gives the same
/// result whether it asks to encrypt or to decrypt.
pub proof fn lemma_stream_modes_ignore_direction(
    mode: Seq<char>,
    key: Seq<u8>,
    iv: Seq<u8>,
    data: Seq<u8>,
)
    requires
        mode == "OFB"@ || mode == "CTR"@,
    ensures
        process_spec("encrypt"@, mode, key, iv, data) == process_spec(
            "decrypt"@,
            mode,
            key,
            iv,
            data,
        ),
{
    lemma_names_distinct();
}

/// Over all requests that succeed, and every key under which AES-128 keeps
/// blocks 16 bytes long: what `process` computes is the mode it names, run
/// with AES under that key and, for every mode but ECB, exactly the IV the
/// caller gave (see `follows_mode`).
pub proof fn lemma_process_follows_mode(
    direction: Seq<char>,
    mode: Seq<char>,
    key: Seq<u8>,
    iv: Seq<u8>,
    data: Seq<u8>,
)
    requires
        process_spec(direction, mode, key, iv, data) is Ok,
        aes128_sized(key),
        aes128_decrypt_sized(key),
    ensures
        follows_mode(
            direction,
            mode,
            key,
            iv,
            data,
            process_spec(direction, mode, key, iv, data)->Ok_0.output,
        ),
{
    lemma_names_distinct();
    let encrypt = direction == "encrypt"@;
    let padded = pkcs7_padded(data);
    lemma_pkcs7_unpad_pad(data);
    match mode_named(mode)->Some_0 {
        Mode::Ecb => {
            if encrypt {
                assert forall|i: int| 0 <= i < padded.len() / 16 implies #[trigger]
                    aes128_encrypt_block(key, block_at(padded, i)).len() == 16 by {
                    assert(block_at(padded, i).len() == 16);
                }
                lemma_ecb_encrypt_law(key, padded);
            } else {
                let raw = ecb_decrypt_blocks(key, data);
                if let Ok((m, p)) = pkcs7_unpadded(raw) {
                    lemma_ecb_decrypt_law(key, data, raw.len() - p);
                }
            }
        },
        Mode::Cbc => {
            if encrypt {
                assert forall|i: int| 0 <= i < padded.len() / 16 implies #[trigger] cbc_chain(
                    key,
                    iv,
                    padded,
                    (i + 1) as nat,
                ).len() == 16 by {
                    lemma_cbc_chain_sized(key, iv, padded, (i + 1) as nat);
                }
                lemma_cbc_encrypt_law(key, iv, padded);
            } else {
                let raw = cbc_decrypt_blocks(key, iv, data);
                assert forall|i: int| 0 <= i < data.len() / 16 implies #[trigger]
                    aes128_decrypt_block(key, block_at(data, i)).len() == 16 by {
                    assert(block_at(data, i).len() == 16);
                }
                if let Ok((m, p)) = pkcs7_unpadded(raw) {
                    lemma_cbc_decrypt_law(key, iv, data, raw.len() - p);
                }
            }
        },
        Mode::Cfb => {
            assert forall|i: int| 0 <= i < chunk_count(data.len()) implies #[trigger] cfb_block_sized(
                key,
                iv,
                data,
                encrypt,
                i,
            ) by {
                lemma_cfb_feedback_sized(key, iv, data, encrypt, i as nat);
            }
            lemma_cfb_law(key, iv, data, encrypt);
        },
        Mode::Ofb => {
            lemma_ofb_is_output_feedback(key, iv, data);
        },
        Mode::Ctr => {
            lemma_ctr_law(key, iv, data);
        },
    }
}

} // verus!
