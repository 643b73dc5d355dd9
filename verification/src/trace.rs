//! Per-block trace records of a cipher run, and their truncation for display.

use crate::text::{hex_lower, to_hex};
use vstd::prelude::*;

verus! {

/// Most trace records kept for display.
pub const MAX_TRACE: usize = 12;

/// What happened to one block (or final partial chunk) of a cipher run. Every
/// byte field is rendered as lowercase hex; a field that does not apply to the
/// mode is the empty string.
pub struct BlockTrace {
    /// Position of the block in the input, from 0.
    pub index: usize,
    /// Raw input block as it enters the round (plaintext or ciphertext block).
    pub input: String,
    /// Value fed to the AES block function (after any XOR step).
    pub aes_in: String,
    /// Output of the AES block function.
    pub aes_out: String,
    /// Value XORed in this round (keystream, or the chaining block in CBC).
    pub xor_with: String,
    /// Final output block of this round, after the XOR step and, for the
    /// last block of ECB or CBC decryption, after the padding is stripped.
    pub output: String,
    /// The counter block used (CTR only).
    pub counter: String,
}

/// The bytes behind one trace record.
pub struct TraceModel {
    pub index: int,
    pub input: Seq<u8>,
    pub aes_in: Seq<u8>,
    pub aes_out: Seq<u8>,
    pub xor_with: Seq<u8>,
    pub output: Seq<u8>,
    pub counter: Seq<u8>,
}

impl BlockTrace {
    /// Whether this record renders the bytes of `m`.
    pub open spec fn shows(&self, m: TraceModel) -> bool {
        &&& self.index as int == m.index
        &&& self.input@ == hex_lower(m.input)
        &&& self.aes_in@ == hex_lower(m.aes_in)
        &&& self.aes_out@ == hex_lower(m.aes_out)
        &&& self.xor_with@ == hex_lower(m.xor_with)
        &&& self.output@ == hex_lower(m.output)
        &&& self.counter@ == hex_lower(m.counter)
    }

    /// Renders one record.
    pub fn new(
        index: usize,
        input: &[u8],
        aes_in: &[u8],
        aes_out: &[u8],
        xor_with: &[u8],
        output: &[u8],
        counter: &[u8],
    ) -> (t: BlockTrace)
        ensures
            t.shows(
                TraceModel {
                    index: index as int,
                    input: input@,
                    aes_in: aes_in@,
                    aes_out: aes_out@,
                    xor_with: xor_with@,
                    output: output@,
                    counter: counter@,
                },
            ),
    {
        BlockTrace {
            index,
            input: to_hex(input),
            aes_in: to_hex(aes_in),
            aes_out: to_hex(aes_out),
            xor_with: to_hex(xor_with),
            output: to_hex(output),
            counter: to_hex(counter),
        }
    }
}

/// Whether `after` is `before` followed by records that show `added`, in order.
pub open spec fn appends_records(
    before: Seq<BlockTrace>,
    after: Seq<BlockTrace>,
    added: Seq<TraceModel>,
) -> bool {
    &&& after.len() == before.len() + added.len()
    &&& after.subrange(0, before.len() as int) == before
    &&& forall|i: int| 0 <= i < added.len() ==> #[trigger] after[before.len() + i].shows(added[i])
}

/// Pushing a record that shows the next model extends `appends_records` by one.
pub proof fn lemma_append_record(
    before: Seq<BlockTrace>,
    prev: Seq<BlockTrace>,
    rec: BlockTrace,
    models: Seq<TraceModel>,
    i: int,
)
    requires
        0 <= i < models.len(),
        appends_records(before, prev, models.take(i)),
        rec.shows(models[i]),
    ensures
        appends_records(before, prev.push(rec), models.take(i + 1)),
{
    let after = prev.push(rec);
    assert(after.subrange(0, before.len() as int) =~= prev.subrange(0, before.len() as int));
    assert forall|k: int| 0 <= k < i + 1 implies #[trigger] after[before.len() + k].shows(
        models.take(i + 1)[k],
    ) by {
        if k < i {
            assert(models.take(i)[k] == models.take(i + 1)[k]);
            assert(after[before.len() + k] == prev[before.len() + k]);
        }
    }
}

/// Whether record `b` is record `a` with its output replaced by `out`.
pub open spec fn output_replaced(a: BlockTrace, b: BlockTrace, out: Seq<u8>) -> bool {
    &&& b.index == a.index
    &&& b.input == a.input
    &&& b.aes_in == a.aes_in
    &&& b.aes_out == a.aes_out
    &&& b.xor_with == a.xor_with
    &&& b.counter == a.counter
    &&& b.output@ == hex_lower(out)
}

/// The models with the output of the last one replaced by `out`.
pub open spec fn with_last_output(models: Seq<TraceModel>, out: Seq<u8>) -> Seq<TraceModel> {
    let m = models.last();
    models.update(
        models.len() - 1,
        TraceModel {
            index: m.index,
            input: m.input,
            aes_in: m.aes_in,
            aes_out: m.aes_out,
            xor_with: m.xor_with,
            output: out,
            counter: m.counter,
        },
    )
}

/// Replacing the output of the last appended record keeps `appends_records`
/// for the models with that output replaced.
pub proof fn lemma_replace_last_output(
    before: Seq<BlockTrace>,
    prev: Seq<BlockTrace>,
    after: Seq<BlockTrace>,
    models: Seq<TraceModel>,
    out: Seq<u8>,
)
    requires
        appends_records(before, prev, models),
        models.len() > 0,
        after.len() == prev.len(),
        after.drop_last() == prev.drop_last(),
        output_replaced(prev.last(), after.last(), out),
    ensures
        appends_records(before, after, with_last_output(models, out)),
{
    let new_models = with_last_output(models, out);
    let last: int = prev.len() - 1;
    assert(prev.len() == before.len() + models.len());
    assert forall|k: int| 0 <= k < last implies after[k] == prev[k] by {
        assert(after.drop_last()[k] == after[k]);
        assert(prev.drop_last()[k] == prev[k]);
        assert(after.drop_last()[k] == prev.drop_last()[k]);
    }
    assert(after.subrange(0, before.len() as int) =~= prev.subrange(0, before.len() as int));
    assert forall|i: int| 0 <= i < new_models.len() implies #[trigger] after[before.len()
        + i].shows(new_models[i]) by {
        assert(prev[before.len() + i].shows(models[i]));
        if i < models.len() - 1 {
            assert(after[before.len() + i] == prev[before.len() + i]);
        } else {
            assert(before.len() + i == last);
            assert(after[last] == after.last());
            assert(prev[last] == prev.last());
        }
    }
}

/// The records kept for display: all of them when there are at most
/// `MAX_TRACE`, else the first `MAX_TRACE - 2` and the last 2.
pub open spec fn packed<T>(full: Seq<T>) -> Seq<T> {
    if full.len() <= 12 {
        full
    } else {
        full.take(10) + full.subrange(full.len() - 2, full.len() as int)
    }
}

/// Truncates a trace for display; the flag tells whether anything was dropped.
pub fn pack_trace<T>(full: Vec<T>) -> (res: (Vec<T>, bool))
    ensures
        res.0@ == packed(full@),
        res.1 == (full@.len() > 12),
{
    if full.len() <= MAX_TRACE {
        return (full, false);
    }
    let mut out = full;
    let n: usize = out.len();
    let mut tail = out.split_off(n - 2);
    out.truncate(MAX_TRACE - 2);
    out.append(&mut tail);
    assert(out@ =~= packed(full@));
    (out, true)
}

} // verus!
