//! Least-significant-bit steganography in 24-bit BMP images: a message,
//! prefixed by its length as a 32-bit big-endian number, is written one bit
//! per pixel byte, most significant bit first, skipping row padding.

use crate::text::{decimal, to_decimal};
use vstd::arithmetic::div_mod::{
    lemma_div_is_ordered, lemma_fundamental_div_mod, lemma_fundamental_div_mod_converse,
};
use vstd::arithmetic::mul::{lemma_mul_inequality, lemma_mul_is_commutative};
use vstd::prelude::*;
use vstd::slice::slice_to_vec;
use vstd::string::*;

verus! {

// ---- header ----------------------------------------------------------------

/// What the BMP header gives the encoder: where pixel data starts and the
/// image size in pixels.
pub struct BmpInfo {
    pub pixel_offset: usize,
    pub width: u32,
    pub height: u32,
}

/// Little-endian 16-bit number at offset `o`.
pub open spec fn le_u16(d: Seq<u8>, o: int) -> int {
    d[o] + 256 * d[o + 1]
}

/// Little-endian 32-bit number at offset `o`.
pub open spec fn le_u32(d: Seq<u8>, o: int) -> int {
    d[o] + 256 * d[o + 1] + 65536 * d[o + 2] + 16777216 * d[o + 3]
}

/// Magnitude of the signed 32-bit number whose two's-complement bits are `v`.
pub open spec fn abs_i32_bits(v: int) -> int {
    if v < 0x8000_0000 {
        v
    } else {
        0x1_0000_0000 - v
    }
}

/// Error text for input shorter than a BMP header.
pub open spec fn msg_too_small() -> Seq<char> {
    "File too small to be a valid BMP"@
}

/// Error text for input without the `BM` signature.
pub open spec fn msg_not_bmp() -> Seq<char> {
    "Not a BMP file (missing BM signature)"@
}

/// Error text for a BMP that is not 24 bits per pixel.
pub open spec fn msg_bad_depth(bpp: nat) -> Seq<char> {
    "Only 24-bit BMP supported, got "@ + decimal(bpp) + "-bit"@
}

/// Error text for a pixel data offset beyond the end of the file.
pub open spec fn msg_bad_offset() -> Seq<char> {
    "Invalid pixel data offset"@
}

/// The header of a 24-bit BMP: pixel data offset (bytes 10..14), width
/// (18..22) and the magnitude of the signed height (22..26), once the size,
/// `BM` signature, bit depth (28..30) and offset have been checked.
pub open spec fn bmp_header(d: Seq<u8>) -> Result<(nat, nat, nat), Seq<char>> {
    if d.len() < 54 {
        Err(msg_too_small())
    } else if d[0] != 66 || d[1] != 77 {
        Err(msg_not_bmp())
    } else if le_u16(d, 28) != 24 {
        Err(msg_bad_depth(le_u16(d, 28) as nat))
    } else if le_u32(d, 10) >= d.len() {
        Err(msg_bad_offset())
    } else {
        Ok((le_u32(d, 10) as nat, le_u32(d, 18) as nat, abs_i32_bits(le_u32(d, 22)) as nat))
    }
}

/// Reads and checks the BMP header.
pub fn parse_bmp(data: &[u8]) -> (res: Result<BmpInfo, String>)
    ensures
        match (res, bmp_header(data@)) {
            (Ok(info), Ok((off, w, h))) => info.pixel_offset == off && info.width == w
                && info.height == h,
            (Err(e), Err(se)) => e@ == se,
            _ => false,
        },
{
    if data.len() < 54 {
        return Err(String::from_str("File too small to be a valid BMP"));
    }
    if data[0] != 66 || data[1] != 77 {
        return Err(String::from_str("Not a BMP file (missing BM signature)"));
    }
    let offset: u32 = data[10] as u32 + 256 * (data[11] as u32) + 65536 * (data[12] as u32)
        + 16777216 * (data[13] as u32);
    let width: u32 = data[18] as u32 + 256 * (data[19] as u32) + 65536 * (data[20] as u32)
        + 16777216 * (data[21] as u32);
    let height_raw: u32 = data[22] as u32 + 256 * (data[23] as u32) + 65536 * (data[24] as u32)
        + 16777216 * (data[25] as u32);
    let height: u32 = if height_raw < 0x8000_0000 {
        height_raw
    } else {
        (0x1_0000_0000u64 - height_raw as u64) as u32
    };
    let bpp: u16 = data[28] as u16 + 256 * (data[29] as u16);
    if bpp != 24 {
        let s = String::from_str("Only 24-bit BMP supported, got ");
        let s = s.concat(to_decimal(bpp as usize).as_str());
        return Err(s.concat("-bit"));
    }
    let pixel_offset: usize = offset as usize;
    if pixel_offset >= data.len() {
        return Err(String::from_str("Invalid pixel data offset"));
    }
    Ok(BmpInfo { pixel_offset, width, height })
}

// ---- usable bytes ------------------------------------------------------------

/// Bytes of pixel data in one row: three per pixel.
pub open spec fn row_bytes(w: nat) -> nat {
    3 * w
}

/// Bytes one row takes in the file: its pixel data rounded up to a multiple
/// of four.
pub open spec fn stride_bytes(w: nat) -> nat {
    ((3 * w + 3) / 4) * 4
}

/// Number of pixel bytes, padding excluded.
pub open spec fn usable_count(w: nat, h: nat) -> nat {
    row_bytes(w) * h
}

/// File position of the `k`-th pixel byte, row after row, padding skipped.
pub open spec fn usable_index(off: nat, w: nat, k: int) -> int {
    off + (k / row_bytes(w) as int) * stride_bytes(w) + k % row_bytes(w) as int
}

/// The file positions of all pixel bytes, in order.
pub open spec fn usable_indices(off: nat, w: nat, h: nat) -> Seq<usize> {
    Seq::new(usable_count(w, h), |k: int| usable_index(off, w, k) as usize)
}

/// Whether building the table of pixel byte positions stays within `usize`.
pub open spec fn indices_fit(off: nat, w: nat, h: nat) -> bool {
    &&& 3 * w + 3 <= usize::MAX
    &&& usable_count(w, h) <= usize::MAX
    &&& h == 0 || off + (h - 1) * stride_bytes(w) + row_bytes(w) <= usize::MAX + 1
}

/// A row's stride covers its pixel data.
proof fn lemma_stride_covers_row(w: nat)
    ensures
        row_bytes(w) <= stride_bytes(w) <= row_bytes(w) + 3,
        stride_bytes(w) % 4 == 0,
{
}

/// Pixel byte `k` sits in row `k / row_data` at column `k % row_data`.
proof fn lemma_index_of_row_col(off: nat, w: nat, r: int, c: int)
    requires
        w > 0,
        r >= 0,
        0 <= c < row_bytes(w),
    ensures
        usable_index(off, w, r * row_bytes(w) + c) == off + r * stride_bytes(w) + c,
{
    let rd: int = row_bytes(w) as int;
    lemma_fundamental_div_mod_converse(r * rd + c, rd, r, c);
}

/// Positions of pixel bytes lie at or after the start of pixel data.
proof fn lemma_usable_index_nonneg(off: nat, w: nat, k: int)
    requires
        w > 0,
        k >= 0,
    ensures
        usable_index(off, w, k) >= off,
{
    let rd: int = row_bytes(w) as int;
    let q: int = k / rd;
    assert(q >= 0);
    assert(q * (stride_bytes(w) as int) >= 0) by (nonlinear_arith)
        requires
            q >= 0,
    ;
}

/// An image with room for at least one pixel byte has positive width.
proof fn lemma_count_positive_width(w: nat, h: nat)
    requires
        usable_count(w, h) > 0,
    ensures
        w > 0,
{
    if w == 0 {
        assert(row_bytes(w) * h == 0) by (nonlinear_arith)
            requires
                row_bytes(w) == 0,
        ;
    }
}

/// The file positions of the pixel bytes of a `width` x `height` image whose
/// pixel data starts at `pixel_offset`, in order.
pub fn usable_byte_indices(pixel_offset: usize, width: u32, height: u32) -> (v: Vec<usize>)
    requires
        indices_fit(pixel_offset as nat, width as nat, height as nat),
    ensures
        v@ == usable_indices(pixel_offset as nat, width as nat, height as nat),
{
    let ghost off = pixel_offset as nat;
    let ghost w = width as nat;
    let ghost h = height as nat;
    let row_data: usize = width as usize * 3;
    let padded_row: usize = row_data + 3;
    let row_stride: usize = padded_row & !3usize;
    proof {
        assert((padded_row & !3usize) == padded_row / 4 * 4) by (bit_vector);
    }
    let mut indices: Vec<usize> = Vec::with_capacity(row_data * height as usize);
    proof {
        lemma_stride_covers_row(w);
    }
    let mut row: usize = 0;
    while row < height as usize
        invariant
            off == pixel_offset,
            w == width,
            h == height,
            indices_fit(off, w, h),
            row_data == row_bytes(w),
            row_stride == stride_bytes(w),
            row_data <= row_stride,
            row <= h,
            indices@.len() == row * row_data,
            forall|k: int|
                0 <= k < indices@.len() ==> #[trigger] indices@[k] == usable_index(off, w, k),
        decreases h - row,
    {
        proof {
            lemma_mul_inequality(row as int, h - 1, row_stride as int);
            if row_data == 0 {
                assert(row_stride == 0);
                assert(row * row_stride == 0) by (nonlinear_arith)
                    requires
                        row_stride == 0,
                ;
            }
            assert(pixel_offset + row * row_stride <= usize::MAX);
        }
        let row_start: usize = pixel_offset + row * row_stride;
        let mut col: usize = 0;
        while col < row_data
            invariant
                off == pixel_offset,
                w == width,
                h == height,
                indices_fit(off, w, h),
                row_data == row_bytes(w),
                row_stride == stride_bytes(w),
                row < h,
                row_start == off + row * row_stride,
                row * row_stride <= (h - 1) * row_stride,
                col <= row_data,
                indices@.len() == row * row_data + col,
                forall|k: int|
                    0 <= k < indices@.len() ==> #[trigger] indices@[k] == usable_index(off, w, k),
            decreases row_data - col,
        {
            proof {
                lemma_index_of_row_col(off, w, row as int, col as int);
            }
            indices.push(row_start + col);
            col += 1;
        }
        proof {
            assert((row + 1) * row_data == row * row_data + row_data) by (nonlinear_arith);
        }
        row += 1;
    }
    assert(h * row_data == row_bytes(w) * h) by (nonlinear_arith)
        requires
            row_data == row_bytes(w),
    ;
    assert(indices@ =~= usable_indices(off, w, h));
    indices
}

// ---- encoding ------------------------------------------------------------------

/// A 32-bit number as four big-endian bytes.
pub open spec fn be32(n: u32) -> Seq<u8> {
    seq![(n >> 24u32) as u8, (n >> 16u32) as u8, (n >> 8u32) as u8, n as u8]
}

/// What gets hidden: the message length as 32-bit big-endian (the low 32
/// bits of it), then the message.
pub open spec fn hidden_payload(msg: Seq<u8>) -> Seq<u8> {
    be32(msg.len() as u32) + msg
}

/// Bit `k` of a byte string, counting from the most significant bit of the
/// first byte; 0 or 1.
pub open spec fn payload_bit(p: Seq<u8>, k: int) -> u8 {
    (p[k / 8] >> ((7 - k % 8) as u8)) & 1u8
}

/// `d` after writing the first `n` bits of `p` into the least significant
/// bits of the bytes at positions `idx[0]`, ..., `idx[n - 1]`.
pub open spec fn embed(d: Seq<u8>, idx: Seq<usize>, p: Seq<u8>, n: nat) -> Seq<u8>
    decreases n,
{
    if n == 0 {
        d
    } else {
        let e = embed(d, idx, p, (n - 1) as nat);
        let i: int = idx[n - 1] as int;
        e.update(i, (e[i] & 0xfeu8) | payload_bit(p, n - 1))
    }
}

/// Whether the pixel data of `d` starts after the header fields that
/// `bmp_header` reads (offset 30 or more), so that hiding cannot alter them.
pub open spec fn pixels_after_header(d: Seq<u8>) -> bool {
    bmp_header(d) matches Ok((off, w, h)) && off >= 30
}

/// Number of bits that hiding a message of `len` bytes takes.
pub open spec fn bits_needed(len: nat) -> nat {
    (4 + len) * 8
}

/// Longest message that fits in `count` pixel bytes (0 if not even the
/// length fits).
pub open spec fn bytes_available(count: nat) -> nat {
    if count / 8 >= 4 {
        (count / 8 - 4) as nat
    } else {
        0
    }
}

/// Error text for a message that does not fit.
pub open spec fn msg_too_large(len: nat, available: nat) -> Seq<char> {
    "Message too large: need "@ + decimal(len) + " bytes but only "@ + decimal(available)
        + " available"@
}

/// What hiding `msg` in the BMP file `d` gives.
pub open spec fn encode_spec(d: Seq<u8>, msg: Seq<u8>) -> Result<Seq<u8>, Seq<char>> {
    match bmp_header(d) {
        Err(e) => Err(e),
        Ok((off, w, h)) => if bits_needed(msg.len()) > usable_count(w, h) {
            Err(msg_too_large(msg.len(), bytes_available(usable_count(w, h))))
        } else {
            Ok(embed(d, usable_indices(off, w, h), hidden_payload(msg), bits_needed(msg.len())))
        },
    }
}

/// Whether hiding a message of `msg_len` bytes in `d` stays within `usize`
/// and within the file: the position table fits, the bit count fits, and
/// every pixel byte the message needs lies inside the file.
pub open spec fn encode_in_bounds(d: Seq<u8>, msg_len: nat) -> bool {
    match bmp_header(d) {
        Err(_) => true,
        Ok((off, w, h)) => {
            &&& indices_fit(off, w, h)
            &&& bits_needed(msg_len) <= usize::MAX
            &&& bits_needed(msg_len) <= usable_count(w, h) ==> forall|k: int|
                0 <= k < bits_needed(msg_len) ==> usable_index(off, w, k) < d.len()
        },
    }
}

/// Hides `message` in the pixel bytes of the 24-bit BMP `bmp_data`.
pub fn encode(bmp_data: &[u8], message: &[u8]) -> (res: Result<Vec<u8>, String>)
    requires
        encode_in_bounds(bmp_data@, message@.len()),
    ensures
        match (res, encode_spec(bmp_data@, message@)) {
            (Ok(v), Ok(sv)) => v@ == sv,
            (Err(e), Err(se)) => e@ == se,
            _ => false,
        },
        res matches Ok(out) ==> out@.len() == bmp_data@.len() && forall|j: int|
            0 <= j < out@.len() ==> #[trigger] out@[j] & 0xfeu8 == bmp_data@[j] & 0xfeu8,
        res matches Ok(out) ==> forall|j: int|
            0 <= j < bmp_data@.len() && #[trigger] out@[j] != bmp_data@[j] ==> is_pixel_byte(
                bmp_header(bmp_data@)->Ok_0.0,
                bmp_header(bmp_data@)->Ok_0.1,
                bmp_header(bmp_data@)->Ok_0.2,
                j,
            ),
        res matches Ok(out) ==> (pixels_after_header(bmp_data@) ==> encode_in_bounds(
            out@,
            message@.len(),
        ) && encode_spec(out@, message@) == Ok::<Seq<u8>, Seq<char>>(out@)),
        res matches Ok(out) ==> (pixels_after_header(bmp_data@) && message@.len() <= u32::MAX
            ==> decode_in_bounds(out@) && decode_spec(out@) == Ok::<Seq<u8>, Seq<char>>(
            message@,
        )),
{
    let info = match parse_bmp(bmp_data) {
        Ok(i) => i,
        Err(e) => return Err(e),
    };
    let ghost off = info.pixel_offset as nat;
    let ghost w = info.width as nat;
    let ghost h = info.height as nat;
    let indices = usable_byte_indices(info.pixel_offset, info.width, info.height);
    let total_bits: usize = (4 + message.len()) * 8;
    if total_bits > indices.len() {
        let available: usize = indices.len() / 8;
        let available: usize = if available >= 4 { available - 4 } else { 0 };
        let s = String::from_str("Message too large: need ");
        let s = s.concat(to_decimal(message.len()).as_str());
        let s = s.concat(" bytes but only ");
        let s = s.concat(to_decimal(available).as_str());
        return Err(s.concat(" available"));
    }
    let n: u32 = #[verifier::truncate] (message.len() as u32);
    let mut payload: Vec<u8> = Vec::with_capacity(4 + message.len());
    payload.push(#[verifier::truncate] ((n >> 24u32) as u8));
    payload.push(#[verifier::truncate] ((n >> 16u32) as u8));
    payload.push(#[verifier::truncate] ((n >> 8u32) as u8));
    payload.push(#[verifier::truncate] (n as u8));
    payload.extend_from_slice(message);
    assert(payload@ =~= hidden_payload(message@));
    let ghost p = payload@;
    let ghost idx = indices@;
    let mut data: Vec<u8> = slice_to_vec(bmp_data);
    let blen: usize = bmp_data.len();
    let mut bit_idx: usize = 0;
    let mut m: usize = 0;
    while m < payload.len()
        invariant
            p == payload@,
            idx == indices@,
            idx == usable_indices(off, w, h),
            p.len() == 4 + message@.len(),
            total_bits == p.len() * 8,
            total_bits <= idx.len(),
            forall|k: int| 0 <= k < total_bits ==> #[trigger] usable_index(off, w, k) < bmp_data@.len(),
            m <= p.len(),
            blen == bmp_data@.len(),
            bit_idx == 8 * m,
            data@ == embed(bmp_data@, idx, p, bit_idx as nat),
        decreases p.len() - m,
    {
        let byte: u8 = payload[m];
        let mut bit_pos: u8 = 8;
        while bit_pos > 0
            invariant
                p == payload@,
                idx == indices@,
                idx == usable_indices(off, w, h),
                total_bits == p.len() * 8,
                total_bits <= idx.len(),
                forall|k: int|
                    0 <= k < total_bits ==> #[trigger] usable_index(off, w, k) < bmp_data@.len(),
                m < p.len(),
                blen == bmp_data@.len(),
                byte == p[m as int],
                bit_pos <= 8,
                bit_idx == 8 * m + (8 - bit_pos),
                data@ == embed(bmp_data@, idx, p, bit_idx as nat),
            decreases bit_pos,
        {
            bit_pos -= 1;
            let bit: u8 = (byte >> bit_pos) & 1;
            let i: usize = indices[bit_idx];
            proof {
                lemma_count_positive_width(w, h);
                lemma_usable_index_nonneg(off, w, bit_idx as int);
                assert(usable_index(off, w, bit_idx as int) < bmp_data@.len());
                assert(bit_idx < usable_count(w, h));
                assert(idx[bit_idx as int] == usable_index(off, w, bit_idx as int) as usize);
                assert(idx[bit_idx as int] == usable_index(off, w, bit_idx as int));
                assert(bit_idx as int / 8 == m);
                assert(7 - bit_idx as int % 8 == bit_pos);
                assert forall|k: int| 0 <= k < bit_idx implies idx[k] < bmp_data@.len() by {
                    lemma_usable_index_nonneg(off, w, k);
                    assert(usable_index(off, w, k) < bmp_data@.len());
                    assert(idx[k] == usable_index(off, w, k));
                }
                lemma_embed_len(bmp_data@, idx, p, bit_idx as nat);
            }
            let v: u8 = (data[i] & 0xfe) | bit;
            data.set(i, v);
            bit_idx += 1;
        }
        m += 1;
    }
    proof {
        lemma_encode_changes_only_lsbs(bmp_data@, message@);
        lemma_encode_touches_only_pixels(bmp_data@, message@);
        if pixels_after_header(bmp_data@) {
            lemma_encode_idempotent(bmp_data@, message@);
            if message@.len() <= u32::MAX {
                lemma_stego_round_trip(bmp_data@, message@);
            }
        }
    }
    Ok(data)
}

/// Embedding bits does not change the length.
pub proof fn lemma_embed_len(d: Seq<u8>, idx: Seq<usize>, p: Seq<u8>, n: nat)
    requires
        forall|k: int| 0 <= k < n ==> idx[k] < d.len(),
    ensures
        embed(d, idx, p, n).len() == d.len(),
    decreases n,
{
    if n > 0 {
        lemma_embed_len(d, idx, p, (n - 1) as nat);
    }
}

// ---- decoding ------------------------------------------------------------------

/// The least significant bit of the byte at position `idx[k]`.
pub open spec fn read_bit(d: Seq<u8>, idx: Seq<usize>, k: int) -> u8 {
    d[idx[k] as int] & 1u8
}

/// The byte whose top `t` bits are the bits read at `start`, ..., `start + t - 1`
/// (most significant first) and whose other bits are 0.
pub open spec fn read_prefix(d: Seq<u8>, idx: Seq<usize>, start: int, t: nat) -> u8
    decreases t,
{
    if t == 0 {
        0u8
    } else {
        read_prefix(d, idx, start, (t - 1) as nat) | (read_bit(d, idx, start + t - 1) << ((8
            - t) as u8))
    }
}

/// The byte read from the eight bits at `start`, ..., `start + 7`.
pub open spec fn read_byte_at(d: Seq<u8>, idx: Seq<usize>, start: int) -> u8 {
    read_prefix(d, idx, start, 8)
}

/// The 32-bit number with big-endian bytes `b0`, `b1`, `b2`, `b3`.
pub open spec fn be32_value(b0: u8, b1: u8, b2: u8, b3: u8) -> u32 {
    ((b0 as u32) << 24u32) | ((b1 as u32) << 16u32) | ((b2 as u32) << 8u32) | (b3 as u32)
}

/// The message length hidden in the first 32 bits.
pub open spec fn hidden_len(d: Seq<u8>, idx: Seq<usize>) -> u32 {
    be32_value(
        read_byte_at(d, idx, 0),
        read_byte_at(d, idx, 8),
        read_byte_at(d, idx, 16),
        read_byte_at(d, idx, 24),
    )
}

/// Error text for an image with fewer than 32 pixel bytes.
pub open spec fn msg_no_room() -> Seq<char> {
    "Image too small to contain a hidden message"@
}

/// Error text for a hidden length the image cannot hold.
pub open spec fn msg_len_exceeds(len: nat) -> Seq<char> {
    "Encoded length ("@ + decimal(len) + " bytes) exceeds image capacity"@
}

/// What extracting a hidden message from the BMP file `d` gives.
pub open spec fn decode_spec(d: Seq<u8>) -> Result<Seq<u8>, Seq<char>> {
    match bmp_header(d) {
        Err(e) => Err(e),
        Ok((off, w, h)) => {
            let idx = usable_indices(off, w, h);
            if idx.len() < 32 {
                Err(msg_no_room())
            } else {
                let len: nat = hidden_len(d, idx) as nat;
                if bits_needed(len) > idx.len() {
                    Err(msg_len_exceeds(len))
                } else {
                    Ok(Seq::new(len, |m: int| read_byte_at(d, idx, 8 * (4 + m))))
                }
            }
        },
    }
}

/// Whether extracting from `d` stays within `usize` and within the file: the
/// position table fits, the pixel bytes of the length lie inside the file,
/// and so do those of the message when the image can hold it.
pub open spec fn decode_in_bounds(d: Seq<u8>) -> bool {
    match bmp_header(d) {
        Err(_) => true,
        Ok((off, w, h)) => {
            let idx = usable_indices(off, w, h);
            let len: nat = hidden_len(d, idx) as nat;
            &&& indices_fit(off, w, h)
            &&& usable_count(w, h) >= 32 ==> {
                &&& forall|k: int| 0 <= k < 32 ==> usable_index(off, w, k) < d.len()
                &&& bits_needed(len) <= usize::MAX
                &&& bits_needed(len) <= usable_count(w, h) ==> forall|k: int|
                    0 <= k < bits_needed(len) ==> usable_index(off, w, k) < d.len()
            }
        },
    }
}

/// The first `n` table entries are the pixel byte positions, inside the file.
proof fn lemma_table_in_file(off: nat, w: nat, h: nat, idx: Seq<usize>, d: Seq<u8>, n: int)
    requires
        idx == usable_indices(off, w, h),
        indices_fit(off, w, h),
        0 < n <= idx.len(),
        forall|k: int| 0 <= k < n ==> usable_index(off, w, k) < d.len(),
    ensures
        forall|k: int|
            0 <= k < n ==> #[trigger] idx[k] == usable_index(off, w, k) && idx[k] < d.len(),
{
    lemma_count_positive_width(w, h);
    assert forall|k: int| 0 <= k < n implies #[trigger] idx[k] == usable_index(off, w, k)
        && idx[k] < d.len() by {
        lemma_usable_index_nonneg(off, w, k);
        lemma_usable_index_fits(off, w, h, k);
        assert(usable_index(off, w, k) < d.len());
    }
}

/// Every pixel byte position fits in `usize` when the table does.
proof fn lemma_usable_index_fits(off: nat, w: nat, h: nat, k: int)
    requires
        indices_fit(off, w, h),
        0 <= k < usable_count(w, h),
    ensures
        usable_index(off, w, k) <= usize::MAX,
{
    lemma_count_positive_width(w, h);
    let rd: int = row_bytes(w) as int;
    let st: int = stride_bytes(w) as int;
    let q: int = k / rd;
    let r: int = k % rd;
    assert(k == q * rd + r) by {
        lemma_fundamental_div_mod(k, rd);
        lemma_mul_is_commutative(rd, q);
    }
    assert(q < h) by {
        if q >= h {
            lemma_mul_inequality(h as int, q, rd);
            lemma_mul_is_commutative(rd, h as int);
        }
    }
    lemma_mul_inequality(q, h - 1, st);
}

/// Reads one byte from the least significant bits of the eight pixel bytes at
/// table entries `start`, ..., `start + 7`, most significant bit first.
fn read_byte(data: &[u8], indices: &Vec<usize>, start: usize) -> (b: u8)
    requires
        start + 8 <= indices@.len(),
        forall|k: int| start <= k < start + 8 ==> #[trigger] indices@[k] < data@.len(),
    ensures
        b == read_byte_at(data@, indices@, start as int),
{
    let mut b: u8 = 0;
    let mut bit_pos: u8 = 8;
    let ilen: usize = indices.len();
    while bit_pos > 0
        invariant
            ilen == indices@.len(),
            start + 8 <= indices@.len(),
            forall|k: int| start <= k < start + 8 ==> #[trigger] indices@[k] < data@.len(),
            bit_pos <= 8,
            b == read_prefix(data@, indices@, start as int, (8 - bit_pos) as nat),
        decreases bit_pos,
    {
        bit_pos -= 1;
        let bit_idx: usize = start + (7 - bit_pos as usize);
        let bit: u8 = data[indices[bit_idx]] & 1;
        b = b | (bit << bit_pos);
    }
    b
}

/// Extracts the message hidden by `encode` from the 24-bit BMP `bmp_data`.
pub fn decode(bmp_data: &[u8]) -> (res: Result<Vec<u8>, String>)
    requires
        decode_in_bounds(bmp_data@),
    ensures
        match (res, decode_spec(bmp_data@)) {
            (Ok(v), Ok(sv)) => v@ == sv,
            (Err(e), Err(se)) => e@ == se,
            _ => false,
        },
{
    let info = match parse_bmp(bmp_data) {
        Ok(i) => i,
        Err(e) => return Err(e),
    };
    let ghost off = info.pixel_offset as nat;
    let ghost w = info.width as nat;
    let ghost h = info.height as nat;
    let indices = usable_byte_indices(info.pixel_offset, info.width, info.height);
    let ghost idx = indices@;
    let blen: usize = bmp_data.len();
    if indices.len() < 32 {
        return Err(String::from_str("Image too small to contain a hidden message"));
    }
    proof {
        lemma_table_in_file(off, w, h, idx, bmp_data@, 32);
    }
    let mut len_bytes: [u8; 4] = [0u8; 4];
    let mut byte_idx: usize = 0;
    while byte_idx < 4
        invariant
            idx == indices@,
            idx.len() >= 32,
            forall|k: int| 0 <= k < 32 ==> #[trigger] idx[k] < bmp_data@.len(),
            byte_idx <= 4,
            len_bytes@.len() == 4,
            forall|j: int| 0 <= j < byte_idx ==> len_bytes@[j] == read_byte_at(bmp_data@, idx, 8 * j),
        decreases 4 - byte_idx,
    {
        len_bytes[byte_idx] = read_byte(bmp_data, &indices, byte_idx * 8);
        byte_idx += 1;
    }
    let len32: u32 = ((len_bytes[0] as u32) << 24u32) | ((len_bytes[1] as u32) << 16u32) | ((
    len_bytes[2] as u32) << 8u32) | (len_bytes[3] as u32);
    assert(len32 == hidden_len(bmp_data@, idx));
    let msg_len: usize = len32 as usize;
    let total_bits: usize = (4 + msg_len) * 8;
    if total_bits > indices.len() {
        let s = String::from_str("Encoded length (");
        let s = s.concat(to_decimal(msg_len).as_str());
        return Err(s.concat(" bytes) exceeds image capacity"));
    }
    proof {
        lemma_table_in_file(off, w, h, idx, bmp_data@, total_bits as int);
    }
    let mut message: Vec<u8> = Vec::with_capacity(msg_len);
    let mut m: usize = 0;
    while m < msg_len
        invariant
            idx == indices@,
            total_bits == (4 + msg_len) * 8,
            total_bits <= idx.len(),
            forall|k: int| 0 <= k < total_bits ==> #[trigger] idx[k] < bmp_data@.len(),
            m <= msg_len,
            message@.len() == m,
            forall|j: int|
                0 <= j < m ==> message@[j] == read_byte_at(bmp_data@, idx, 8 * (4 + j)),
        decreases msg_len - m,
    {
        let b: u8 = read_byte(bmp_data, &indices, (4 + m) * 8);
        message.push(b);
        m += 1;
    }
    assert(message@ =~= Seq::new(
        msg_len as nat,
        |j: int| read_byte_at(bmp_data@, idx, 8 * (4 + j)),
    ));
    Ok(message)
}

// ---- capacity ------------------------------------------------------------------

/// How many message bytes `d` can hold.
pub open spec fn capacity_spec(d: Seq<u8>) -> Result<u32, Seq<char>> {
    match bmp_header(d) {
        Err(e) => Err(e),
        Ok((off, w, h)) => {
            let total: nat = usable_count(w, h) / 8;
            if total < 4 {
                Ok(0u32)
            } else {
                Ok((total - 4) as u32)
            }
        },
    }
}

/// Whether `c` is the longest message that hiding in `d` accepts, and the
/// figure that the "too large" error reports: hiding succeeds exactly when
/// the image holds the 32 length bits and the message is at most `c` bytes.
/// (The capacity is reported in 32 bits; this is claimed whenever it fits.)
pub open spec fn capacity_decides_encode(d: Seq<u8>, c: u32) -> bool {
    bmp_header(d) matches Ok((off, w, h)) && (bytes_available(usable_count(w, h)) <= u32::MAX ==> {
        &&& c == bytes_available(usable_count(w, h))
        &&& forall|msg: Seq<u8>|
            #[trigger] encode_spec(d, msg) is Ok <==> (usable_count(w, h) / 8 >= 4 && msg.len() <= c)
    })
}

/// Whether the pixel byte count of `d` fits in `usize`.
pub open spec fn capacity_in_bounds(d: Seq<u8>) -> bool {
    match bmp_header(d) {
        Err(_) => true,
        Ok((off, w, h)) => 3 * w <= usize::MAX && usable_count(w, h) <= usize::MAX,
    }
}

/// Longest message, in bytes, that `encode` can hide in `bmp_data` (the low
/// 32 bits of it).
pub fn capacity(bmp_data: &[u8]) -> (res: Result<u32, String>)
    requires
        capacity_in_bounds(bmp_data@),
    ensures
        match (res, capacity_spec(bmp_data@)) {
            (Ok(c), Ok(sc)) => c == sc,
            (Err(e), Err(se)) => e@ == se,
            _ => false,
        },
        res matches Ok(c) ==> capacity_decides_encode(bmp_data@, c),
{
    let info = match parse_bmp(bmp_data) {
        Ok(i) => i,
        Err(e) => return Err(e),
    };
    proof {
        assert(info.width * 3 * info.height == usable_count(info.width as nat, info.height as nat))
            by (nonlinear_arith);
    }
    let total_usable: usize = (info.width as usize * 3 * info.height as usize) / 8;
    let c: u32 = if total_usable < 4 {
        0
    } else {
        #[verifier::truncate] ((total_usable - 4) as u32)
    };
    proof {
        let (off, w, h) = bmp_header(bmp_data@)->Ok_0;
        if bytes_available(usable_count(w, h)) <= u32::MAX {
            assert forall|msg: Seq<u8>| #[trigger] encode_spec(bmp_data@, msg) is Ok <==> (
            usable_count(w, h) / 8 >= 4 && msg.len() <= c) by {
                lemma_capacity_bounds_encode(bmp_data@, msg);
            }
        }
    }
    Ok(c)
}

// ---- laws --------------------------------------------------------------------

/// Pixel byte positions strictly increase along the table.
proof fn lemma_usable_index_increasing(off: nat, w: nat, k1: int, k2: int)
    requires
        w > 0,
        0 <= k1 < k2,
    ensures
        usable_index(off, w, k1) < usable_index(off, w, k2),
{
    let rd: int = row_bytes(w) as int;
    let st: int = stride_bytes(w) as int;
    lemma_stride_covers_row(w);
    let q1: int = k1 / rd;
    let q2: int = k2 / rd;
    let r1: int = k1 % rd;
    let r2: int = k2 % rd;
    lemma_div_is_ordered(k1, k2, rd);
    assert(k1 == q1 * rd + r1 && k2 == q2 * rd + r2) by {
        lemma_fundamental_div_mod(k1, rd);
        lemma_fundamental_div_mod(k2, rd);
        lemma_mul_is_commutative(rd, q1);
        lemma_mul_is_commutative(rd, q2);
    }
    if q1 == q2 {
        assert(r1 < r2);
    } else {
        assert(q1 + 1 <= q2);
        lemma_mul_inequality(q1 + 1, q2, st);
        assert((q1 + 1) * st == q1 * st + st) by (nonlinear_arith);
        assert(q1 * st + r1 < q2 * st + r2);
    }
}

/// Embedding leaves alone every position that is not written.
proof fn lemma_embed_unchanged(d: Seq<u8>, idx: Seq<usize>, p: Seq<u8>, n: nat, pos: int)
    requires
        0 <= pos < d.len(),
        forall|k: int| 0 <= k < n ==> idx[k] < d.len(),
        forall|k: int| 0 <= k < n ==> idx[k] != pos,
    ensures
        embed(d, idx, p, n)[pos] == d[pos],
    decreases n,
{
    if n > 0 {
        lemma_embed_unchanged(d, idx, p, (n - 1) as nat, pos);
        lemma_embed_len(d, idx, p, (n - 1) as nat);
    }
}

/// After embedding `n` bits at distinct positions, the least significant bit
/// at the position of bit `k` is bit `k`.
proof fn lemma_embed_bits(d: Seq<u8>, idx: Seq<usize>, p: Seq<u8>, n: nat, k: int)
    requires
        0 <= k < n,
        forall|j: int| 0 <= j < n ==> idx[j] < d.len(),
        forall|i: int, j: int| 0 <= i < j < n ==> idx[i] != idx[j],
        forall|j: int| 0 <= j < n ==> payload_bit(p, j) <= 1,
    ensures
        embed(d, idx, p, n)[idx[k] as int] & 1u8 == payload_bit(p, k),
    decreases n,
{
    let e = embed(d, idx, p, (n - 1) as nat);
    lemma_embed_len(d, idx, p, (n - 1) as nat);
    let b: u8 = payload_bit(p, n - 1);
    let x: u8 = e[idx[n - 1] as int];
    if k == n - 1 {
        assert(((x & 0xfeu8) | b) & 1u8 == b) by (bit_vector)
            requires
                b <= 1u8,
        ;
    } else {
        lemma_embed_bits(d, idx, p, (n - 1) as nat, k);
        assert(idx[k] != idx[n - 1]);
    }
}

/// Every payload bit is 0 or 1.
proof fn lemma_payload_bit_is_bit(p: Seq<u8>, k: int)
    ensures
        payload_bit(p, k) <= 1,
{
    let b: u8 = p[k / 8];
    let s: u8 = (7 - k % 8) as u8;
    assert((b >> s) & 1u8 <= 1u8) by (bit_vector);
}

/// A byte is the OR of its bits, each shifted back to its place.
proof fn lemma_byte_from_bits(b: u8)
    ensures
        (((((((0u8 | (((b >> 7u8) & 1u8) << 7u8)) | (((b >> 6u8) & 1u8) << 6u8)) | (((b >> 5u8)
            & 1u8) << 5u8)) | (((b >> 4u8) & 1u8) << 4u8)) | (((b >> 3u8) & 1u8) << 3u8)) | (((b
            >> 2u8) & 1u8) << 2u8)) | (((b >> 1u8) & 1u8) << 1u8)) | (((b >> 0u8) & 1u8) << 0u8)
            == b,
{
    assert((((((((0u8 | (((b >> 7u8) & 1u8) << 7u8)) | (((b >> 6u8) & 1u8) << 6u8)) | (((b
        >> 5u8) & 1u8) << 5u8)) | (((b >> 4u8) & 1u8) << 4u8)) | (((b >> 3u8) & 1u8) << 3u8))
        | (((b >> 2u8) & 1u8) << 2u8)) | (((b >> 1u8) & 1u8) << 1u8)) | (((b >> 0u8) & 1u8)
        << 0u8) == b) by (bit_vector);
}

/// Reading the eight bits that hold payload byte `m` gives that byte.
proof fn lemma_read_back_byte(d: Seq<u8>, idx: Seq<usize>, p: Seq<u8>, m: int)
    requires
        0 <= m,
        forall|k: int| 8 * m <= k < 8 * m + 8 ==> read_bit(d, idx, k) == payload_bit(p, k),
    ensures
        read_byte_at(d, idx, 8 * m) == p[m],
{
    reveal_with_fuel(read_prefix, 9);
    let b: u8 = p[m];
    assert forall|q: int| 0 <= q < 8 implies #[trigger] read_bit(d, idx, 8 * m + q) == (b >> ((7
        - q) as u8)) & 1u8 by {
        assert((8 * m + q) / 8 == m);
        assert((8 * m + q) % 8 == q);
        assert(read_bit(d, idx, 8 * m + q) == payload_bit(p, 8 * m + q));
    }
    assert(read_bit(d, idx, 8 * m + 0) == (b >> 7u8) & 1u8);
    assert(read_bit(d, idx, 8 * m + 1) == (b >> 6u8) & 1u8);
    assert(read_bit(d, idx, 8 * m + 2) == (b >> 5u8) & 1u8);
    assert(read_bit(d, idx, 8 * m + 3) == (b >> 4u8) & 1u8);
    assert(read_bit(d, idx, 8 * m + 4) == (b >> 3u8) & 1u8);
    assert(read_bit(d, idx, 8 * m + 5) == (b >> 2u8) & 1u8);
    assert(read_bit(d, idx, 8 * m + 6) == (b >> 1u8) & 1u8);
    assert(read_bit(d, idx, 8 * m + 7) == (b >> 0u8) & 1u8);
    lemma_byte_from_bits(b);
}

/// The big-endian bytes of a 32-bit number read back as that number.
proof fn lemma_be32_round_trip(n: u32)
    ensures
        be32_value(be32(n)[0], be32(n)[1], be32(n)[2], be32(n)[3]) == n,
{
    assert((((((n >> 24u32) as u8) as u32) << 24u32) | ((((n >> 16u32) as u8) as u32) << 16u32)
        | ((((n >> 8u32) as u8) as u32) << 8u32) | ((n as u8) as u32)) == n) by (bit_vector);
}

/// The header of a file is decided by its length and its first 30 bytes.
proof fn lemma_header_from_prefix(d: Seq<u8>, e: Seq<u8>)
    requires
        d.len() == e.len(),
        forall|j: int| 0 <= j < 30 && j < d.len() ==> d[j] == e[j],
    ensures
        bmp_header(d) == bmp_header(e),
{
    if d.len() >= 54 {
        assert(d[0] == e[0] && d[1] == e[1]);
        assert(d[10] == e[10] && d[11] == e[11] && d[12] == e[12] && d[13] == e[13]);
        assert(d[18] == e[18] && d[19] == e[19] && d[20] == e[20] && d[21] == e[21]);
        assert(d[22] == e[22] && d[23] == e[23] && d[24] == e[24] && d[25] == e[25]);
        assert(d[28] == e[28] && d[29] == e[29]);
    }
}

/// Hiding with pixel data after the header keeps the header and puts every
/// payload bit in place.
proof fn lemma_bits_in_place(
    d: Seq<u8>,
    msg: Seq<u8>,
    off: nat,
    w: nat,
    h: nat,
    idx: Seq<usize>,
    e: Seq<u8>,
)
    requires
        encode_in_bounds(d, msg.len()),
        encode_spec(d, msg) == Ok::<Seq<u8>, Seq<char>>(e),
        bmp_header(d) == Ok::<(nat, nat, nat), Seq<char>>((off, w, h)),
        off >= 30,
        idx == usable_indices(off, w, h),
    ensures
        e.len() == d.len(),
        bmp_header(e) == bmp_header(d),
        forall|k: int|
            0 <= k < bits_needed(msg.len()) ==> #[trigger] read_bit(e, idx, k) == payload_bit(
                hidden_payload(msg),
                k,
            ),
{
    let p = hidden_payload(msg);
    let n: nat = bits_needed(msg.len());
    assert(e == embed(d, idx, p, n));
    lemma_count_positive_width(w, h);
    lemma_table_in_file(off, w, h, idx, d, n as int);
    lemma_embed_len(d, idx, p, n);
    // the header is untouched
    assert forall|j: int| 0 <= j < 30 && j < d.len() implies d[j] == e[j] by {
        assert forall|k: int| 0 <= k < n implies idx[k] != j by {
            lemma_usable_index_nonneg(off, w, k);
        }
        lemma_embed_unchanged(d, idx, p, n, j);
    }
    lemma_header_from_prefix(d, e);
    // every bit is in place
    assert forall|i: int, j: int| 0 <= i < j < n implies idx[i] != idx[j] by {
        lemma_usable_index_increasing(off, w, i, j);
    }
    assert forall|j: int| 0 <= j < n implies payload_bit(p, j) <= 1 by {
        lemma_payload_bit_is_bit(p, j);
    }
    assert forall|k: int| 0 <= k < n implies #[trigger] read_bit(e, idx, k) == payload_bit(p, k) by {
        lemma_embed_bits(d, idx, p, n, k);
    }
}

/// Extracting from what `encode` produced gives the message back, and can be
/// done within bounds. This holds when the message length fits in the 32-bit
/// length field and the pixel data starts after the header fields that
/// `bmp_header` reads (offset 30 or more), so that hiding cannot alter them.
#[verifier::rlimit(60)]
pub proof fn lemma_stego_round_trip(d: Seq<u8>, msg: Seq<u8>)
    requires
        encode_in_bounds(d, msg.len()),
        encode_spec(d, msg) is Ok,
        msg.len() <= u32::MAX,
        bmp_header(d) matches Ok((off, w, h)) && off >= 30,
    ensures
        decode_in_bounds(encode_spec(d, msg)->Ok_0),
        decode_spec(encode_spec(d, msg)->Ok_0) == Ok::<Seq<u8>, Seq<char>>(msg),
{
    let (off, w, h) = bmp_header(d)->Ok_0;
    let idx = usable_indices(off, w, h);
    let p = hidden_payload(msg);
    let n: nat = bits_needed(msg.len());
    let e = encode_spec(d, msg)->Ok_0;
    lemma_bits_in_place(d, msg, off, w, h, idx, e);
    lemma_count_positive_width(w, h);
    lemma_table_in_file(off, w, h, idx, d, n as int);
    assert forall|m: int| 0 <= m < 4 + msg.len() implies read_byte_at(e, idx, 8 * m) == p[m] by {
        lemma_read_back_byte(e, idx, p, m);
    }
    // the length reads back
    assert(read_byte_at(e, idx, 8 * 0int) == p[0]);
    assert(read_byte_at(e, idx, 8 * 1int) == p[1]);
    assert(read_byte_at(e, idx, 8 * 2int) == p[2]);
    assert(read_byte_at(e, idx, 8 * 3int) == p[3]);
    lemma_be32_round_trip(msg.len() as u32);
    assert(hidden_len(e, idx) == msg.len());
    // and so does the message
    assert forall|m: int| 0 <= m < msg.len() implies read_byte_at(e, idx, 8 * (4 + m)) == msg[m] by {
        assert(p[4 + m] == msg[m]);
    }
    assert(decode_spec(e) =~= Ok::<Seq<u8>, Seq<char>>(msg)) by {
        let out = Seq::new(msg.len(), |m: int| read_byte_at(e, idx, 8 * (4 + m)));
        assert(out =~= msg);
    }
}

/// Writing bits that are already in place changes nothing.
proof fn lemma_embed_in_place(e: Seq<u8>, idx: Seq<usize>, p: Seq<u8>, n: nat)
    requires
        forall|k: int| 0 <= k < n ==> idx[k] < e.len(),
        forall|k: int| 0 <= k < n ==> #[trigger] read_bit(e, idx, k) == payload_bit(p, k),
    ensures
        embed(e, idx, p, n) == e,
    decreases n,
{
    if n > 0 {
        lemma_embed_in_place(e, idx, p, (n - 1) as nat);
        let i: int = idx[n - 1] as int;
        let x: u8 = e[i];
        assert(read_bit(e, idx, n - 1) == payload_bit(p, n - 1));
        assert((x & 0xfeu8) | (x & 1u8) == x) by (bit_vector);
        assert(e.update(i, (x & 0xfeu8) | payload_bit(p, n - 1)) =~= e);
    }
}

/// Hiding the same message again in what `encode` produced changes nothing
/// (when the pixel data starts after the header fields, offset 30 or more).
pub proof fn lemma_encode_idempotent(d: Seq<u8>, msg: Seq<u8>)
    requires
        encode_in_bounds(d, msg.len()),
        encode_spec(d, msg) is Ok,
        bmp_header(d) matches Ok((off, w, h)) && off >= 30,
    ensures
        encode_in_bounds(encode_spec(d, msg)->Ok_0, msg.len()),
        encode_spec(encode_spec(d, msg)->Ok_0, msg) == Ok::<Seq<u8>, Seq<char>>(
            encode_spec(d, msg)->Ok_0,
        ),
{
    let (off, w, h) = bmp_header(d)->Ok_0;
    let idx = usable_indices(off, w, h);
    let n: nat = bits_needed(msg.len());
    let e = encode_spec(d, msg)->Ok_0;
    lemma_bits_in_place(d, msg, off, w, h, idx, e);
    lemma_count_positive_width(w, h);
    lemma_table_in_file(off, w, h, idx, d, n as int);
    lemma_embed_in_place(e, idx, hidden_payload(msg), n);
}

/// Embedding changes nothing but least significant bits: every byte keeps
/// its upper seven bits.
proof fn lemma_embed_upper_bits(d: Seq<u8>, idx: Seq<usize>, p: Seq<u8>, n: nat, j: int)
    requires
        forall|k: int| 0 <= k < n ==> idx[k] < d.len(),
        0 <= j < d.len(),
    ensures
        embed(d, idx, p, n)[j] & 0xfeu8 == d[j] & 0xfeu8,
    decreases n,
{
    if n > 0 {
        lemma_embed_upper_bits(d, idx, p, (n - 1) as nat, j);
        lemma_embed_len(d, idx, p, (n - 1) as nat);
        let e = embed(d, idx, p, (n - 1) as nat);
        let i: int = idx[n - 1] as int;
        if i == j {
            let x: u8 = e[i];
            let b: u8 = payload_bit(p, n - 1);
            lemma_payload_bit_is_bit(p, n - 1);
            assert(((x & 0xfeu8) | b) & 0xfeu8 == x & 0xfeu8) by (bit_vector)
                requires
                    b <= 1u8,
            ;
        }
    }
}

/// Hiding a message keeps the file's length and changes at most the least
/// significant bit of each byte.
pub proof fn lemma_encode_changes_only_lsbs(d: Seq<u8>, msg: Seq<u8>)
    requires
        encode_in_bounds(d, msg.len()),
        encode_spec(d, msg) is Ok,
    ensures
        encode_spec(d, msg)->Ok_0.len() == d.len(),
        forall|j: int|
            0 <= j < d.len() ==> #[trigger] encode_spec(d, msg)->Ok_0[j] & 0xfeu8 == d[j] & 0xfeu8,
{
    let (off, w, h) = bmp_header(d)->Ok_0;
    let idx = usable_indices(off, w, h);
    let p = hidden_payload(msg);
    let n: nat = bits_needed(msg.len());
    lemma_count_positive_width(w, h);
    lemma_table_in_file(off, w, h, idx, d, n as int);
    lemma_embed_len(d, idx, p, n);
    assert forall|j: int| 0 <= j < d.len() implies #[trigger] encode_spec(d, msg)->Ok_0[j]
        & 0xfeu8 == d[j] & 0xfeu8 by {
        lemma_embed_upper_bits(d, idx, p, n, j);
    }
}

/// Whether position `j` of a file holds pixel data: at or after the pixel
/// data offset, within the `h` rows of `4 * ceil(3w / 4)` bytes each, and not
/// in the padding at the end of a row.
pub open spec fn is_pixel_byte(off: nat, w: nat, h: nat, j: int) -> bool {
    let stride = ((3 * w + 3) / 4) * 4;
    &&& j >= off
    &&& (j - off) / (stride as int) < h
    &&& (j - off) % (stride as int) < 3 * w
}

/// Hiding a message changes only pixel bytes: never the header before the
/// pixel data, nor the padding at the end of a row.
pub proof fn lemma_encode_touches_only_pixels(d: Seq<u8>, msg: Seq<u8>)
    requires
        encode_in_bounds(d, msg.len()),
        encode_spec(d, msg) is Ok,
    ensures
        forall|j: int|
            0 <= j < d.len() && #[trigger] encode_spec(d, msg)->Ok_0[j] != d[j] ==> is_pixel_byte(
                bmp_header(d)->Ok_0.0,
                bmp_header(d)->Ok_0.1,
                bmp_header(d)->Ok_0.2,
                j,
            ),
{
    let (off, w, h) = bmp_header(d)->Ok_0;
    let idx = usable_indices(off, w, h);
    let p = hidden_payload(msg);
    let n: nat = bits_needed(msg.len());
    lemma_count_positive_width(w, h);
    lemma_table_in_file(off, w, h, idx, d, n as int);
    assert forall|j: int|
        0 <= j < d.len() && #[trigger] encode_spec(d, msg)->Ok_0[j] != d[j] implies is_pixel_byte(
        off,
        w,
        h,
        j,
    ) by {
        if forall|k: int| 0 <= k < n ==> idx[k] != j {
            lemma_embed_unchanged(d, idx, p, n, j);
        } else {
            let k = choose|k: int| 0 <= k < n && idx[k] == j;
            lemma_usable_index_is_pixel(off, w, h, k);
        }
    }
}

/// Every position in the pixel table holds pixel data.
proof fn lemma_usable_index_is_pixel(off: nat, w: nat, h: nat, k: int)
    requires
        0 <= k < usable_count(w, h),
    ensures
        is_pixel_byte(off, w, h, usable_index(off, w, k)),
{
    lemma_count_positive_width(w, h);
    lemma_stride_covers_row(w);
    let rd: int = row_bytes(w) as int;
    let st: int = stride_bytes(w) as int;
    let q: int = k / rd;
    let r: int = k % rd;
    assert(k == q * rd + r) by {
        lemma_fundamental_div_mod(k, rd);
        lemma_mul_is_commutative(rd, q);
    }
    assert(q < h) by {
        if q >= h {
            lemma_mul_inequality(h as int, q, rd);
            lemma_mul_is_commutative(rd, h as int);
        }
    }
    assert(q >= 0);
    assert(q * st >= 0) by (nonlinear_arith)
        requires
            q >= 0,
            st >= 0,
    ;
    lemma_fundamental_div_mod_converse(q * st + r, st, q, r);
    assert(usable_index(off, w, k) - off == q * st + r);
}

/// The capacity is the longest message that `encode` accepts: hiding succeeds
/// exactly when the image holds the 32 length bits and the message is no
/// longer than the capacity. (The capacity is reported in 32 bits; this
/// holds whenever it fits.)
pub proof fn lemma_capacity_bounds_encode(d: Seq<u8>, msg: Seq<u8>)
    requires
        bmp_header(d) matches Ok((off, w, h)) && bytes_available(usable_count(w, h)) <= u32::MAX,
    ensures
        capacity_spec(d) is Ok,
        encode_spec(d, msg) is Ok <==> (usable_count(
            bmp_header(d)->Ok_0.1,
            bmp_header(d)->Ok_0.2,
        ) / 8 >= 4 && msg.len() <= capacity_spec(d)->Ok_0),
{
    let (off, w, h) = bmp_header(d)->Ok_0;
    let n: int = usable_count(w, h) as int;
    let l: int = msg.len() as int;
    assert((4 + l) * 8 <= n <==> 4 + l <= n / 8) by {
        lemma_fundamental_div_mod(n, 8);
    }
}

// ---- bounds checks -------------------------------------------------------------

/// Whether the table of pixel byte positions of a `width` x `height` image
/// starting at `pixel_offset` can be built within `usize`.
pub fn indices_fit_check(pixel_offset: usize, width: u32, height: u32) -> (b: bool)
    ensures
        b == indices_fit(pixel_offset as nat, width as nat, height as nat),
{
    let ghost w = width as nat;
    let ghost h = height as nat;
    let max: u128 = usize::MAX as u128;
    let rd: u128 = 3 * (width as u128);
    let stride: u128 = (rd + 3) / 4 * 4;
    assert(rd * height <= 0x3_0000_0000u128 * 0x1_0000_0000u128) by (nonlinear_arith)
        requires
            rd <= 0x3_0000_0000u128,
            height <= 0x1_0000_0000u128,
    ;
    let count: u128 = rd * (height as u128);
    if rd + 3 > max || count > max {
        return false;
    }
    if height == 0 {
        return true;
    }
    assert((height - 1) * stride <= 0x1_0000_0000u128 * 0x3_0000_0004u128) by (nonlinear_arith)
        requires
            stride <= 0x3_0000_0004u128,
            height <= 0x1_0000_0000u128,
    ;
    let last: u128 = pixel_offset as u128 + (height as u128 - 1) * stride + rd;
    last <= max + 1
}

/// Pixel byte positions up to `t` lie in the file exactly when the last one does.
proof fn lemma_last_index_decides(off: nat, w: nat, t: int, len: int)
    requires
        w > 0,
        t > 0,
    ensures
        (forall|k: int| 0 <= k < t ==> usable_index(off, w, k) < len) <==> usable_index(off, w, t
            - 1) < len,
{
    assert forall|k: int| 0 <= k < t && usable_index(off, w, t - 1) < len implies #[trigger]
        usable_index(off, w, k) < len by {
        if k < t - 1 {
            lemma_usable_index_increasing(off, w, k, t - 1);
        }
    }
}

/// Position of pixel byte `k`, computed without building the table.
fn usable_index_at(pixel_offset: usize, width: u32, height: u32, k: usize) -> (i: usize)
    requires
        indices_fit(pixel_offset as nat, width as nat, height as nat),
        k < usable_count(width as nat, height as nat),
    ensures
        i == usable_index(pixel_offset as nat, width as nat, k as int),
{
    let ghost w = width as nat;
    let ghost h = height as nat;
    proof {
        lemma_count_positive_width(w, h);
        lemma_usable_index_fits(pixel_offset as nat, w, h, k as int);
        lemma_usable_index_nonneg(pixel_offset as nat, w, k as int);
    }
    let rd: usize = width as usize * 3;
    let stride: usize = (rd + 3) / 4 * 4;
    let q: usize = k / rd;
    let r: usize = k % rd;
    assert(q * stride <= usable_index(pixel_offset as nat, w, k as int));
    pixel_offset + q * stride + r
}

/// Whether `encode` can hide a message of `message_len` bytes in `bmp_data`
/// within bounds.
pub fn encode_fits(bmp_data: &[u8], message_len: usize) -> (b: bool)
    ensures
        b == encode_in_bounds(bmp_data@, message_len as nat),
{
    let info = match parse_bmp(bmp_data) {
        Ok(i) => i,
        Err(_) => return true,
    };
    let ghost off = info.pixel_offset as nat;
    let ghost w = info.width as nat;
    let ghost h = info.height as nat;
    if !indices_fit_check(info.pixel_offset, info.width, info.height) {
        return false;
    }
    if message_len > (usize::MAX / 8) - 4 {
        return false;
    }
    let total: usize = (4 + message_len) * 8;
    let count: usize = info.width as usize * 3 * info.height as usize;
    assert(count == usable_count(w, h)) by (nonlinear_arith)
        requires
            count == info.width * 3 * info.height,
            w == info.width,
            h == info.height,
    ;
    if total > count {
        return true;
    }
    proof {
        lemma_count_positive_width(w, h);
        lemma_last_index_decides(off, w, total as int, bmp_data@.len() as int);
    }
    usable_index_at(info.pixel_offset, info.width, info.height, total - 1) < bmp_data.len()
}

/// Whether `decode` can run on `bmp_data` within bounds.
pub fn decode_fits(bmp_data: &[u8]) -> (b: bool)
    ensures
        b == decode_in_bounds(bmp_data@),
{
    let info = match parse_bmp(bmp_data) {
        Ok(i) => i,
        Err(_) => return true,
    };
    let ghost off = info.pixel_offset as nat;
    let ghost w = info.width as nat;
    let ghost h = info.height as nat;
    if !indices_fit_check(info.pixel_offset, info.width, info.height) {
        return false;
    }
    let indices = usable_byte_indices(info.pixel_offset, info.width, info.height);
    let ghost idx = indices@;
    if indices.len() < 32 {
        return true;
    }
    proof {
        lemma_count_positive_width(w, h);
        lemma_last_index_decides(off, w, 32, bmp_data@.len() as int);
        lemma_usable_index_nonneg(off, w, 31);
        lemma_usable_index_fits(off, w, h, 31);
    }
    if indices[31] >= bmp_data.len() {
        return false;
    }
    proof {
        lemma_table_in_file(off, w, h, idx, bmp_data@, 32);
    }
    let b0: u8 = read_byte(bmp_data, &indices, 0);
    let b1: u8 = read_byte(bmp_data, &indices, 8);
    let b2: u8 = read_byte(bmp_data, &indices, 16);
    let b3: u8 = read_byte(bmp_data, &indices, 24);
    let len32: u32 = ((b0 as u32) << 24u32) | ((b1 as u32) << 16u32) | ((b2 as u32) << 8u32) | (
    b3 as u32);
    assert(len32 == hidden_len(bmp_data@, idx));
    let msg_len: usize = len32 as usize;
    if msg_len > (usize::MAX / 8) - 4 {
        return false;
    }
    let total: usize = (4 + msg_len) * 8;
    if total > indices.len() {
        return true;
    }
    proof {
        lemma_last_index_decides(off, w, total as int, bmp_data@.len() as int);
        lemma_usable_index_nonneg(off, w, total - 1);
        lemma_usable_index_fits(off, w, h, total - 1);
    }
    indices[total - 1] < bmp_data.len()
}

/// Whether `capacity` can run on `bmp_data` within bounds.
pub fn capacity_fits(bmp_data: &[u8]) -> (b: bool)
    ensures
        b == capacity_in_bounds(bmp_data@),
{
    let info = match parse_bmp(bmp_data) {
        Ok(i) => i,
        Err(_) => return true,
    };
    let rd: u128 = 3 * (info.width as u128);
    assert(rd * info.height <= 0x3_0000_0000u128 * 0x1_0000_0000u128) by (nonlinear_arith)
        requires
            rd <= 0x3_0000_0000u128,
            info.height <= 0x1_0000_0000u128,
    ;
    let count: u128 = rd * (info.height as u128);
    rd <= usize::MAX as u128 && count <= usize::MAX as u128
}

} // verus!
