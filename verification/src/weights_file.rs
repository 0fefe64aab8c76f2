use vstd::prelude::*;

verus! {

// ============================================================================
// TRAINED WEIGHTS IN NUMPY FORMAT
// ============================================================================
// A `.npy` file of trained weights: the magic `\x93NUMPY`, two version bytes, a little-endian
// 16-bit header length at offset 8, the header, then the 108 weights as little-endian 32-bit
// floats. The reader below checks the framing and hands out the raw 32-bit words.

/// Number of weights in the file.
pub const NPY_WEIGHT_COUNT: usize = 108;

/// Why a weights file was refused.
#[derive(Clone, Copy, PartialEq, Eq, Structural, Debug)]
pub enum NpyError {
    /// Fewer than the ten bytes of magic, version and header length.
    TooSmall,
    /// The file does not start with `\x93NUMPY`.
    BadMagic,
    /// The data after the header is shorter than 108 four-byte words.
    Truncated,
}

/// The message of a refused weights file.
pub open spec fn npy_error_text(x: NpyError) -> Seq<char> {
    match x {
        NpyError::TooSmall => "File too small to be a valid .npy file"@,
        NpyError::BadMagic => "Invalid file format: Missing NumPy header magic bytes"@,
        NpyError::Truncated => "File does not contain a full 108-element float32 vector"@,
    }
}

impl NpyError {
    /// The message shown for the error.
    pub fn text(&self) -> (r: &'static str)
        ensures
            r@ == npy_error_text(*self),
    {
        match self {
            NpyError::TooSmall => "File too small to be a valid .npy file",
            NpyError::BadMagic => "Invalid file format: Missing NumPy header magic bytes",
            NpyError::Truncated => "File does not contain a full 108-element float32 vector",
        }
    }
}

/// The file starts with the NumPy magic `\x93NUMPY`.
pub open spec fn npy_magic_ok(b: Seq<u8>) -> bool {
    &&& b.len() >= 6
    &&& b[0] == 0x93u8
    &&& b[1] == 0x4Eu8
    &&& b[2] == 0x55u8
    &&& b[3] == 0x4Du8
    &&& b[4] == 0x50u8
    &&& b[5] == 0x59u8
}

/// The header length stored little-endian at offset 8.
pub open spec fn npy_header_len(b: Seq<u8>) -> int {
    b[8] + 256 * b[9]
}

/// Offset of the first weight.
pub open spec fn npy_data_start(b: Seq<u8>) -> int {
    10 + npy_header_len(b)
}

/// The little-endian 32-bit word at `off`.
pub open spec fn le_word(b: Seq<u8>, off: int) -> int {
    b[off] + 256 * b[off + 1] + 65536 * b[off + 2] + 16777216 * b[off + 3]
}

/// The outcome of reading a weights file: refused as too small, without the magic, or
/// truncated, or the 108 raw words of its data.
pub open spec fn npy_outcome_ok(b: Seq<u8>, r: Result<Vec<u32>, NpyError>) -> bool {
    if b.len() < 10 {
        r == Err::<Vec<u32>, NpyError>(NpyError::TooSmall)
    } else if !npy_magic_ok(b) {
        r == Err::<Vec<u32>, NpyError>(NpyError::BadMagic)
    } else if b.len() < npy_data_start(b) + 4 * NPY_WEIGHT_COUNT {
        r == Err::<Vec<u32>, NpyError>(NpyError::Truncated)
    } else {
        &&& r is Ok
        &&& r->Ok_0@.len() == NPY_WEIGHT_COUNT
        &&& forall|i: int|
            0 <= i < NPY_WEIGHT_COUNT ==> #[trigger] r->Ok_0@[i] as int == le_word(b, npy_data_start(b) + 4 * i)
    }
}

/// Reads the framing of a weights file and returns its 108 raw little-endian words (the bit
/// patterns of the 32-bit floats).
pub fn parse_npy_weight_words(buffer: &[u8]) -> (r: Result<Vec<u32>, NpyError>)
    ensures
        npy_outcome_ok(buffer@, r),
{
    if buffer.len() < 10 {
        return Err(NpyError::TooSmall);
    }
    if !(buffer[0] == 0x93 && buffer[1] == 0x4E && buffer[2] == 0x55 && buffer[3] == 0x4D && buffer[4] == 0x50
        && buffer[5] == 0x59) {
        return Err(NpyError::BadMagic);
    }
    let header_len: usize = buffer[8] as usize + 256 * (buffer[9] as usize);
    let data_start_offset: usize = 10 + header_len;
    let expected_data_bytes: usize = NPY_WEIGHT_COUNT * 4;
    if buffer.len() < data_start_offset + expected_data_bytes {
        return Err(NpyError::Truncated);
    }
    let mut words: Vec<u32> = Vec::new();
    let mut i: usize = 0;
    while i < NPY_WEIGHT_COUNT
        invariant
            i <= NPY_WEIGHT_COUNT,
            buffer@.len() >= 10,
            npy_magic_ok(buffer@),
            data_start_offset == npy_data_start(buffer@),
            buffer@.len() >= data_start_offset + 4 * NPY_WEIGHT_COUNT,
            words@.len() == i,
            forall|j: int| 0 <= j < i ==> #[trigger] words@[j] as int == le_word(buffer@, data_start_offset + 4 * j),
        decreases NPY_WEIGHT_COUNT - i,
    {
        let off = data_start_offset + 4 * i;
        let w: u32 = buffer[off] as u32 + 256 * (buffer[off + 1] as u32) + 65536 * (buffer[off + 2] as u32)
            + 16777216 * (buffer[off + 3] as u32);
        words.push(w);
        i = i + 1;
    }
    Ok(words)
}

} // verus!
