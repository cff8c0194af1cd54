//! Peaks as a run file holds them: a base64 text over groups of eight
//! bytes, four for the mass and four for the intensity, each a 32-bit
//! pattern with the highest byte first.

use vstd::prelude::*;
use crate::RoiError;

verus! {

/// `DecodeError` of base64: why a text is no encoding. Nothing is read from
/// it here.
#[verifier::external_type_specification]
#[verifier::external_body]
pub struct ExDecodeError(base64::DecodeError);

/// The bytes that the standard base64 alphabet with padding decodes a text
/// to; nothing where the text is no such encoding.
pub uninterp spec fn base64_bytes(text: Seq<char>) -> Option<Seq<u8>>;

/// `Engine::decode` of base64, on its `STANDARD` engine: the decoded bytes,
/// or the error that tells why the text is no encoding. Either is a function
/// of the text alone.
#[verifier::external_body]
fn decode_base64(text: &str) -> (r: Result<Vec<u8>, base64::DecodeError>)
    ensures
        match r {
            Ok(bytes) => base64_bytes(text@) == Some(bytes@),
            Err(_) => base64_bytes(text@) is None,
        },
{
    base64::Engine::decode(&base64::engine::general_purpose::STANDARD, text)
}

/// The bit patterns of one peak, as read: what the mass and the intensity
/// are as numbers is for the reader of the patterns to say.
#[derive(Clone, Copy, Debug, PartialEq, Eq, Structural)]
pub struct PeakBits {
    pub mz_bits: u32,
    pub intensity_bits: u32,
}

/// The 32-bit pattern of the four bytes at `at`, the highest first.
pub open spec fn word_at(bytes: Seq<u8>, at: int) -> int {
    bytes[at] * 0x100_0000 + bytes[at + 1] * 0x1_0000 + bytes[at + 2] * 0x100 + bytes[at + 3]
}

/// The peak in the `k`-th group of eight bytes.
pub open spec fn peak_at(bytes: Seq<u8>, k: int) -> PeakBits {
    PeakBits {
        mz_bits: word_at(bytes, 8 * k) as u32,
        intensity_bits: word_at(bytes, 8 * k + 4) as u32,
    }
}

/// The peaks of all full groups of eight bytes; bytes behind the last full
/// group are not read.
pub open spec fn framed(bytes: Seq<u8>) -> Seq<PeakBits> {
    Seq::new((bytes.len() / 8) as nat, |k: int| peak_at(bytes, k))
}

/// What a text of peaks reads as.
pub open spec fn peaks_of(decoded: Option<Seq<u8>>) -> Result<Seq<PeakBits>, RoiError> {
    match decoded {
        Some(bytes) => Ok(framed(bytes)),
        None => Err(RoiError::Parsing),
    }
}

/// The four bytes at `at` as one pattern, the highest first.
pub fn read_word(bytes: &[u8], at: usize) -> (word: u32)
    requires
        at + 4 <= bytes@.len(),
    ensures
        word == word_at(bytes@, at as int),
{
    let b0: u32 = bytes[at] as u32;
    let b1: u32 = bytes[at + 1] as u32;
    let b2: u32 = bytes[at + 2] as u32;
    let b3: u32 = bytes[at + 3] as u32;
    b0 * 0x100_0000 + b1 * 0x1_0000 + b2 * 0x100 + b3
}

/// The peaks of all full groups of eight bytes.
pub fn frame_peaks(bytes: &[u8]) -> (peaks: Vec<PeakBits>)
    ensures
        peaks@ == framed(bytes@),
{
    let total: usize = bytes.len();
    let groups: usize = total / 8;
    let mut peaks: Vec<PeakBits> = Vec::new();
    let mut k: usize = 0;
    while k < groups
        invariant
            k <= groups,
            groups == bytes@.len() / 8,
            total == bytes@.len(),
            peaks@.len() == k,
            forall|i: int| 0 <= i < k ==> peaks@[i] == peak_at(bytes@, i),
        decreases groups - k,
    {
        assert(8 * k + 8 <= total) by (nonlinear_arith)
            requires
                k < groups,
                groups == total / 8,
        ;
        let mz_bits: u32 = read_word(bytes, 8 * k);
        let intensity_bits: u32 = read_word(bytes, 8 * k + 4);
        peaks.push(PeakBits { mz_bits, intensity_bits });
        k += 1;
    }
    assert(peaks@ =~= framed(bytes@));
    peaks
}

/// The peaks of a decoded text, or the failure to decode it.
pub fn peaks_from(decoded: Result<Vec<u8>, base64::DecodeError>) -> (r: Result<
    Vec<PeakBits>,
    RoiError,
>)
    ensures
        match decoded {
            Ok(bytes) => r is Ok && r->Ok_0@ == framed(bytes@),
            Err(_) => r == Err::<Vec<PeakBits>, RoiError>(RoiError::Parsing),
        },
{
    match decoded {
        Ok(bytes) => Ok(frame_peaks(bytes.as_slice())),
        Err(_) => Err(RoiError::Parsing),
    }
}

/// The peaks that a base64 text holds: decoded, then framed. Fails exactly
/// where the text is no base64 encoding.
pub fn read_peaks(text: &str) -> (r: Result<Vec<PeakBits>, RoiError>)
    ensures
        match peaks_of(base64_bytes(text@)) {
            Ok(peaks) => r is Ok && r->Ok_0@ == peaks,
            Err(e) => r == Err::<Vec<PeakBits>, RoiError>(e),
        },
{
    peaks_from(decode_base64(text))
}

} // verus!
