//! Reading a `brain.sllm` file: the header, then the tokenizer at the
//! header's tokenizer offset, then the brain right after it.

use vstd::prelude::*;
use crate::brain::ngram::{brain_accepted, parse_brain, BrainView};
use crate::brain::NgramBrain;
use crate::tokenizer::bpe::{parse_tokenizer, RuleView};
use crate::tokenizer::BpeTokenizer;
use super::header::{parse_header, BrainHeader, HeaderView};
use super::FormatError;

verus! {

/// `n` more steps of the bitwise CRC-32 register: shift right, and where a
/// one bit drops out, xor in the reflected IEEE polynomial 0xEDB88320.
pub open spec fn crc32_shift(c: u32, n: nat) -> u32
    decreases n,
{
    if n == 0 {
        c
    } else {
        crc32_shift(if c & 1u32 == 1u32 { (c >> 1u32) ^ 0xEDB8_8320u32 } else { c >> 1u32 }, (n - 1) as nat)
    }
}

/// The CRC-32 register after taking in `data`, byte by byte, from `crc`.
pub open spec fn crc32_update(crc: u32, data: Seq<u8>) -> u32
    decreases data.len(),
{
    if data.len() == 0 {
        crc
    } else {
        crc32_update(crc32_shift(crc ^ (data[0] as u32), 8), data.drop_first())
    }
}

/// The CRC-32 (IEEE) checksum of a byte string: the register starts at all
/// ones, takes in every byte, and is inverted at the end.
pub open spec fn crc32_ieee(data: Seq<u8>) -> u32 {
    !crc32_update(0xFFFF_FFFFu32, data)
}

/// Calls `crc32fast::hash`, which computes the CRC-32 (IEEE) checksum of
/// `data` (a new hasher, one update, finalize): the reflected algorithm with
/// polynomial 0xEDB88320, initial register and final xor all ones.
#[verifier::external_body]
pub(crate) fn crc32(data: &[u8]) -> (c: u32)
    ensures
        c == crc32_ieee(data@),
{
    crc32fast::hash(data)
}

/// Parses a model file: its header, the tokenizer's tokens and merge rules,
/// and the brain; the first error met otherwise.
pub open spec fn parse_model(d: Seq<u8>) -> Result<(HeaderView, Seq<Seq<char>>, Seq<RuleView>, BrainView), FormatError> {
    match parse_header(d) {
        Err(e) => Err(e),
        Ok(h) => match parse_tokenizer(d.skip(h.tokenizer_offset as int)) {
            Err(e) => Err(FormatError::Tokenizer(e)),
            Ok((toks, rules, used)) => match parse_brain(d.skip(h.tokenizer_offset + used)) {
                Err(e) => Err(FormatError::Brain(e)),
                Ok((b, _)) => Ok((h, toks, rules, b)),
            },
        },
    }
}

/// Whether a model file can be read without failing outright: a header that
/// parses has its tokenizer offset within the data, and the brain after a
/// tokenizer that parses is accepted (see [`brain_accepted`]).
pub open spec fn model_accepted(d: Seq<u8>) -> bool {
    match parse_header(d) {
        Err(_) => true,
        Ok(h) => h.tokenizer_offset <= d.len() && match parse_tokenizer(d.skip(h.tokenizer_offset as int)) {
            Err(_) => true,
            Ok((_, _, used)) => brain_accepted(d.skip(h.tokenizer_offset + used)),
        },
    }
}

/// A loaded sLLM model (header + tokenizer + brain).
#[derive(Debug)]
pub struct LoadedModel {
    /// File header with metadata
    pub header: BrainHeader,
    /// The BPE tokenizer
    pub tokenizer: BpeTokenizer,
    /// The associative brain
    pub brain: NgramBrain,
}

impl LoadedModel {
    /// Whether `computed`, the CRC-32 of the data sections computed on
    /// reading, is the checksum the header records.
    pub fn checksum_matches(&self, computed: u32) -> (b: bool)
        ensures
            b == (computed == self.header@.data_checksum),
    {
        computed == self.header.data_checksum
    }
}

/// Reads `brain.sllm` files.
pub struct BrainReader;

impl BrainReader {
    /// Parse a model from a byte slice (works for both owned and mapped
    /// data). Also returns the CRC-32 computed over the tokenizer and brain
    /// sections, which the caller compares with the header's checksum (a
    /// mismatch does not fail the read).
    pub fn parse(data: &[u8]) -> (r: Result<(LoadedModel, u32), FormatError>)
        requires
            model_accepted(data@),
        ensures
            match r {
                Ok((m, c)) => {
                    &&& m.brain.wf()
                    &&& parse_model(data@) == Ok::<(HeaderView, Seq<Seq<char>>, Seq<RuleView>, BrainView), FormatError>(
                        (m.header@, m.tokenizer.tokens(), m.tokenizer.rules(), m.brain@),
                    )
                    &&& c == crc32_ieee(data@.skip(m.header@.tokenizer_offset as int))
                },
                Err(e) => parse_model(data@) == Err::<
                    (HeaderView, Seq<Seq<char>>, Seq<RuleView>, BrainView),
                    FormatError,
                >(e),
            },
    {
        let header = match BrainHeader::from_bytes(data) {
            Ok(h) => h,
            Err(e) => {
                return Err(e);
            },
        };
        let start = header.tokenizer_offset as usize;
        let rest = vstd::slice::slice_subrange(data, start, data.len());
        assert(rest@ =~= data@.skip(start as int));
        let (tokenizer, used) = match BpeTokenizer::from_bytes(rest) {
            Ok(p) => p,
            Err(e) => {
                return Err(FormatError::Tokenizer(e));
            },
        };
        let brain_data = vstd::slice::slice_subrange(rest, used, rest.len());
        assert(brain_data@ =~= data@.skip(header.tokenizer_offset + used));
        let (brain, _consumed) = match NgramBrain::from_bytes(brain_data) {
            Ok(p) => p,
            Err(e) => {
                return Err(FormatError::Brain(e));
            },
        };
        let checksum = crc32(rest);
        Ok((LoadedModel { header, tokenizer, brain }, checksum))
    }

    /// Whether [`BrainReader::parse`] accepts `data` (see [`model_accepted`]).
    pub fn accepts(data: &[u8]) -> (b: bool)
        ensures
            b == model_accepted(data@),
    {
        match BrainHeader::from_bytes(data) {
            Err(_) => true,
            Ok(header) => {
                if header.tokenizer_offset > data.len() as u64 {
                    return false;
                }
                let start = header.tokenizer_offset as usize;
                let rest = vstd::slice::slice_subrange(data, start, data.len());
                assert(rest@ =~= data@.skip(start as int));
                match BpeTokenizer::from_bytes(rest) {
                    Err(_) => true,
                    Ok((_, used)) => {
                        let brain_data = vstd::slice::slice_subrange(rest, used, rest.len());
                        assert(brain_data@ =~= data@.skip(header.tokenizer_offset + used));
                        NgramBrain::accepts(brain_data)
                    },
                }
            },
        }
    }
}

} // verus!
