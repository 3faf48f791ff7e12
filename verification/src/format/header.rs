//! The `brain.sllm` file header: model metadata, section offsets and the
//! checksum of the data sections.

use vstd::prelude::*;
use vstd::bytes::{
    spec_u16_from_le_bytes, spec_u16_to_le_bytes, spec_u32_to_le_bytes,
    spec_u64_to_le_bytes,
};
use vstd::utf8::{decode_utf8, encode_utf8, valid_utf8};
use crate::bytes::{
    lemma_u16_roundtrip, lemma_u32_roundtrip, lemma_u64_roundtrip, push_all, push_u16, push_u32, push_u64,
    read_u16, read_u32, read_u64, u32_at, u64_at,
};
use crate::text::utf8_to_string;
use crate::{SLLM_MAGIC, SLLM_VERSION};
use super::FormatError;

verus! {

broadcast use vstd::string::group_string_axioms;

/// The four magic bytes that start every brain file ("SLLM").
pub open spec fn magic_bytes() -> Seq<u8> {
    seq![0x53u8, 0x4Cu8, 0x4Cu8, 0x4Du8]
}

/// A header's fields as plain values.
pub struct HeaderView {
    pub version: u16,
    pub model_name: Seq<char>,
    pub vocab_size: u32,
    pub context_window: u32,
    pub ngram_orders: u8,
    pub total_associations: u64,
    pub training_tokens_seen: u64,
    pub created_at: u64,
    pub data_checksum: u32,
    pub tokenizer_offset: u64,
    pub brain_offset: u64,
}

/// Header for a `brain.sllm` file.
#[derive(Debug, Clone)]
pub struct BrainHeader {
    /// File format version
    pub version: u16,
    /// Human-readable model name
    pub model_name: String,
    /// Vocabulary size (number of BPE tokens)
    pub vocab_size: u32,
    /// Context window size (tokens)
    pub context_window: u32,
    /// Maximum n-gram order (e.g., 5 for up to 5-gram)
    pub ngram_orders: u8,
    /// Total number of associations stored across all tables
    pub total_associations: u64,
    /// Total training tokens processed
    pub training_tokens_seen: u64,
    /// Unix timestamp when model was created/last saved
    pub created_at: u64,
    /// CRC32 checksum of the data sections (vocab + brain)
    pub data_checksum: u32,
    /// Byte offset where the tokenizer section begins
    pub tokenizer_offset: u64,
    /// Byte offset where the brain section begins
    pub brain_offset: u64,
}

impl View for BrainHeader {
    type V = HeaderView;

    open spec fn view(&self) -> HeaderView {
        HeaderView {
            version: self.version,
            model_name: self.model_name@,
            vocab_size: self.vocab_size,
            context_window: self.context_window,
            ngram_orders: self.ngram_orders,
            total_associations: self.total_associations,
            training_tokens_seen: self.training_tokens_seen,
            created_at: self.created_at,
            data_checksum: self.data_checksum,
            tokenizer_offset: self.tokenizer_offset,
            brain_offset: self.brain_offset,
        }
    }
}

/// Size of the header without the model name: magic, version, header size,
/// name length, and the fixed-width fields.
pub open spec fn fixed_header_size() -> nat {
    67
}

/// The serialized header: magic, version, total header size, name length,
/// the name's UTF-8 bytes, then the fixed fields, all little-endian.
pub open spec fn header_bytes(h: HeaderView) -> Seq<u8> {
    let name = encode_utf8(h.model_name);
    magic_bytes() + spec_u16_to_le_bytes(h.version) + spec_u32_to_le_bytes(
        (fixed_header_size() + name.len()) as u32,
    ) + spec_u32_to_le_bytes(name.len() as u32) + name + tail_bytes(h)
}

/// The serialized fields after the model name.
pub open spec fn tail_bytes(h: HeaderView) -> Seq<u8> {
    spec_u32_to_le_bytes(h.vocab_size) + spec_u32_to_le_bytes(h.context_window) + seq![h.ngram_orders]
        + spec_u64_to_le_bytes(h.total_associations) + spec_u64_to_le_bytes(h.training_tokens_seen)
        + spec_u64_to_le_bytes(h.created_at) + spec_u32_to_le_bytes(h.data_checksum)
        + spec_u64_to_le_bytes(h.tokenizer_offset) + spec_u64_to_le_bytes(h.brain_offset)
}

/// Parses a header from the front of `d`. Wrong magic bytes are reported
/// first, then a version newer than this library's, then data that ends
/// early or a model name that is not UTF-8 (both reported as truncation).
pub open spec fn parse_header(d: Seq<u8>) -> Result<HeaderView, FormatError> {
    if d.len() < 4 || d.subrange(0, 4) != magic_bytes() {
        Err(FormatError::InvalidMagic)
    } else if d.len() < 6 {
        Err(FormatError::TruncatedData)
    } else if spec_u16_from_le_bytes(d.subrange(4, 6)) > 1 {
        Err(FormatError::UnsupportedVersion(spec_u16_from_le_bytes(d.subrange(4, 6))))
    } else if d.len() < 14 {
        Err(FormatError::TruncatedData)
    } else {
        let p = 14 + u32_at(d, 10) as int;
        if p > d.len() || !valid_utf8(d.subrange(14, p)) || d.len() - p < 53 {
            Err(FormatError::TruncatedData)
        } else {
            Ok(
                HeaderView {
                    version: spec_u16_from_le_bytes(d.subrange(4, 6)),
                    model_name: decode_utf8(d.subrange(14, p)),
                    vocab_size: u32_at(d, p),
                    context_window: u32_at(d, p + 4),
                    ngram_orders: d[p + 8],
                    total_associations: u64_at(d, p + 9),
                    training_tokens_seen: u64_at(d, p + 17),
                    created_at: u64_at(d, p + 25),
                    data_checksum: u32_at(d, p + 33),
                    tokenizer_offset: u64_at(d, p + 37),
                    brain_offset: u64_at(d, p + 45),
                },
            )
        }
    }
}

impl BrainHeader {
    /// Total fixed header size in bytes (magic + version + fixed fields).
    /// The model name is variable-length, so actual header size varies.
    pub fn fixed_size() -> (n: usize)
        ensures
            n == fixed_header_size(),
    {
        4 + 2 + 4 + 4 + 4 + 4 + 1 + 8 + 8 + 8 + 4 + 8 + 8
    }

    /// Actual header size including the variable-length model name.
    pub fn actual_size(&self) -> (n: usize)
        requires
            fixed_header_size() + encode_utf8(self.model_name@).len() <= usize::MAX,
        ensures
            n == fixed_header_size() + encode_utf8(self.model_name@).len(),
    {
        Self::fixed_size() + self.model_name.as_str().as_bytes().len()
    }

    /// Serialize the header to bytes.
    pub fn to_bytes(&self) -> (buf: Vec<u8>)
        requires
            fixed_header_size() + encode_utf8(self.model_name@).len() <= usize::MAX,
        ensures
            buf@ == header_bytes(self@),
    {
        let mut buf: Vec<u8> = Vec::new();
        let magic = SLLM_MAGIC;
        buf.push(magic[0]);
        buf.push(magic[1]);
        buf.push(magic[2]);
        buf.push(magic[3]);
        assert(buf@ =~= magic_bytes());
        push_u16(&mut buf, self.version);
        let header_size = self.actual_size() as u32;
        push_u32(&mut buf, header_size);
        let name_bytes = self.model_name.as_str().as_bytes();
        push_u32(&mut buf, name_bytes.len() as u32);
        push_all(&mut buf, name_bytes);
        push_u32(&mut buf, self.vocab_size);
        push_u32(&mut buf, self.context_window);
        buf.push(self.ngram_orders);
        push_u64(&mut buf, self.total_associations);
        push_u64(&mut buf, self.training_tokens_seen);
        push_u64(&mut buf, self.created_at);
        push_u32(&mut buf, self.data_checksum);
        push_u64(&mut buf, self.tokenizer_offset);
        push_u64(&mut buf, self.brain_offset);
        assert(buf@ =~= header_bytes(self@));
        buf
    }

    /// Deserialize a header from bytes.
    pub fn from_bytes(data: &[u8]) -> (r: Result<Self, FormatError>)
        ensures
            match r {
                Ok(h) => parse_header(data@) == Ok::<HeaderView, FormatError>(h@),
                Err(e) => parse_header(data@) == Err::<HeaderView, FormatError>(e),
            },
    {
        let len = data.len();
        let magic = SLLM_MAGIC;
        if len < 4 || data[0] != magic[0] || data[1] != magic[1] || data[2] != magic[2] || data[3] != magic[3] {
            proof {
                if len >= 4 && data@.subrange(0, 4) == magic_bytes() {
                    assert(data@[0] == data@.subrange(0, 4)[0]);
                    assert(data@[1] == data@.subrange(0, 4)[1]);
                    assert(data@[2] == data@.subrange(0, 4)[2]);
                    assert(data@[3] == data@.subrange(0, 4)[3]);
                }
            }
            return Err(FormatError::InvalidMagic);
        }
        assert(data@.subrange(0, 4) =~= magic_bytes());
        if len < 6 {
            return Err(FormatError::TruncatedData);
        }
        let version = read_u16(data, 4);
        if version > SLLM_VERSION {
            return Err(FormatError::UnsupportedVersion(version));
        }
        if len < 10 {
            return Err(FormatError::TruncatedData);
        }
        let _header_size = read_u32(data, 6);
        if len < 14 {
            return Err(FormatError::TruncatedData);
        }
        let name_len = read_u32(data, 10) as usize;
        let pos: usize = 14;
        if name_len > len - pos {
            return Err(FormatError::TruncatedData);
        }
        let model_name = match utf8_to_string(vstd::slice::slice_subrange(data, pos, pos + name_len)) {
            Some(s) => s,
            None => {
                return Err(FormatError::TruncatedData);
            },
        };
        let pos = pos + name_len;
        let remaining = len - pos;
        if remaining < 4 + 4 + 1 + 8 + 8 + 8 + 4 + 8 + 8 {
            return Err(FormatError::TruncatedData);
        }
        let vocab_size = read_u32(data, pos);
        let context_window = read_u32(data, pos + 4);
        let ngram_orders = data[pos + 8];
        let total_associations = read_u64(data, pos + 9);
        let training_tokens_seen = read_u64(data, pos + 17);
        let created_at = read_u64(data, pos + 25);
        let data_checksum = read_u32(data, pos + 33);
        let tokenizer_offset = read_u64(data, pos + 37);
        let brain_offset = read_u64(data, pos + 45);
        Ok(BrainHeader {
            version,
            model_name,
            vocab_size,
            context_window,
            ngram_orders,
            total_associations,
            training_tokens_seen,
            created_at,
            data_checksum,
            tokenizer_offset,
            brain_offset,
        })
    }
}

/// Serializing a header and parsing the bytes back (whatever follows them)
/// gives the same header, for every header this library can read: a version
/// no newer than its own and a model name whose UTF-8 form fits in 32 bits.
pub proof fn lemma_header_roundtrip(h: HeaderView, rest: Seq<u8>)
    requires
        h.version <= 1,
        encode_utf8(h.model_name).len() <= u32::MAX,
    ensures
        parse_header(header_bytes(h) + rest) == Ok::<HeaderView, FormatError>(h),
{
    let name = encode_utf8(h.model_name);
    let n = name.len();
    vstd::utf8::encode_utf8_valid_utf8(h.model_name);
    vstd::utf8::encode_utf8_decode_utf8(h.model_name);
    lemma_u16_roundtrip(h.version);
    lemma_u32_roundtrip((fixed_header_size() + n) as u32);
    lemma_u32_roundtrip(n as u32);
    lemma_u32_roundtrip(h.vocab_size);
    lemma_u32_roundtrip(h.context_window);
    lemma_u64_roundtrip(h.total_associations);
    lemma_u64_roundtrip(h.training_tokens_seen);
    lemma_u64_roundtrip(h.created_at);
    lemma_u32_roundtrip(h.data_checksum);
    lemma_u64_roundtrip(h.tokenizer_offset);
    lemma_u64_roundtrip(h.brain_offset);
    let d = header_bytes(h) + rest;
    let p: int = 14 + n as int;
    assert(d.subrange(0, 4) =~= magic_bytes());
    assert(d.subrange(4, 6) =~= spec_u16_to_le_bytes(h.version));
    assert(d.subrange(10, 14) =~= spec_u32_to_le_bytes(n as u32));
    assert(u32_at(d, 10) as int == n);
    assert(d.subrange(14, p as int) =~= name);
    assert(d.subrange(p as int, p + 4) =~= spec_u32_to_le_bytes(h.vocab_size));
    assert(d.subrange(p + 4, p + 8) =~= spec_u32_to_le_bytes(h.context_window));
    assert(d[p + 8] == h.ngram_orders);
    assert(d.subrange(p + 9, p + 17) =~= spec_u64_to_le_bytes(h.total_associations));
    assert(d.subrange(p + 17, p + 25) =~= spec_u64_to_le_bytes(h.training_tokens_seen));
    assert(d.subrange(p + 25, p + 33) =~= spec_u64_to_le_bytes(h.created_at));
    assert(d.subrange(p + 33, p + 37) =~= spec_u32_to_le_bytes(h.data_checksum));
    assert(d.subrange(p + 37, p + 45) =~= spec_u64_to_le_bytes(h.tokenizer_offset));
    assert(d.subrange(p + 45, p + 53) =~= spec_u64_to_le_bytes(h.brain_offset));
}

} // verus!
