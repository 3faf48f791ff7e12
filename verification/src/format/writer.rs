//! Writing a `brain.sllm` file: the header, the serialized tokenizer and the
//! serialized brain, back to back, with a CRC-32 of the two data sections in
//! the header.

use vstd::prelude::*;
use vstd::utf8::encode_utf8;
use crate::bytes::push_all;
use crate::brain::ngram::{brain_bytes, brain_wf, restored, sum_totals, table_fits, BrainView, lemma_brain_roundtrip};
use crate::brain::NgramBrain;
use crate::tokenizer::bpe::{lemma_tokenizer_roundtrip, rule_entries, tokenizer_bytes, RuleView};
use crate::tokenizer::vocab::tokens_fit;
use crate::tokenizer::BpeTokenizer;
use crate::{DEFAULT_CONTEXT_WINDOW, SLLM_VERSION};
use super::header::{fixed_header_size, header_bytes, lemma_header_roundtrip, BrainHeader, HeaderView};
use super::reader::{crc32, crc32_ieee, model_accepted, parse_model};
use super::FormatError;

verus! {

/// The header a model is written with: format version 1, the default
/// context window, n-gram orders up to 5, the brain's totals, the CRC-32 of
/// the tokenizer and brain sections, and the offsets of both sections.
pub open spec fn written_header(
    name: Seq<char>,
    toks: Seq<Seq<char>>,
    rules: Seq<RuleView>,
    b: BrainView,
    created_at: u64,
) -> HeaderView {
    let tb = tokenizer_bytes(toks, rules);
    let hsize = fixed_header_size() + encode_utf8(name).len();
    HeaderView {
        version: 1,
        model_name: name,
        vocab_size: toks.len() as u32,
        context_window: 128,
        ngram_orders: 5,
        total_associations: sum_totals(b.tables) as u64,
        training_tokens_seen: b.tokens_trained,
        created_at,
        data_checksum: crc32_ieee(tb + brain_bytes(b)),
        tokenizer_offset: hsize as u64,
        brain_offset: (hsize + tb.len()) as u64,
    }
}

/// The bytes of a model file: the written header, the tokenizer, the brain.
pub open spec fn model_bytes(
    name: Seq<char>,
    toks: Seq<Seq<char>>,
    rules: Seq<RuleView>,
    b: BrainView,
    created_at: u64,
) -> Seq<u8> {
    header_bytes(written_header(name, toks, rules, b, created_at)) + tokenizer_bytes(toks, rules) + brain_bytes(b)
}

/// Writes a trained sLLM model to a `brain.sllm` file.
pub struct BrainWriter;

impl BrainWriter {
    /// The bytes of a model file for `model_name`, `tokenizer` and `brain`,
    /// stamped with `created_at` (seconds since the Unix epoch).
    pub fn encode(model_name: &str, tokenizer: &BpeTokenizer, brain: &NgramBrain, created_at: u64) -> (bytes: Vec<u8>)
        requires
            sum_totals(brain@.tables) <= u64::MAX,
            fixed_header_size() + encode_utf8(model_name@).len() + tokenizer_bytes(tokenizer.tokens(), tokenizer.rules()).len()
                <= u64::MAX,
            fixed_header_size() + encode_utf8(model_name@).len() <= usize::MAX,
        ensures
            bytes@ == model_bytes(model_name@, tokenizer.tokens(), tokenizer.rules(), brain@, created_at),
    {
        let tokenizer_bytes = tokenizer.to_bytes();
        let brain_bytes = brain.to_bytes();
        let mut sections: Vec<u8> = Vec::new();
        push_all(&mut sections, tokenizer_bytes.as_slice());
        push_all(&mut sections, brain_bytes.as_slice());
        assert(sections@ =~= tokenizer_bytes@ + brain_bytes@);
        let checksum = crc32(sections.as_slice());
        let mut header = BrainHeader {
            version: SLLM_VERSION,
            model_name: model_name.to_string(),
            vocab_size: tokenizer.vocab().len() as u32,
            context_window: DEFAULT_CONTEXT_WINDOW,
            ngram_orders: 5,
            total_associations: brain.total_associations(),
            training_tokens_seen: brain.tokens_trained(),
            created_at,
            data_checksum: checksum,
            tokenizer_offset: 0,
            brain_offset: 0,
        };
        let header_size = header.actual_size() as u64;
        header.tokenizer_offset = header_size;
        header.brain_offset = header_size + tokenizer_bytes.len() as u64;
        let mut file_data = header.to_bytes();
        push_all(&mut file_data, sections.as_slice());
        assert(header@ == written_header(model_name@, tokenizer.tokens(), tokenizer.rules(), brain@, created_at));
        assert(file_data@ =~= model_bytes(model_name@, tokenizer.tokens(), tokenizer.rules(), brain@, created_at));
        file_data
    }
}

/// A header's bytes take the fixed size plus the model name's UTF-8 bytes.
pub proof fn lemma_header_len(h: HeaderView)
    ensures
        header_bytes(h).len() == fixed_header_size() + encode_utf8(h.model_name).len(),
{
    crate::bytes::lemma_u16_roundtrip(h.version);
    crate::bytes::lemma_u32_roundtrip(0);
    crate::bytes::lemma_u32_roundtrip(h.vocab_size);
    crate::bytes::lemma_u32_roundtrip(h.context_window);
    crate::bytes::lemma_u32_roundtrip(h.data_checksum);
    crate::bytes::lemma_u32_roundtrip((fixed_header_size() + encode_utf8(h.model_name).len()) as u32);
    crate::bytes::lemma_u32_roundtrip(encode_utf8(h.model_name).len() as u32);
    crate::bytes::lemma_u64_roundtrip(h.total_associations);
    crate::bytes::lemma_u64_roundtrip(h.training_tokens_seen);
    crate::bytes::lemma_u64_roundtrip(h.created_at);
    crate::bytes::lemma_u64_roundtrip(h.tokenizer_offset);
    crate::bytes::lemma_u64_roundtrip(h.brain_offset);
}

/// Reading a written model file gives back the written header, the same
/// tokenizer, and the brain with every table restored (same order and
/// entries, its counter the number of associations, no eviction budget); the
/// file is accepted, and the checksum computed on reading matches the one in
/// the header. This holds whenever the model's parts fit the format's
/// length fields.
pub proof fn lemma_write_read_roundtrip(
    name: Seq<char>,
    toks: Seq<Seq<char>>,
    rules: Seq<RuleView>,
    b: BrainView,
    created_at: u64,
)
    requires
        encode_utf8(name).len() <= u32::MAX,
        toks.len() <= u32::MAX,
        rules.len() <= u32::MAX,
        tokens_fit(toks),
        tokens_fit(rule_entries(rules)),
        brain_wf(b),
        forall|i: int| 0 <= i < b.tables.len() ==> table_fits(#[trigger] b.tables[i]),
        fixed_header_size() + encode_utf8(name).len() + tokenizer_bytes(toks, rules).len() <= u64::MAX,
    ensures
        ({
            let d = model_bytes(name, toks, rules, b, created_at);
            let h = written_header(name, toks, rules, b, created_at);
            &&& model_accepted(d)
            &&& parse_model(d) == Ok::<(HeaderView, Seq<Seq<char>>, Seq<RuleView>, BrainView), FormatError>(
                (
                    h,
                    toks,
                    rules,
                    BrainView {
                        tables: b.tables.map_values(|t: crate::brain::count_table::TableView| restored(t)),
                        weight_bits: b.weight_bits,
                        tokens_trained: b.tokens_trained,
                    },
                ),
            )
            &&& crc32_ieee(d.skip(h.tokenizer_offset as int)) == h.data_checksum
        }),
{
    let d = model_bytes(name, toks, rules, b, created_at);
    let h = written_header(name, toks, rules, b, created_at);
    let tb = tokenizer_bytes(toks, rules);
    let bb = brain_bytes(b);
    let hb = header_bytes(h);
    lemma_header_len(h);
    lemma_header_roundtrip(h, tb + bb);
    assert(d =~= hb + (tb + bb));
    let off = h.tokenizer_offset as int;
    assert(off == hb.len());
    assert(d.skip(off) =~= tb + bb);
    lemma_tokenizer_roundtrip(toks, rules, bb);
    assert(d.skip(off + tb.len()) =~= bb + Seq::<u8>::empty());
    lemma_brain_roundtrip(b, Seq::empty());
}

} // verus!
