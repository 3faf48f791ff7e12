//! Cut-off tokenizer bytes: a strict prefix of a serialized tokenizer is
//! refused as truncated, inside the vocabulary as a vocabulary error and
//! after it as a tokenizer error.

use vstd::prelude::*;
use vstd::bytes::spec_u32_from_le_bytes;
use vstd::utf8::valid_utf8;
use crate::brain::codec::agree;
use super::bpe::{lemma_tokenizer_roundtrip, parse_tokenizer, rule_entries, tokenizer_bytes, RuleView, TokenizerError};
use super::vocab::{
    lemma_vocab_roundtrip_with_suffix, parse_entries, parse_vocab, tokens_fit, vocab_bytes, VocabError,
};

verus! {

proof fn lemma_agree_subrange(a: Seq<u8>, b: Seq<u8>, n: nat, p: int, q: int)
    requires
        agree(a, b, n),
        0 <= p <= q <= n,
    ensures
        a.subrange(p, q) == b.subrange(p, q),
{
    assert(a.subrange(p, q) =~= b.subrange(p, q));
}

proof fn lemma_agree_skip(a: Seq<u8>, b: Seq<u8>, n: nat, s: int)
    requires
        agree(a, b, n),
        0 <= s <= n,
    ensures
        agree(a.skip(s), b.skip(s), (n - s) as nat),
{
    assert forall|i: int| 0 <= i < n - s implies a.skip(s)[i] == b.skip(s)[i] by {
        assert(a.skip(s)[i] == a[s + i] && b.skip(s)[i] == b[s + i]);
    }
}

/// Parsing token entries from a prefix `p` of `d` either runs out of data,
/// or gives what parsing `d` gives, using no more than `p`.
proof fn lemma_parse_entries_prefix(p: Seq<u8>, d: Seq<u8>, k: nat)
    requires
        agree(p, d, p.len()),
        parse_entries(p, k) != Err::<(Seq<Seq<char>>, nat), VocabError>(VocabError::TruncatedData),
    ensures
        parse_entries(d, k) == parse_entries(p, k),
        parse_entries(p, k) matches Ok((_, used)) ==> used <= p.len(),
    decreases k,
{
    if k > 0 {
        lemma_agree_subrange(p, d, p.len(), 0, 2);
        let l = vstd::bytes::spec_u16_from_le_bytes(p.subrange(0, 2)) as int;
        lemma_agree_subrange(p, d, p.len(), 2, 2 + l);
        if valid_utf8(p.subrange(2, 2 + l)) {
            lemma_agree_skip(p, d, p.len(), 2 + l);
            lemma_parse_entries_prefix(p.skip(2 + l), d.skip(2 + l), (k - 1) as nat);
        }
    }
}

/// Parsing a vocabulary from a prefix `p` of `d` either runs out of data, or
/// gives what parsing `d` gives, using no more than `p`.
proof fn lemma_parse_vocab_prefix(p: Seq<u8>, d: Seq<u8>)
    requires
        agree(p, d, p.len()),
        parse_vocab(p) != Err::<(Seq<Seq<char>>, nat), VocabError>(VocabError::TruncatedData),
    ensures
        parse_vocab(d) == parse_vocab(p),
        parse_vocab(p) matches Ok((_, used)) ==> used <= p.len(),
{
    lemma_agree_subrange(p, d, p.len(), 0, 4);
    let k = spec_u32_from_le_bytes(p.subrange(0, 4)) as nat;
    lemma_agree_skip(p, d, p.len(), 4);
    if parse_entries(p.skip(4), k) != Err::<(Seq<Seq<char>>, nat), VocabError>(VocabError::TruncatedData) {
        lemma_parse_entries_prefix(p.skip(4), d.skip(4), k);
    }
}

/// Every strict prefix of a serialized tokenizer (the empty one included) is
/// refused as truncated: with the vocabulary's truncation error while the
/// vocabulary is incomplete, and with the tokenizer's own after it.
pub proof fn lemma_tokenizer_prefix_truncated(toks: Seq<Seq<char>>, rules: Seq<RuleView>, k: int)
    requires
        toks.len() <= u32::MAX,
        rules.len() <= u32::MAX,
        tokens_fit(toks),
        tokens_fit(rule_entries(rules)),
        0 <= k < tokenizer_bytes(toks, rules).len(),
    ensures
        k < vocab_bytes(toks).len() ==> parse_tokenizer(tokenizer_bytes(toks, rules).take(k)) == Err::<
            (Seq<Seq<char>>, Seq<RuleView>, nat),
            TokenizerError,
        >(TokenizerError::Vocab(VocabError::TruncatedData)),
        k >= vocab_bytes(toks).len() ==> parse_tokenizer(tokenizer_bytes(toks, rules).take(k)) == Err::<
            (Seq<Seq<char>>, Seq<RuleView>, nat),
            TokenizerError,
        >(TokenizerError::TruncatedData),
{
    let full = tokenizer_bytes(toks, rules);
    let p = full.take(k);
    let vb = vocab_bytes(toks);
    assert(agree(p, full, p.len()));
    lemma_tokenizer_roundtrip(toks, rules, Seq::empty());
    assert(full + Seq::<u8>::empty() =~= full);
    let rest = full.subrange(vb.len() as int, full.len() as int);
    assert(full =~= vb + rest);
    lemma_vocab_roundtrip_with_suffix(toks, rest);
    if k < vb.len() {
        if parse_vocab(p) != Err::<(Seq<Seq<char>>, nat), VocabError>(VocabError::TruncatedData) {
            lemma_parse_vocab_prefix(p, full);
        }
    } else {
        let prest = p.subrange(vb.len() as int, k);
        assert(p =~= vb + prest);
        lemma_vocab_roundtrip_with_suffix(toks, prest);
        let pv = vb.len() as int;
        if pv + 4 <= p.len() {
            lemma_agree_subrange(p, full, p.len(), pv, pv + 4);
            let cnt = spec_u32_from_le_bytes(p.subrange(pv, pv + 4));
            let ps = p.skip(pv + 4);
            let fs = full.skip(pv + 4);
            lemma_agree_skip(p, full, p.len(), pv + 4);
            if parse_entries(ps, (3 * cnt) as nat) != Err::<(Seq<Seq<char>>, nat), VocabError>(VocabError::TruncatedData) {
                lemma_parse_entries_prefix(ps, fs, (3 * cnt) as nat);
            }
        }
    }
}

} // verus!
