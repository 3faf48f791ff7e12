//! BPE (byte-pair encoding) tokenizer: merge rules, encoding, decoding and
//! the serialized form of a trained tokenizer.

use vstd::prelude::*;
use vstd::bytes::{spec_u32_from_le_bytes, spec_u32_to_le_bytes};
use crate::bytes::{lemma_u32_roundtrip, push_all, push_u16, push_u32, read_u32};
use crate::text::{char_to_string, chars_of, str_eq};
use super::pretok::{pre_tokenize, pre_tokenize_spec};
use super::vocab::{
    all_specials, encode_id, entries_bytes, is_special_text, lemma_entries_bytes_push,
    lemma_parse_entries_len, lemma_parse_entries_of_bytes, lemma_strings_view_push, lemma_vocab_roundtrip_with_suffix,
    parse_entries, parse_vocab, read_entries, special_text, special_texts, strings_view, tokens_fit,
    vocab_bytes, SpecialToken, Vocab, VocabError,
};

verus! {

broadcast use vstd::string::group_string_axioms;

/// A merge rule as plain character sequences: (left, right, merged).
pub type RuleView = (Seq<char>, Seq<char>, Seq<char>);

/// A single BPE merge rule: combine two tokens into one.
#[derive(Debug, Clone)]
pub struct MergeRule {
    /// First token in the pair
    pub left: String,
    /// Second token in the pair
    pub right: String,
    /// Resulting merged token
    pub merged: String,
}

/// The characters of a merge rule's three strings.
pub open spec fn rule_view(r: MergeRule) -> RuleView {
    (r.left@, r.right@, r.merged@)
}

/// The character sequences of a list of merge rules.
pub open spec fn rules_view(rs: Seq<MergeRule>) -> Seq<RuleView> {
    rs.map_values(|r: MergeRule| rule_view(r))
}

/// Replaces, from left to right, every non-overlapping adjacent pair
/// `(l, r)` of symbols in `w` by the single symbol `m`.
pub open spec fn merge_word(w: Seq<Seq<char>>, l: Seq<char>, r: Seq<char>, m: Seq<char>) -> Seq<
    Seq<char>,
>
    decreases w.len(),
{
    if w.len() == 0 {
        seq![]
    } else if w.len() >= 2 && w[0] == l && w[1] == r {
        seq![m] + merge_word(w.skip(2), l, r, m)
    } else {
        seq![w[0]] + merge_word(w.skip(1), l, r, m)
    }
}

/// Applies the merge rules to a word's symbols, in order.
pub open spec fn apply_rules(syms: Seq<Seq<char>>, rules: Seq<RuleView>) -> Seq<Seq<char>>
    decreases rules.len(),
{
    if rules.len() == 0 {
        syms
    } else {
        apply_rules(merge_word(syms, rules[0].0, rules[0].1, rules[0].2), rules.drop_first())
    }
}

/// A word split into one-character symbols.
pub open spec fn char_symbols(w: Seq<char>) -> Seq<Seq<char>> {
    Seq::new(w.len(), |i: int| seq![w[i]])
}

/// The final symbols of a word: its characters with all merge rules applied.
pub open spec fn word_symbols(rules: Seq<RuleView>, w: Seq<char>) -> Seq<Seq<char>> {
    apply_rules(char_symbols(w), rules)
}

/// Token ids of a sequence of symbols.
pub open spec fn symbol_ids(toks: Seq<Seq<char>>, syms: Seq<Seq<char>>) -> Seq<u16>
    decreases syms.len(),
{
    if syms.len() == 0 {
        seq![]
    } else {
        symbol_ids(toks, syms.drop_last()).push(encode_id(toks, syms.last()))
    }
}

/// Token ids of a sequence of pre-tokenized words.
pub open spec fn words_ids(toks: Seq<Seq<char>>, rules: Seq<RuleView>, words: Seq<Seq<char>>) -> Seq<
    u16,
>
    decreases words.len(),
{
    if words.len() == 0 {
        seq![]
    } else {
        words_ids(toks, rules, words.drop_last()) + symbol_ids(
            toks,
            word_symbols(rules, words.last()),
        )
    }
}

/// Encoding of a text: pre-tokenize, apply the merges to every piece, and
/// look every final symbol up in the vocabulary (unknown symbols give UNK).
pub open spec fn encode_spec(toks: Seq<Seq<char>>, rules: Seq<RuleView>, text: Seq<char>) -> Seq<
    u16,
> {
    words_ids(toks, rules, pre_tokenize_spec(text))
}

/// The text a token id decodes to: its string, unless the id is out of range
/// or names a special token, which decode to nothing.
pub open spec fn decode_id(toks: Seq<Seq<char>>, id: u16) -> Seq<char> {
    if (id as int) < toks.len() && !is_special_text(toks[id as int]) {
        toks[id as int]
    } else {
        seq![]
    }
}

/// Decoding of a sequence of ids: the texts of the ids, concatenated.
pub open spec fn decode_spec(toks: Seq<Seq<char>>, ids: Seq<u16>) -> Seq<char>
    decreases ids.len(),
{
    if ids.len() == 0 {
        seq![]
    } else {
        decode_spec(toks, ids.drop_last()) + decode_id(toks, ids.last())
    }
}

/// A word split into one-character strings.
pub fn char_strings(word: &str) -> (symbols: Vec<String>)
    ensures
        strings_view(symbols@) == char_symbols(word@),
{
    let cs = chars_of(word);
    let mut symbols: Vec<String> = Vec::new();
    let mut k: usize = 0;
    while k < cs.len()
        invariant
            cs@ == word@,
            0 <= k <= cs@.len(),
            strings_view(symbols@) == char_symbols(word@).take(k as int),
        decreases cs@.len() - k,
    {
        let ghost before = symbols@;
        let one = char_to_string(cs[k]);
        symbols.push(one);
        proof {
            lemma_strings_view_push(before, one);
            assert(char_symbols(word@)[k as int] == seq![cs@[k as int]]);
        }
        k = k + 1;
        assert(strings_view(symbols@) =~= char_symbols(word@).take(k as int));
    }
    assert(char_symbols(word@).take(cs@.len() as int) =~= char_symbols(word@));
    symbols
}

/// Apply a single merge rule to a tokenized word.
pub fn apply_merge(word: &[String], left: &str, right: &str, merged: &str) -> (result: Vec<String>)
    ensures
        strings_view(result@) == merge_word(strings_view(word@), left@, right@, merged@),
{
    let ghost w = strings_view(word@);
    let n = word.len();
    let mut result: Vec<String> = Vec::new();
    let mut i: usize = 0;
    assert(w.skip(0) =~= w);
    while i < n
        invariant
            n == word@.len(),
            w == strings_view(word@),
            0 <= i <= n,
            strings_view(result@) + merge_word(w.skip(i as int), left@, right@, merged@) == merge_word(
                w,
                left@,
                right@,
                merged@,
            ),
        decreases n - i,
    {
        let ghost rest = w.skip(i as int);
        let ghost before = strings_view(result@);
        if i + 1 < n && str_eq(word[i].as_str(), left) && str_eq(word[i + 1].as_str(), right) {
            proof {
                assert(rest[0] == w[i as int]);
                assert(rest[1] == w[i + 1]);
                assert(rest.skip(2) =~= w.skip(i + 2));
            }
            result.push(merged.to_string());
            proof {
                assert(strings_view(result@) =~= before.push(merged@));
                assert(before.push(merged@) + merge_word(w.skip(i + 2), left@, right@, merged@)
                    =~= before + (seq![merged@] + merge_word(w.skip(i + 2), left@, right@, merged@)));
            }
            i = i + 2;
        } else {
            proof {
                assert(rest[0] == w[i as int]);
                if i + 1 < n {
                    assert(rest[1] == w[i + 1]);
                }
                assert(rest.skip(1) =~= w.skip(i + 1));
            }
            result.push(word[i].clone());
            proof {
                assert(strings_view(result@) =~= before.push(w[i as int]));
                assert(before.push(w[i as int]) + merge_word(w.skip(i + 1), left@, right@, merged@)
                    =~= before + (seq![w[i as int]] + merge_word(w.skip(i + 1), left@, right@, merged@)));
            }
            i = i + 1;
        }
    }
    assert(w.skip(n as int) =~= Seq::<Seq<char>>::empty());
    assert(strings_view(result@) + Seq::<Seq<char>>::empty() =~= strings_view(result@));
    result
}

/// BPE tokenizer that can encode text to token IDs and decode back.
#[derive(Debug, Clone)]
pub struct BpeTokenizer {
    /// The token vocabulary
    pub vocab: Vocab,
    /// Ordered list of merge rules (applied in priority order)
    merge_rules: Vec<MergeRule>,
}

impl BpeTokenizer {
    /// The vocabulary's tokens, in id order.
    pub closed spec fn tokens(&self) -> Seq<Seq<char>> {
        self.vocab@
    }

    /// The merge rules, in the order they are applied.
    pub closed spec fn rules(&self) -> Seq<RuleView> {
        rules_view(self.merge_rules@)
    }

    /// Builds a tokenizer from a vocabulary and its merge rules.
    pub fn from_parts(vocab: Vocab, merge_rules: Vec<MergeRule>) -> (t: Self)
        ensures
            t.tokens() == vocab@,
            t.rules() == rules_view(merge_rules@),
    {
        BpeTokenizer { vocab, merge_rules }
    }

    /// The merge rules, in the order they are applied.
    pub fn merge_rules(&self) -> (rs: &[MergeRule])
        ensures
            rules_view(rs@) == self.rules(),
    {
        self.merge_rules.as_slice()
    }

    /// The final symbols of one word.
    fn word_symbols_exec(&self, word: &str) -> (syms: Vec<String>)
        ensures
            strings_view(syms@) == word_symbols(self.rules(), word@),
    {
        let mut symbols = char_strings(word);
        let nrules = self.merge_rules.len();
        let mut r: usize = 0;
        assert(self.rules().skip(0) =~= self.rules());
        while r < nrules
            invariant
                nrules == self.rules().len(),
                0 <= r <= nrules,
                apply_rules(strings_view(symbols@), self.rules().skip(r as int)) == word_symbols(
                    self.rules(),
                    word@,
                ),
            decreases nrules - r,
        {
            let rule = &self.merge_rules[r];
            proof {
                let rest = self.rules().skip(r as int);
                assert(rest[0] == rule_view(*rule));
                assert(rest.drop_first() =~= self.rules().skip(r + 1));
            }
            symbols = apply_merge(symbols.as_slice(), rule.left.as_str(), rule.right.as_str(), rule.merged.as_str());
            r = r + 1;
        }
        assert(self.rules().skip(nrules as int) =~= Seq::<RuleView>::empty());
        symbols
    }

    /// Encode text into a sequence of token IDs.
    pub fn encode(&self, text: &str) -> (ids: Vec<u16>)
        ensures
            ids@ == encode_spec(self.tokens(), self.rules(), text@),
    {
        let words = pre_tokenize(text);
        let ghost ws = strings_view(words@);
        let mut token_ids: Vec<u16> = Vec::new();
        let mut w: usize = 0;
        while w < words.len()
            invariant
                ws == strings_view(words@),
                ws == pre_tokenize_spec(text@),
                0 <= w <= ws.len(),
                token_ids@ == words_ids(self.vocab@, self.rules(), ws.take(w as int)),
            decreases ws.len() - w,
        {
            let symbols = self.word_symbols_exec(words[w].as_str());
            let ghost syms = strings_view(symbols@);
            let ghost base = token_ids@;
            let mut k: usize = 0;
            while k < symbols.len()
                invariant
                    syms == strings_view(symbols@),
                    0 <= k <= syms.len(),
                    token_ids@ == base + symbol_ids(self.vocab@, syms.take(k as int)),
                decreases syms.len() - k,
            {
                let id = self.vocab.encode_token(symbols[k].as_str());
                token_ids.push(id);
                proof {
                    assert(syms.take(k + 1).drop_last() =~= syms.take(k as int));
                    assert(syms.take(k + 1).last() == syms[k as int]);
                }
                k = k + 1;
                assert(token_ids@ =~= base + symbol_ids(self.vocab@, syms.take(k as int)));
            }
            proof {
                assert(syms.take(syms.len() as int) =~= syms);
                assert(ws.take(w + 1).drop_last() =~= ws.take(w as int));
                assert(ws.take(w + 1).last() == ws[w as int]);
            }
            w = w + 1;
        }
        assert(ws.take(ws.len() as int) =~= ws);
        token_ids
    }

    /// Decode a sequence of token IDs back into text.
    pub fn decode(&self, token_ids: &[u16]) -> (text: String)
        ensures
            text@ == decode_spec(self.tokens(), token_ids@),
    {
        let mut text = String::new();
        let n = token_ids.len();
        let mut i: usize = 0;
        while i < n
            invariant
                n == token_ids@.len(),
                0 <= i <= n,
                text@ == decode_spec(self.vocab@, token_ids@.take(i as int)),
            decreases n - i,
        {
            let id = token_ids[i];
            let ghost before = text@;
            match self.vocab.id_to_token(id) {
                Some(token) => {
                    if !is_special_str(token) {
                        text.append(token);
                    }
                },
                None => {},
            }
            proof {
                assert(token_ids@.take(i + 1).drop_last() =~= token_ids@.take(i as int));
                assert(token_ids@.take(i + 1).last() == id);
            }
            i = i + 1;
            assert(text@ =~= decode_spec(self.vocab@, token_ids@.take(i as int)));
        }
        assert(token_ids@.take(n as int) =~= token_ids@);
        text
    }

    /// Returns the vocabulary.
    pub fn vocab(&self) -> (v: &Vocab)
        ensures
            v@ == self.tokens(),
    {
        &self.vocab
    }

    /// Returns the number of merge rules learned.
    pub fn num_merges(&self) -> (n: usize)
        ensures
            n == self.rules().len(),
    {
        self.merge_rules.len()
    }
}

/// Whether `s` is the text of one of the special tokens.
fn is_special_str(s: &str) -> (r: bool)
    ensures
        r == is_special_text(s@),
{
    let all = SpecialToken::all();
    let mut i: usize = 0;
    while i < all.len()
        invariant
            all@ == all_specials(),
            0 <= i <= 8,
            forall|j: int| 0 <= j < i ==> special_texts()[j] != s@,
        decreases 8 - i,
    {
        assert(special_texts()[i as int] == special_text(all_specials()[i as int]));
        if str_eq(all[i].as_str(), s) {
            return true;
        }
        i = i + 1;
    }
    false
}

/// Errors from decoding a serialized tokenizer.
#[derive(Debug, Clone, Copy, PartialEq, Eq, Structural)]
pub enum TokenizerError {
    /// The vocabulary part could not be decoded.
    Vocab(VocabError),
    /// The data ended before the merge rules were complete.
    TruncatedData,
    /// A merge rule string was not valid UTF-8.
    InvalidUtf8,
}

/// The strings of a list of rules, three per rule: left, right, merged.
pub open spec fn rule_entries(rs: Seq<RuleView>) -> Seq<Seq<char>>
    decreases rs.len(),
{
    if rs.len() == 0 {
        seq![]
    } else {
        rule_entries(rs.drop_last()) + seq![rs.last().0, rs.last().1, rs.last().2]
    }
}

/// Groups a list of strings into rules, three strings per rule.
pub open spec fn rules_of_entries(es: Seq<Seq<char>>) -> Seq<RuleView>
    decreases es.len(),
{
    if es.len() < 3 {
        seq![]
    } else {
        rules_of_entries(es.subrange(0, es.len() - 3)).push(
            (es[es.len() - 3], es[es.len() - 2], es[es.len() - 1]),
        )
    }
}

/// Serialized form of a tokenizer: its vocabulary, the number of merge rules
/// as a 32-bit little-endian number, then each rule's left, right and merged
/// strings in the vocabulary's entry format.
pub open spec fn tokenizer_bytes(toks: Seq<Seq<char>>, rules: Seq<RuleView>) -> Seq<u8> {
    vocab_bytes(toks) + spec_u32_to_le_bytes(rules.len() as u32) + entries_bytes(rule_entries(rules))
}

/// Parses a serialized tokenizer from the front of `d`: vocabulary, merge
/// rules and bytes consumed, or the first error met.
pub open spec fn parse_tokenizer(d: Seq<u8>) -> Result<(Seq<Seq<char>>, Seq<RuleView>, nat), TokenizerError> {
    match parse_vocab(d) {
        Err(e) => Err(TokenizerError::Vocab(e)),
        Ok((toks, p)) => {
            if p + 4 > d.len() {
                Err(TokenizerError::TruncatedData)
            } else {
                let k = spec_u32_from_le_bytes(d.subrange(p as int, p as int + 4));
                match parse_entries(d.skip(p as int + 4), (3 * k) as nat) {
                    Err(VocabError::TruncatedData) => Err(TokenizerError::TruncatedData),
                    Err(VocabError::InvalidUtf8) => Err(TokenizerError::InvalidUtf8),
                    Ok((es, used)) => Ok((toks, rules_of_entries(es), (p + 4 + used) as nat)),
                }
            }
        },
    }
}

proof fn lemma_rules_of_rule_entries(rs: Seq<RuleView>)
    ensures
        rule_entries(rs).len() == 3 * rs.len(),
        rules_of_entries(rule_entries(rs)) == rs,
    decreases rs.len(),
{
    if rs.len() > 0 {
        lemma_rules_of_rule_entries(rs.drop_last());
        let es = rule_entries(rs);
        assert(es.subrange(0, es.len() - 3) =~= rule_entries(rs.drop_last()));
        assert(rs.drop_last().push(rs.last()) =~= rs);
    } else {
        assert(rs =~= Seq::<RuleView>::empty());
    }
}

impl BpeTokenizer {
    /// Serialize the tokenizer (vocab + merges) to bytes.
    pub fn to_bytes(&self) -> (buf: Vec<u8>)
        ensures
            buf@ == tokenizer_bytes(self.tokens(), self.rules()),
    {
        let mut buf = self.vocab.to_bytes();
        let n = self.merge_rules.len();
        push_u32(&mut buf, n as u32);
        let ghost head = buf@;
        let mut r: usize = 0;
        while r < n
            invariant
                n == self.rules().len(),
                0 <= r <= n,
                buf@ == head + entries_bytes(rule_entries(self.rules().take(r as int))),
            decreases n - r,
        {
            let rule = &self.merge_rules[r];
            let ghost es = rule_entries(self.rules().take(r as int));
            let lb = rule.left.as_str().as_bytes();
            push_u16(&mut buf, lb.len() as u16);
            push_all(&mut buf, lb);
            let rb = rule.right.as_str().as_bytes();
            push_u16(&mut buf, rb.len() as u16);
            push_all(&mut buf, rb);
            let mb = rule.merged.as_str().as_bytes();
            push_u16(&mut buf, mb.len() as u16);
            push_all(&mut buf, mb);
            proof {
                lemma_entries_bytes_push(es, rule.left@);
                lemma_entries_bytes_push(es.push(rule.left@), rule.right@);
                lemma_entries_bytes_push(es.push(rule.left@).push(rule.right@), rule.merged@);
                assert(self.rules()[r as int] == rule_view(*rule));
                assert(self.rules().take(r + 1).drop_last() =~= self.rules().take(r as int));
                assert(rule_entries(self.rules().take(r + 1)) =~= es.push(rule.left@).push(rule.right@).push(
                    rule.merged@,
                ));
            }
            r = r + 1;
        }
        assert(self.rules().take(n as int) =~= self.rules());
        buf
    }

    /// Deserialize a tokenizer from bytes; on success also returns the number
    /// of bytes consumed.
    pub fn from_bytes(data: &[u8]) -> (r: Result<(Self, usize), TokenizerError>)
        ensures
            match r {
                Ok((t, used)) => used <= data@.len() && parse_tokenizer(data@) == Ok::<
                    (Seq<Seq<char>>, Seq<RuleView>, nat),
                    TokenizerError,
                >((t.tokens(), t.rules(), used as nat)),
                Err(e) => parse_tokenizer(data@) == Err::<
                    (Seq<Seq<char>>, Seq<RuleView>, nat),
                    TokenizerError,
                >(e),
            },
    {
        let (vocab, pos) = match Vocab::from_bytes(data) {
            Ok(p) => p,
            Err(e) => {
                return Err(TokenizerError::Vocab(e));
            },
        };
        let dlen = data.len();
        if pos > dlen || 4 > dlen - pos {
            return Err(TokenizerError::TruncatedData);
        }
        let num_merges = read_u32(data, pos);
        let pos = pos + 4;
        let count: u64 = 3 * (num_merges as u64);
        let (es, end) = match read_entries(data, pos, count) {
            Ok(p) => p,
            Err(VocabError::TruncatedData) => {
                return Err(TokenizerError::TruncatedData);
            },
            Err(VocabError::InvalidUtf8) => {
                return Err(TokenizerError::InvalidUtf8);
            },
        };
        let ghost ev = strings_view(es@);
        proof {
            lemma_parse_entries_len(data@.skip(pos as int), count as nat);
        }
        let elen = es.len();
        let mut merge_rules: Vec<MergeRule> = Vec::new();
        let mut k: usize = 0;
        let nm = num_merges as usize;
        while k < nm
            invariant
                ev == strings_view(es@),
                ev.len() == 3 * nm,
                elen == es@.len(),
                elen == ev.len(),
                0 <= k <= nm,
                rules_view(merge_rules@) == rules_of_entries(ev.take(3 * k)),
            decreases nm - k,
        {
            let rule = MergeRule {
                left: es[3 * k].clone(),
                right: es[3 * k + 1].clone(),
                merged: es[3 * k + 2].clone(),
            };
            let ghost before = merge_rules@;
            merge_rules.push(rule);
            proof {
                let t = ev.take(3 * k + 3);
                assert(t.subrange(0, t.len() - 3) =~= ev.take(3 * k));
                assert(rules_view(merge_rules@) =~= rules_view(before).push(rule_view(rule)));
            }
            k = k + 1;
        }
        assert(ev.take(3 * nm) =~= ev);
        Ok((BpeTokenizer { vocab, merge_rules }, end))
    }
}

/// Serializing a tokenizer and parsing the bytes back gives the same
/// vocabulary and merge rules and consumes exactly the serialized bytes,
/// whenever the counts fit in 32 bits and every string fits in 16 bits.
pub proof fn lemma_tokenizer_roundtrip(toks: Seq<Seq<char>>, rules: Seq<RuleView>, rest: Seq<u8>)
    requires
        toks.len() <= u32::MAX,
        rules.len() <= u32::MAX,
        tokens_fit(toks),
        tokens_fit(rule_entries(rules)),
    ensures
        parse_tokenizer(tokenizer_bytes(toks, rules) + rest) == Ok::<
            (Seq<Seq<char>>, Seq<RuleView>, nat),
            TokenizerError,
        >((toks, rules, tokenizer_bytes(toks, rules).len())),
{
    let vb = vocab_bytes(toks);
    let hdr = spec_u32_to_le_bytes(rules.len() as u32);
    let eb = entries_bytes(rule_entries(rules));
    let d = tokenizer_bytes(toks, rules) + rest;
    assert(d =~= vb + (hdr + eb + rest));
    lemma_vocab_roundtrip_with_suffix(toks, hdr + eb + rest);
    lemma_u32_roundtrip(rules.len() as u32);
    let p = vb.len();
    assert(d.subrange(p as int, p as int + 4) =~= hdr);
    assert(d.skip(p as int + 4) =~= eb + rest);
    lemma_rules_of_rule_entries(rules);
    lemma_parse_entries_of_bytes(rule_entries(rules), rest);
}

} // verus!
