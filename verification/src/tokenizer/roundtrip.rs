//! The tokenizer's central law: decoding the encoding of a text gives the
//! text back, whenever the merge rules are well formed and every symbol the
//! encoding produces is in the vocabulary.

use vstd::prelude::*;
use super::bpe::{
    apply_rules, char_symbols, decode_id, decode_spec, encode_spec, merge_word, symbol_ids,
    word_symbols, words_ids, RuleView,
};
use super::pretok::{flatten, is_single, joins, pre_tokenize_spec};
use super::vocab::{encode_id, is_special_text, last_index, lookup_id, special_texts};

verus! {

/// Every rule's merged string is its left string followed by its right string.
pub open spec fn rules_well_formed(rules: Seq<RuleView>) -> bool {
    forall|k: int| 0 <= k < rules.len() ==> #[trigger] rules[k].2 == rules[k].0 + rules[k].1
}

/// Every symbol that encoding `text` produces is found in the vocabulary at
/// a position that fits a 16-bit id.
pub open spec fn all_symbols_known(toks: Seq<Seq<char>>, rules: Seq<RuleView>, text: Seq<char>) -> bool {
    let words = pre_tokenize_spec(text);
    forall|i: int, j: int|
        0 <= i < words.len() && 0 <= j < word_symbols(rules, words[i]).len() ==> 0 <= last_index(
            toks,
            #[trigger] word_symbols(rules, words[i])[j],
        ) < 65536
}

/// A piece is a single character, or holds no single-piece character at all.
pub open spec fn piece_ok(p: Seq<char>) -> bool {
    p.len() >= 1 && (p.len() == 1 || forall|j: int| 0 <= j < p.len() ==> !is_single(#[trigger] p[j]))
}

proof fn lemma_flatten_cons(a: Seq<char>, y: Seq<Seq<char>>)
    ensures
        flatten(seq![a] + y) == a + flatten(y),
{
    let x = seq![a] + y;
    assert(x[0] == a);
    assert(x.drop_first() =~= y);
}

/// Concatenating one more sequence appends it to the concatenation.
pub(crate) proof fn lemma_flatten_push(ws: Seq<Seq<char>>, w: Seq<char>)
    ensures
        flatten(ws.push(w)) == flatten(ws) + w,
    decreases ws.len(),
{
    if ws.len() == 0 {
        lemma_flatten_cons(w, Seq::empty());
        assert(ws.push(w) =~= seq![w] + Seq::<Seq<char>>::empty());
        assert(flatten(Seq::<Seq<char>>::empty()) =~= Seq::<char>::empty());
        assert(flatten(ws.push(w)) =~= w);
        assert(flatten(ws) =~= Seq::<char>::empty());
    } else {
        assert(ws.push(w).drop_first() =~= ws.drop_first().push(w));
        lemma_flatten_push(ws.drop_first(), w);
        assert(flatten(ws.push(w)) =~= flatten(ws) + w);
    }
}

/// Concatenation distributes over joining two lists of sequences.
pub(crate) proof fn lemma_flatten_append(a: Seq<Seq<char>>, b: Seq<Seq<char>>)
    ensures
        flatten(a + b) == flatten(a) + flatten(b),
    decreases a.len(),
{
    if a.len() == 0 {
        assert(a + b =~= b);
        assert(flatten(a) + flatten(b) =~= flatten(b));
    } else {
        assert((a + b).drop_first() =~= a.drop_first() + b);
        lemma_flatten_append(a.drop_first(), b);
        assert(flatten(a + b) =~= flatten(a) + flatten(b));
    }
}

/// Pre-tokenization loses nothing: its pieces concatenate to the text, every
/// piece is non-empty, the first piece starts with the first character, and
/// a piece holding a single-piece character is that character alone.
pub proof fn lemma_pre_tokenize_pieces(s: Seq<char>)
    ensures
        flatten(pre_tokenize_spec(s)) == s,
        forall|i: int| 0 <= i < pre_tokenize_spec(s).len() ==> piece_ok(#[trigger] pre_tokenize_spec(s)[i]),
        s.len() > 0 ==> pre_tokenize_spec(s).len() > 0 && pre_tokenize_spec(s)[0][0] == s[0],
    decreases s.len(),
{
    if s.len() > 0 {
        let tail = s.drop_first();
        lemma_pre_tokenize_pieces(tail);
        let rest = pre_tokenize_spec(tail);
        let ps = pre_tokenize_spec(s);
        if s.len() > 1 && joins(s[0], s[1]) {
            assert(rest.len() > 0);
            assert(rest[0][0] == tail[0]);
            assert(piece_ok(rest[0]));
            let p = seq![s[0]] + rest[0];
            assert(ps[0] == p);
            assert forall|j: int| 0 <= j < p.len() implies !is_single(#[trigger] p[j]) by {
                if j == 0 {
                } else {
                    assert(p[j] == rest[0][j - 1]);
                    if rest[0].len() == 1 {
                        assert(rest[0][0] == s[1]);
                    }
                }
            }
            assert forall|i: int| 0 <= i < ps.len() implies piece_ok(#[trigger] ps[i]) by {
                if i > 0 {
                    assert(ps[i] == rest[i]);
                }
            }
            assert(flatten(rest) == rest[0] + flatten(rest.drop_first()));
            lemma_flatten_cons(p, rest.drop_first());
            assert(flatten(ps) == p + flatten(rest.drop_first()));
            assert(s =~= seq![s[0]] + tail);
            assert(flatten(ps) =~= s);
        } else {
            assert forall|i: int| 0 <= i < ps.len() implies piece_ok(#[trigger] ps[i]) by {
                if i > 0 {
                    assert(ps[i] == rest[i - 1]);
                }
            }
            assert(ps.drop_first() =~= rest);
            lemma_flatten_cons(seq![s[0]], rest);
            assert(s =~= seq![s[0]] + tail);
            assert(flatten(ps) =~= s);
        }
    }
}

/// Merging with a well-formed rule keeps the concatenation of the symbols,
/// and keeps every symbol non-empty.
pub proof fn lemma_merge_word_flatten(w: Seq<Seq<char>>, l: Seq<char>, r: Seq<char>)
    requires
        forall|i: int| 0 <= i < w.len() ==> (#[trigger] w[i]).len() > 0,
    ensures
        flatten(merge_word(w, l, r, l + r)) == flatten(w),
        forall|i: int| 0 <= i < merge_word(w, l, r, l + r).len() ==> (#[trigger] merge_word(w, l, r, l + r)[i]).len() > 0,
    decreases w.len(),
{
    let m = merge_word(w, l, r, l + r);
    if w.len() == 0 {
    } else if w.len() >= 2 && w[0] == l && w[1] == r {
        let t = w.skip(2);
        assert forall|i: int| 0 <= i < t.len() implies (#[trigger] t[i]).len() > 0 by {
            assert(t[i] == w[i + 2]);
        }
        lemma_merge_word_flatten(t, l, r);
        assert(w.drop_first().drop_first() =~= t);
        assert(flatten(w) == w[0] + flatten(w.drop_first()));
        assert(flatten(w.drop_first()) == w[1] + flatten(t));
        lemma_flatten_cons(l + r, merge_word(t, l, r, l + r));
        assert(flatten(m) == (l + r) + flatten(merge_word(t, l, r, l + r)));
        assert(flatten(m) =~= flatten(w));
        assert forall|i: int| 0 <= i < m.len() implies (#[trigger] m[i]).len() > 0 by {
            if i > 0 {
                assert(m[i] == merge_word(t, l, r, l + r)[i - 1]);
            }
        }
    } else {
        let t = w.skip(1);
        assert forall|i: int| 0 <= i < t.len() implies (#[trigger] t[i]).len() > 0 by {
            assert(t[i] == w[i + 1]);
        }
        lemma_merge_word_flatten(t, l, r);
        assert(w.drop_first() =~= t);
        lemma_flatten_cons(w[0], merge_word(t, l, r, l + r));
        assert(flatten(m) =~= flatten(w));
        assert forall|i: int| 0 <= i < m.len() implies (#[trigger] m[i]).len() > 0 by {
            if i > 0 {
                assert(m[i] == merge_word(t, l, r, l + r)[i - 1]);
            }
        }
    }
}

proof fn lemma_apply_rules_flatten(syms: Seq<Seq<char>>, rules: Seq<RuleView>)
    requires
        rules_well_formed(rules),
        forall|i: int| 0 <= i < syms.len() ==> (#[trigger] syms[i]).len() > 0,
    ensures
        flatten(apply_rules(syms, rules)) == flatten(syms),
        forall|i: int| 0 <= i < apply_rules(syms, rules).len() ==> (#[trigger] apply_rules(syms, rules)[i]).len() > 0,
    decreases rules.len(),
{
    if rules.len() > 0 {
        let r0 = rules[0];
        assert(r0.2 == r0.0 + r0.1);
        lemma_merge_word_flatten(syms, r0.0, r0.1);
        let rest = rules.drop_first();
        assert forall|k: int| 0 <= k < rest.len() implies #[trigger] rest[k].2 == rest[k].0 + rest[k].1 by {
            assert(rest[k] == rules[k + 1]);
        }
        lemma_apply_rules_flatten(merge_word(syms, r0.0, r0.1, r0.2), rest);
    }
}

proof fn lemma_char_symbols_flatten(w: Seq<char>)
    ensures
        flatten(char_symbols(w)) == w,
        forall|i: int| 0 <= i < char_symbols(w).len() ==> (#[trigger] char_symbols(w)[i]).len() > 0,
    decreases w.len(),
{
    if w.len() > 0 {
        lemma_char_symbols_flatten(w.drop_first());
        assert(char_symbols(w).drop_first() =~= char_symbols(w.drop_first()));
        assert(flatten(char_symbols(w)) =~= w);
    }
}

/// Each of a list of sequences is no longer than their concatenation, and
/// every character of one occurs in the concatenation.
pub proof fn lemma_flatten_member(ss: Seq<Seq<char>>, i: int)
    requires
        0 <= i < ss.len(),
    ensures
        ss[i].len() <= flatten(ss).len(),
        forall|j: int| 0 <= j < ss[i].len() ==> flatten(ss).contains(#[trigger] ss[i][j]),
    decreases ss.len(),
{
    let f = flatten(ss);
    assert(f == ss[0] + flatten(ss.drop_first()));
    if i == 0 {
        assert forall|j: int| 0 <= j < ss[i].len() implies f.contains(#[trigger] ss[i][j]) by {
            assert(f[j] == ss[0][j]);
        }
    } else {
        lemma_flatten_member(ss.drop_first(), i - 1);
        assert(ss.drop_first()[i - 1] == ss[i]);
        let g = flatten(ss.drop_first());
        assert forall|j: int| 0 <= j < ss[i].len() implies f.contains(#[trigger] ss[i][j]) by {
            assert(g.contains(ss[i][j]));
            let k = choose|k: int| 0 <= k < g.len() && g[k] == ss[i][j];
            assert(f[ss[0].len() + k] == g[k]);
        }
    }
}

/// No symbol of a pre-tokenized piece is the text of a special token.
proof fn lemma_symbol_not_special(p: Seq<char>, syms: Seq<Seq<char>>, j: int)
    requires
        piece_ok(p),
        flatten(syms) == p,
        0 <= j < syms.len(),
    ensures
        !is_special_text(syms[j]),
{
    lemma_flatten_member(syms, j);
    let sym = syms[j];
    if is_special_text(sym) {
        let i = choose|i: int| 0 <= i < 8 && #[trigger] special_texts()[i] == sym;
        assert(special_texts()[i][0] == '<' && special_texts()[i].len() >= 5);
        assert(p.contains(sym[0]));
        let k = choose|k: int| 0 <= k < p.len() && p[k] == sym[0];
        assert(is_single(p[k]));
        assert(p.len() == 1);
    }
}

/// The last index of a token, when there is one, holds that token.
pub(crate) proof fn lemma_last_index_found(toks: Seq<Seq<char>>, t: Seq<char>)
    ensures
        last_index(toks, t) >= 0 ==> last_index(toks, t) < toks.len() && toks[last_index(toks, t)] == t,
        last_index(toks, t) < toks.len(),
    decreases toks.len(),
{
    if toks.len() > 0 && toks.last() != t {
        lemma_last_index_found(toks.drop_last(), t);
    }
}

proof fn lemma_decode_append(toks: Seq<Seq<char>>, a: Seq<u16>, b: Seq<u16>)
    ensures
        decode_spec(toks, a + b) == decode_spec(toks, a) + decode_spec(toks, b),
    decreases b.len(),
{
    if b.len() == 0 {
        assert(a + b =~= a);
        assert(decode_spec(toks, a) + decode_spec(toks, b) =~= decode_spec(toks, a));
    } else {
        assert((a + b).drop_last() =~= a + b.drop_last());
        assert((a + b).last() == b.last());
        lemma_decode_append(toks, a, b.drop_last());
        assert(decode_spec(toks, a + b) =~= decode_spec(toks, a) + decode_spec(toks, b));
    }
}

proof fn lemma_decode_symbols(toks: Seq<Seq<char>>, syms: Seq<Seq<char>>)
    requires
        forall|j: int| 0 <= j < syms.len() ==> 0 <= last_index(toks, #[trigger] syms[j]) < 65536,
        forall|j: int| 0 <= j < syms.len() ==> !is_special_text(#[trigger] syms[j]),
    ensures
        decode_spec(toks, symbol_ids(toks, syms)) == flatten(syms),
    decreases syms.len(),
{
    if syms.len() > 0 {
        let init = syms.drop_last();
        assert forall|j: int| 0 <= j < init.len() implies 0 <= last_index(toks, #[trigger] init[j]) < 65536
            && !is_special_text(init[j]) by {
            assert(init[j] == syms[j]);
        }
        lemma_decode_symbols(toks, init);
        let s = syms.last();
        assert(s == syms[syms.len() - 1]);
        lemma_last_index_found(toks, s);
        let id = encode_id(toks, s);
        assert(id as int == last_index(toks, s));
        assert(decode_id(toks, id) == s);
        let ids = symbol_ids(toks, syms);
        assert(ids.drop_last() == symbol_ids(toks, init));
        lemma_flatten_push(init, s);
        assert(init.push(s) =~= syms);
    } else {
        assert(symbol_ids(toks, syms) =~= Seq::<u16>::empty());
    }
}

proof fn lemma_decode_words(toks: Seq<Seq<char>>, rules: Seq<RuleView>, words: Seq<Seq<char>>)
    requires
        rules_well_formed(rules),
        forall|i: int| 0 <= i < words.len() ==> piece_ok(#[trigger] words[i]),
        forall|i: int, j: int|
            0 <= i < words.len() && 0 <= j < word_symbols(rules, words[i]).len() ==> 0 <= last_index(
                toks,
                #[trigger] word_symbols(rules, words[i])[j],
            ) < 65536,
    ensures
        decode_spec(toks, words_ids(toks, rules, words)) == flatten(words),
    decreases words.len(),
{
    if words.len() > 0 {
        let init = words.drop_last();
        let w = words.last();
        assert(w == words[words.len() - 1]);
        assert forall|i: int| 0 <= i < init.len() implies piece_ok(#[trigger] init[i]) by {
            assert(init[i] == words[i]);
        }
        assert forall|i: int, j: int|
            0 <= i < init.len() && 0 <= j < word_symbols(rules, init[i]).len() implies 0 <= last_index(
                toks,
                #[trigger] word_symbols(rules, init[i])[j],
            ) < 65536 by {
            assert(init[i] == words[i]);
        }
        lemma_decode_words(toks, rules, init);
        let syms = word_symbols(rules, w);
        lemma_char_symbols_flatten(w);
        lemma_apply_rules_flatten(char_symbols(w), rules);
        assert forall|j: int| 0 <= j < syms.len() implies 0 <= last_index(toks, #[trigger] syms[j]) < 65536
            && !is_special_text(syms[j]) by {
            lemma_symbol_not_special(w, syms, j);
            assert(word_symbols(rules, words[words.len() - 1])[j] == syms[j]);
        }
        lemma_decode_symbols(toks, syms);
        lemma_decode_append(toks, words_ids(toks, rules, init), symbol_ids(toks, syms));
        lemma_flatten_push(init, w);
        assert(init.push(w) =~= words);
    }
}

/// Decoding the encoding of a text gives the text back, whenever every merge
/// rule's merged string is its left and right strings joined and every
/// symbol the encoding produces is in the vocabulary.
pub proof fn lemma_encode_decode_roundtrip(toks: Seq<Seq<char>>, rules: Seq<RuleView>, text: Seq<char>)
    requires
        rules_well_formed(rules),
        all_symbols_known(toks, rules, text),
    ensures
        decode_spec(toks, encode_spec(toks, rules, text)) == text,
{
    let words = pre_tokenize_spec(text);
    lemma_pre_tokenize_pieces(text);
    lemma_decode_words(toks, rules, words);
}

/// A token at position `id` has a last occurrence at or after `id`.
proof fn lemma_last_index_at_least(toks: Seq<Seq<char>>, id: int)
    requires
        0 <= id < toks.len(),
    ensures
        last_index(toks, toks[id]) >= id,
    decreases toks.len(),
{
    if toks.last() != toks[id] {
        assert(toks.drop_last()[id] == toks[id]);
        lemma_last_index_at_least(toks.drop_last(), id);
    }
}

/// Looking a token up and reading an id back agree: an id found for `t`
/// holds `t`; every token held has an id; and in a vocabulary without
/// repeated tokens, the id found for the token at `id` is `id`.
pub proof fn lemma_vocab_inverse(toks: Seq<Seq<char>>, t: Seq<char>, id: int)
    requires
        toks.len() <= 65536,
    ensures
        lookup_id(toks, t) matches Some(i) ==> (i as int) < toks.len() && toks[i as int] == t,
        0 <= id < toks.len() ==> lookup_id(toks, toks[id]) is Some,
        0 <= id < toks.len() && toks.no_duplicates() ==> lookup_id(toks, toks[id]) == Some(id as u16),
{
    lemma_last_index_found(toks, t);
    if 0 <= id < toks.len() {
        lemma_last_index_at_least(toks, id);
        lemma_last_index_found(toks, toks[id]);
    }
}

proof fn lemma_symbol_ids_in_range(toks: Seq<Seq<char>>, syms: Seq<Seq<char>>)
    requires
        2 <= toks.len() <= 65536,
    ensures
        symbol_ids(toks, syms).len() == syms.len(),
        forall|i: int| 0 <= i < syms.len() ==> (#[trigger] symbol_ids(toks, syms)[i] as int) < toks.len(),
    decreases syms.len(),
{
    if syms.len() > 0 {
        lemma_symbol_ids_in_range(toks, syms.drop_last());
        lemma_last_index_found(toks, syms.last());
        let d = symbol_ids(toks, syms.drop_last());
        assert forall|i: int| 0 <= i < syms.len() implies (#[trigger] symbol_ids(toks, syms)[i] as int) < toks.len() by {
            if i < d.len() {
                assert(symbol_ids(toks, syms)[i] == d[i]);
            }
        }
    }
}

proof fn lemma_words_ids_in_range(toks: Seq<Seq<char>>, rules: Seq<RuleView>, words: Seq<Seq<char>>)
    requires
        2 <= toks.len() <= 65536,
    ensures
        forall|i: int| 0 <= i < words_ids(toks, rules, words).len() ==> (#[trigger] words_ids(toks, rules, words)[i] as int) < toks.len(),
    decreases words.len(),
{
    if words.len() > 0 {
        lemma_words_ids_in_range(toks, rules, words.drop_last());
        let a = words_ids(toks, rules, words.drop_last());
        let b = symbol_ids(toks, word_symbols(rules, words.last()));
        lemma_symbol_ids_in_range(toks, word_symbols(rules, words.last()));
        assert forall|i: int| 0 <= i < (a + b).len() implies ((a + b)[i] as int) < toks.len() by {
            if i < a.len() {
                assert((a + b)[i] == a[i]);
            } else {
                assert((a + b)[i] == b[i - a.len()]);
            }
        }
    }
}

/// Every id an encoding gives names a token of the vocabulary, when the
/// vocabulary holds the UNK id (at least two tokens) and every id fits in 16
/// bits.
pub proof fn lemma_encode_ids_in_range(toks: Seq<Seq<char>>, rules: Seq<RuleView>, text: Seq<char>)
    requires
        2 <= toks.len() <= 65536,
    ensures
        forall|i: int| 0 <= i < encode_spec(toks, rules, text).len() ==> (#[trigger] encode_spec(toks, rules, text)[i] as int) < toks.len(),
{
    lemma_words_ids_in_range(toks, rules, pre_tokenize_spec(text));
}

/// The special tokens are pairwise different, and adding a token that is not
/// held yet (as `Vocab::add_token` does) keeps a vocabulary free of repeated
/// tokens; so every vocabulary built from `Vocab::new` by adding tokens has
/// ids and lookups that are inverse (see [`lemma_vocab_inverse`]).
pub proof fn lemma_vocab_no_duplicates(toks: Seq<Seq<char>>, t: Seq<char>)
    ensures
        special_texts().no_duplicates(),
        toks.no_duplicates() && last_index(toks, t) < 0 ==> toks.push(t).no_duplicates(),
{
    let sp = special_texts();
    assert forall|i: int, j: int| 0 <= i < sp.len() && 0 <= j < sp.len() && i != j implies sp[i] != sp[j] by {
        if sp[i] =~= sp[j] {
            assert(sp[i].len() == sp[j].len());
            assert(sp[i][1] == sp[j][1]);
            assert(sp[i][2] == sp[j][2]);
        }
    }
    if toks.no_duplicates() && last_index(toks, t) < 0 {
        let p = toks.push(t);
        assert forall|i: int, j: int| 0 <= i < p.len() && 0 <= j < p.len() && i != j implies p[i] != p[j] by {
            if i < toks.len() && j < toks.len() {
                assert(p[i] == toks[i] && p[j] == toks[j]);
            } else if i < toks.len() {
                assert(p[i] == toks[i]);
                lemma_last_index_at_least(toks, i);
            } else {
                assert(p[j] == toks[j]);
                lemma_last_index_at_least(toks, j);
            }
        }
    }
}

proof fn lemma_apply_rules_len(syms: Seq<Seq<char>>, rules: Seq<RuleView>)
    ensures
        apply_rules(syms, rules).len() <= syms.len(),
        syms.len() >= 1 ==> apply_rules(syms, rules).len() >= 1,
    decreases rules.len(),
{
    if rules.len() > 0 {
        super::train::lemma_merge_word_len(syms, rules[0].0, rules[0].1, rules[0].2);
        lemma_apply_rules_len(merge_word(syms, rules[0].0, rules[0].1, rules[0].2), rules.drop_first());
    }
}

proof fn lemma_symbol_ids_len(toks: Seq<Seq<char>>, syms: Seq<Seq<char>>)
    ensures
        symbol_ids(toks, syms).len() == syms.len(),
    decreases syms.len(),
{
    if syms.len() > 0 {
        lemma_symbol_ids_len(toks, syms.drop_last());
    }
}

proof fn lemma_words_ids_len(toks: Seq<Seq<char>>, rules: Seq<RuleView>, words: Seq<Seq<char>>)
    requires
        forall|i: int| 0 <= i < words.len() ==> (#[trigger] words[i]).len() >= 1,
    ensures
        words_ids(toks, rules, words).len() <= flatten(words).len(),
        words.len() >= 1 ==> words_ids(toks, rules, words).len() >= 1,
    decreases words.len(),
{
    if words.len() > 0 {
        let d = words.drop_last();
        assert forall|i: int| 0 <= i < d.len() implies (#[trigger] d[i]).len() >= 1 by {
            assert(d[i] == words[i]);
        }
        lemma_words_ids_len(toks, rules, d);
        let w = words.last();
        assert(w == words[words.len() - 1]);
        lemma_apply_rules_len(char_symbols(w), rules);
        lemma_symbol_ids_len(toks, word_symbols(rules, w));
        lemma_flatten_push(d, w);
        assert(d.push(w) =~= words);
    }
}

/// An encoding is empty exactly when the text is, and never has more ids
/// than the text has characters.
pub proof fn lemma_encode_len(toks: Seq<Seq<char>>, rules: Seq<RuleView>, text: Seq<char>)
    ensures
        encode_spec(toks, rules, text).len() <= text.len(),
        (encode_spec(toks, rules, text).len() == 0) == (text.len() == 0),
{
    let words = pre_tokenize_spec(text);
    lemma_pre_tokenize_pieces(text);
    assert forall|i: int| 0 <= i < words.len() implies (#[trigger] words[i]).len() >= 1 by {
        assert(piece_ok(words[i]));
    }
    lemma_words_ids_len(toks, rules, words);
    if text.len() == 0 && words.len() > 0 {
        assert(words[0] + flatten(words.drop_first()) == flatten(words));
    }
}

/// Merge rules apply in the order they were learned: applying a list of
/// rules and then one more is applying the longer list, the new rule taking
/// effect last, on the symbols the earlier rules left.
pub proof fn lemma_rules_apply_in_order(syms: Seq<Seq<char>>, rules: Seq<RuleView>, x: RuleView)
    ensures
        apply_rules(syms, rules.push(x)) == merge_word(apply_rules(syms, rules), x.0, x.1, x.2),
    decreases rules.len(),
{
    let rx = rules.push(x);
    if rules.len() == 0 {
        assert(rx.drop_first() =~= Seq::<RuleView>::empty());
        assert(rx[0] == x);
        let m = merge_word(syms, x.0, x.1, x.2);
        assert(apply_rules(syms, rx) == apply_rules(m, rx.drop_first()));
        assert(apply_rules(m, Seq::<RuleView>::empty()) == m);
        assert(apply_rules(syms, rules) == syms);
    } else {
        let r0 = rules[0];
        assert(rx[0] == r0);
        assert(rx.drop_first() =~= rules.drop_first().push(x));
        let m = merge_word(syms, r0.0, r0.1, r0.2);
        assert(apply_rules(syms, rx) == apply_rules(m, rx.drop_first()));
        assert(apply_rules(syms, rules) == apply_rules(m, rules.drop_first()));
        lemma_rules_apply_in_order(m, rules.drop_first(), x);
    }
}

/// A word's final symbols follow the rules in learned order: with one more
/// rule, the word's symbols are those under the earlier rules with the new
/// rule's pair merged.
pub proof fn lemma_word_symbols_in_order(rules: Seq<RuleView>, x: RuleView, w: Seq<char>)
    ensures
        word_symbols(rules.push(x), w) == merge_word(word_symbols(rules, w), x.0, x.1, x.2),
{
    lemma_rules_apply_in_order(char_symbols(w), rules, x);
}

/// Line breaks, tabs, programming punctuation and string delimiters each
/// form a piece of their own: any piece holding one of them is that one
/// character alone.
pub proof fn lemma_punctuation_alone(s: Seq<char>, i: int, j: int)
    requires
        0 <= i < pre_tokenize_spec(s).len(),
        0 <= j < pre_tokenize_spec(s)[i].len(),
        ({
            let c = pre_tokenize_spec(s)[i][j];
            c == '\n' || c == '\r' || c == '\t' || c == '(' || c == ')' || c == '[' || c == ']' || c == '{'
                || c == '}' || c == ';' || c == ',' || c == ':' || c == '.' || c == '=' || c == '+' || c == '-'
                || c == '*' || c == '/' || c == '<' || c == '>' || c == '!' || c == '&' || c == '|' || c == '^'
                || c == '~' || c == '%' || c == '@' || c == '#' || c == '?' || c == '\\' || c == '"'
                || c == '\'' || c == '`'
        }),
    ensures
        pre_tokenize_spec(s)[i] == seq![pre_tokenize_spec(s)[i][j]],
{
    lemma_pre_tokenize_pieces(s);
    let p = pre_tokenize_spec(s)[i];
    assert(piece_ok(p));
    assert(is_single(p[j]));
    assert(p.len() == 1);
    assert(p =~= seq![p[j]]);
}

} // verus!
