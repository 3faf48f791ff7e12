//! What training guarantees of the tokenizer it builds: its merge rules are
//! well formed, and every symbol that encoding a text over the corpus's
//! characters produces is in its vocabulary, so such a text round-trips.

use vstd::prelude::*;
use super::bpe::{apply_rules, char_symbols, decode_spec, encode_spec, merge_word, word_symbols, RuleView};
use super::pretok::pre_tokenize_spec;
use super::roundtrip::{
    all_symbols_known, lemma_encode_decode_roundtrip, lemma_flatten_member, lemma_last_index_found,
    lemma_pre_tokenize_pieces, rules_well_formed,
};
use super::train::{
    add_word, corpus_chars, corpus_words, find_word, freqs_after, freqs_of_words, lemma_corpus, lemma_find_word,
    lemma_freqs_of_words, lemma_merge_freqs, lemma_merge_word_len, merge_freqs, occ, pair_count, proper_freqs,
    sorted_chars_of, step_ok, trained, vocab_add, vocab_after, vocab_with_chars, weight, Freqs,
};
use super::vocab::{last_index, special_texts};

verus! {

/// Whether `t` is one of the tokens of `v`.
pub open spec fn in_vocab(v: Seq<Seq<char>>, t: Seq<char>) -> bool {
    last_index(v, t) >= 0
}

proof fn lemma_last_index_push(v: Seq<Seq<char>>, t: Seq<char>, x: Seq<char>)
    ensures
        in_vocab(v, x) ==> in_vocab(v.push(t), x),
        in_vocab(v.push(t), t),
{
    assert(v.push(t).drop_last() =~= v);
}

/// Adding a token keeps every token and holds the one added.
proof fn lemma_vocab_add(v: Seq<Seq<char>>, t: Seq<char>, x: Seq<char>)
    ensures
        in_vocab(v, x) ==> in_vocab(vocab_add(v, t), x),
        in_vocab(vocab_add(v, t), t),
{
    lemma_last_index_push(v, t, x);
}

/// The vocabulary with a list of characters added holds every one of them
/// as a one-character token, and every token it held.
proof fn lemma_vocab_with_chars(v: Seq<Seq<char>>, cl: Seq<char>, c: char)
    ensures
        cl.contains(c) ==> in_vocab(vocab_with_chars(v, cl), seq![c]),
    decreases cl.len(),
{
    if cl.len() > 0 {
        let d = cl.drop_last();
        lemma_vocab_with_chars(v, d, c);
        lemma_vocab_add(vocab_with_chars(v, d), seq![cl.last()], seq![c]);
        if cl.contains(c) && c != cl.last() {
            let i = choose|i: int| 0 <= i < cl.len() && cl[i] == c;
            assert(d[i] == c);
        }
    }
}

/// The vocabulary after the merges holds every token it started with and
/// every merged string.
proof fn lemma_vocab_after(v: Seq<Seq<char>>, rules: Seq<RuleView>, x: Seq<char>)
    ensures
        in_vocab(v, x) ==> in_vocab(vocab_after(v, rules), x),
        forall|k: int| 0 <= k < rules.len() ==> in_vocab(vocab_after(v, rules), #[trigger] rules[k].2),
    decreases rules.len(),
{
    if rules.len() > 0 {
        let d = rules.drop_last();
        lemma_vocab_after(v, d, x);
        lemma_vocab_add(vocab_after(v, d), rules.last().2, x);
        assert forall|k: int| 0 <= k < rules.len() implies in_vocab(vocab_after(v, rules), #[trigger] rules[k].2) by {
            if k < d.len() {
                lemma_vocab_after(v, d, rules[k].2);
                assert(d[k] == rules[k]);
                lemma_vocab_add(vocab_after(v, d), rules.last().2, rules[k].2);
            } else {
                lemma_vocab_add(vocab_after(v, d), rules.last().2, rules.last().2);
            }
        }
    }
}

/// Every symbol of a merged word is the merged string or a symbol of the word.
proof fn lemma_merge_word_members(w: Seq<Seq<char>>, l: Seq<char>, r: Seq<char>, m: Seq<char>)
    ensures
        forall|i: int| 0 <= i < merge_word(w, l, r, m).len() ==> #[trigger] merge_word(w, l, r, m)[i] == m
            || w.contains(merge_word(w, l, r, m)[i]),
    decreases w.len(),
{
    let res = merge_word(w, l, r, m);
    if w.len() > 0 {
        let skip = if w.len() >= 2 && w[0] == l && w[1] == r { 2int } else { 1int };
        let t = w.skip(skip);
        lemma_merge_word_members(t, l, r, m);
        let tail = merge_word(t, l, r, m);
        assert forall|i: int| 0 <= i < res.len() implies #[trigger] res[i] == m || w.contains(res[i]) by {
            if i == 0 {
                if skip == 1 {
                    assert(res[0] == w[0]);
                }
            } else {
                assert(res[i] == tail[i - 1]);
                if tail[i - 1] != m {
                    assert(t.contains(tail[i - 1]));
                    let q = choose|q: int| 0 <= q < t.len() && t[q] == tail[i - 1];
                    assert(w[q + skip] == t[q]);
                }
            }
        }
    }
}

/// Every final symbol is a starting symbol or some rule's merged string.
proof fn lemma_apply_rules_members(syms: Seq<Seq<char>>, rules: Seq<RuleView>)
    ensures
        forall|i: int| 0 <= i < apply_rules(syms, rules).len() ==> syms.contains(#[trigger] apply_rules(syms, rules)[i])
            || exists|k: int| 0 <= k < rules.len() && rules[k].2 == apply_rules(syms, rules)[i],
    decreases rules.len(),
{
    if rules.len() > 0 {
        let r0 = rules[0];
        let m = merge_word(syms, r0.0, r0.1, r0.2);
        let rest = rules.drop_first();
        lemma_merge_word_members(syms, r0.0, r0.1, r0.2);
        lemma_apply_rules_members(m, rest);
        let res = apply_rules(syms, rules);
        assert(res == apply_rules(m, rest));
        assert forall|i: int| 0 <= i < res.len() implies syms.contains(#[trigger] res[i]) || exists|k: int|
            0 <= k < rules.len() && rules[k].2 == res[i] by {
            let x = apply_rules(m, rest)[i];
            assert(x == res[i]);
            if m.contains(x) {
                let q = choose|q: int| 0 <= q < m.len() && m[q] == x;
                assert(merge_word(syms, r0.0, r0.1, r0.2)[q] == r0.2 || syms.contains(merge_word(syms, r0.0, r0.1, r0.2)[q]));
                if m[q] == r0.2 {
                    assert(rules[0].2 == res[i]);
                }
            } else {
                assert(exists|k: int| 0 <= k < rest.len() && rest[k].2 == x);
                let k = choose|k: int| 0 <= k < rest.len() && rest[k].2 == x;
                assert(rules[k + 1] == rest[k]);
            }
        }
    }
}

/// Training's merge rules are well formed.
proof fn lemma_trained_rules_well_formed(
    texts: Seq<Seq<char>>,
    target: nat,
    cl: Seq<char>,
    toks: Seq<Seq<char>>,
    rules: Seq<RuleView>,
)
    requires
        trained(texts, target, cl, toks, rules),
    ensures
        rules_well_formed(rules),
{
    let t0 = super::train::freqs_of_words(super::train::corpus_words(texts));
    let v0 = vocab_with_chars(special_texts(), cl);
    assert forall|k: int| 0 <= k < rules.len() implies #[trigger] rules[k].2 == rules[k].0 + rules[k].1 by {
        assert(step_ok(t0, v0, target, rules, k));
    }
}

/// Adding tokens keeps the tokens already there, in front.
proof fn lemma_vocab_prefix(v: Seq<Seq<char>>, cl: Seq<char>, rules: Seq<RuleView>)
    ensures
        vocab_with_chars(v, cl).len() >= v.len(),
        vocab_with_chars(v, cl).take(v.len() as int) == v,
        vocab_after(v, rules).len() >= v.len(),
        vocab_after(v, rules).take(v.len() as int) == v,
    decreases cl.len() + rules.len(),
{
    if cl.len() > 0 {
        lemma_vocab_prefix(v, cl.drop_last(), rules);
        let w = vocab_with_chars(v, cl.drop_last());
        assert(vocab_add(w, seq![cl.last()]).take(v.len() as int) =~= w.take(v.len() as int));
    }
    if rules.len() > 0 {
        lemma_vocab_prefix(v, seq![], rules.drop_last());
        let w = vocab_after(v, rules.drop_last());
        assert(vocab_add(w, rules.last().2).take(v.len() as int) =~= w.take(v.len() as int));
    }
    if cl.len() == 0 && rules.len() == 0 {
        assert(v.take(v.len() as int) =~= v);
    }
    if cl.len() == 0 {
        assert(vocab_with_chars(v, cl).take(v.len() as int) =~= v);
    }
}

/// Each training step adds at most one token, and only while the vocabulary
/// is smaller than the target; each merges a pair that occurs, so it removes
/// at least one symbol from the corpus.
proof fn lemma_training_steps(
    t0: Freqs,
    v0: Seq<Seq<char>>,
    target: nat,
    rules: Seq<RuleView>,
    k: int,
)
    requires
        proper_freqs(t0),
        forall|j: int| 0 <= j < rules.len() ==> #[trigger] step_ok(t0, v0, target, rules, j),
        0 <= k <= rules.len(),
    ensures
        proper_freqs(freqs_after(t0, rules.take(k))),
        weight(freqs_after(t0, rules.take(k))) + k <= weight(t0),
        k > 0 ==> vocab_after(v0, rules.take(k)).len() <= target,
    decreases k,
{
    if k > 0 {
        lemma_training_steps(t0, v0, target, rules, k - 1);
        let pre = rules.take(k - 1);
        assert(rules.take(k).drop_last() =~= pre);
        assert(rules.take(k).last() == rules[k - 1]);
        assert(step_ok(t0, v0, target, rules, k - 1));
        let f = freqs_after(t0, pre);
        let r = rules[k - 1];
        lemma_merge_freqs(f, r.0, r.1, r.2);
    }
}

/// What training produces: every merge rule's merged string is its left
/// string followed by its right one; the vocabulary starts with the special
/// tokens and holds every corpus character as a one-character token and
/// every merged string; it grows past neither the target nor its starting
/// size (the special tokens and the corpus characters); and there are at
/// most as many merges as the corpus has characters.
pub proof fn lemma_trained_facts(
    texts: Seq<Seq<char>>,
    target: nat,
    cl: Seq<char>,
    toks: Seq<Seq<char>>,
    rules: Seq<RuleView>,
)
    requires
        trained(texts, target, cl, toks, rules),
    ensures
        forall|k: int| 0 <= k < rules.len() ==> #[trigger] rules[k].2 == rules[k].0 + rules[k].1,
        forall|k: int| 0 <= k < rules.len() ==> in_vocab(toks, #[trigger] rules[k].2),
        forall|c: char| corpus_chars(texts).contains(c) ==> in_vocab(toks, seq![c]),
        toks.len() >= special_texts().len(),
        toks.take(special_texts().len() as int) == special_texts(),
        toks.len() <= target || toks.len() <= special_texts().len() + cl.len(),
        rules.len() <= corpus_chars(texts).len(),
{
    lemma_trained_rules_well_formed(texts, target, cl, toks, rules);
    let t0 = freqs_of_words(corpus_words(texts));
    let v0 = vocab_with_chars(special_texts(), cl);
    assert forall|k: int| 0 <= k < rules.len() implies in_vocab(toks, #[trigger] rules[k].2) by {
        lemma_vocab_after(v0, rules, rules[k].2);
    }
    assert forall|c: char| corpus_chars(texts).contains(c) implies in_vocab(toks, seq![c]) by {
        assert(cl.contains(c));
        lemma_vocab_with_chars(special_texts(), cl, c);
        lemma_vocab_after(v0, rules, seq![c]);
    }
    lemma_vocab_prefix(special_texts(), cl, rules);
    lemma_vocab_prefix(v0, seq![], rules);
    assert(toks.take(special_texts().len() as int) =~= v0.take(v0.len() as int).take(special_texts().len() as int));
    lemma_vocab_with_chars_len(special_texts(), cl);
    lemma_corpus(texts);
    lemma_freqs_of_words(corpus_words(texts));
    lemma_training_steps(t0, v0, target, rules, rules.len() as int);
    assert(rules.take(rules.len() as int) =~= rules);
}

/// Adding characters adds at most one token per character.
proof fn lemma_vocab_with_chars_len(v: Seq<Seq<char>>, cl: Seq<char>)
    ensures
        vocab_with_chars(v, cl).len() <= v.len() + cl.len(),
    decreases cl.len(),
{
    if cl.len() > 0 {
        lemma_vocab_with_chars_len(v, cl.drop_last());
    }
}

/// A tokenizer trained on a corpus decodes the encoding of any text back to
/// the text, when every character of the text occurs in the corpus and the
/// vocabulary has at most 65536 tokens (so that every id fits in 16 bits).
pub proof fn lemma_trained_roundtrip(
    texts: Seq<Seq<char>>,
    target: nat,
    cl: Seq<char>,
    toks: Seq<Seq<char>>,
    rules: Seq<RuleView>,
    text: Seq<char>,
)
    requires
        trained(texts, target, cl, toks, rules),
        toks.len() <= 65536,
        forall|i: int| 0 <= i < text.len() ==> corpus_chars(texts).contains(#[trigger] text[i]),
    ensures
        decode_spec(toks, encode_spec(toks, rules, text)) == text,
{
    lemma_trained_rules_well_formed(texts, target, cl, toks, rules);
    let v0 = vocab_with_chars(special_texts(), cl);
    let words = pre_tokenize_spec(text);
    lemma_pre_tokenize_pieces(text);
    assert forall|i: int, j: int|
        0 <= i < words.len() && 0 <= j < word_symbols(rules, words[i]).len() implies 0 <= last_index(
            toks,
            #[trigger] word_symbols(rules, words[i])[j],
        ) < 65536 by {
        let w = words[i];
        let sym = word_symbols(rules, w)[j];
        lemma_apply_rules_members(char_symbols(w), rules);
        lemma_vocab_after(v0, rules, sym);
        if char_symbols(w).contains(sym) {
            let q = choose|q: int| 0 <= q < char_symbols(w).len() && char_symbols(w)[q] == sym;
            let c = w[q];
            assert(sym == seq![c]);
            lemma_flatten_member(words, i);
            assert(text.contains(c));
            let p = choose|p: int| 0 <= p < text.len() && text[p] == c;
            assert(corpus_chars(texts).contains(text[p]));
            assert(cl.contains(c));
            lemma_vocab_with_chars(special_texts(), cl, c);
        } else {
            let k = choose|k: int| 0 <= k < rules.len() && rules[k].2 == sym;
            assert(in_vocab(vocab_after(v0, rules), rules[k].2));
        }
        lemma_last_index_found(toks, sym);
    }
    assert(all_symbols_known(toks, rules, text));
    lemma_encode_decode_roundtrip(toks, rules, text);
}

/// The symbols beyond the first of every distinct word: the sum over the
/// entries of a frequency list of (number of symbols - 1).
pub open spec fn excess(t: Freqs) -> int
    decreases t.len(),
{
    if t.len() == 0 {
        0
    } else {
        excess(t.drop_last()) + t.last().0.len() - 1
    }
}

proof fn lemma_excess_update(t: Freqs, i: int, e: (Seq<Seq<char>>, nat))
    requires
        0 <= i < t.len(),
    ensures
        excess(t.update(i, e)) + t[i].0.len() == excess(t) + e.0.len(),
    decreases t.len(),
{
    let u = t.update(i, e);
    if i == t.len() - 1 {
        assert(u.drop_last() =~= t.drop_last());
    } else {
        lemma_excess_update(t.drop_last(), i, e);
        assert(u.drop_last() =~= t.drop_last().update(i, e));
    }
}

proof fn lemma_excess_add_word(t: Freqs, w: Seq<Seq<char>>, c: nat)
    ensures
        excess(add_word(t, w, c)) <= excess(t) + w.len() - 1 || (find_word(t, w) >= 0 && excess(add_word(t, w, c)) == excess(t)),
        find_word(t, w) < 0 ==> excess(add_word(t, w, c)) == excess(t) + w.len() - 1,
        find_word(t, w) >= 0 ==> excess(add_word(t, w, c)) == excess(t),
{
    lemma_find_word(t, w);
    let i = find_word(t, w);
    if i >= 0 {
        lemma_excess_update(t, i, (w, t[i].1 + c));
    } else {
        assert(add_word(t, w, c).drop_last() =~= t);
    }
}

proof fn lemma_excess_nonneg(t: Freqs)
    requires
        proper_freqs(t),
    ensures
        excess(t) >= 0,
    decreases t.len(),
{
    if t.len() > 0 {
        let d = t.drop_last();
        assert forall|i: int| 0 <= i < d.len() implies (#[trigger] d[i]).1 >= 1 && d[i].0.len() >= 1 by {
            assert(d[i] == t[i]);
        }
        lemma_excess_nonneg(d);
        assert(t.last() == t[t.len() - 1]);
    }
}

/// Merging never raises the excess, and lowers it where the pair occurs.
proof fn lemma_excess_merge(t: Freqs, l: Seq<char>, r: Seq<char>, m: Seq<char>)
    requires
        proper_freqs(t),
    ensures
        excess(merge_freqs(t, l, r, m)) <= excess(t),
        pair_count(t, l, r) >= 1 ==> excess(merge_freqs(t, l, r, m)) < excess(t),
    decreases t.len(),
{
    if t.len() > 0 {
        let d = t.drop_last();
        assert forall|i: int| 0 <= i < d.len() implies (#[trigger] d[i]).1 >= 1 && d[i].0.len() >= 1 by {
            assert(d[i] == t[i]);
        }
        lemma_excess_merge(d, l, r, m);
        let e = t.last();
        assert(e == t[t.len() - 1]);
        let w2 = crate::tokenizer::bpe::merge_word(e.0, l, r, m);
        lemma_merge_word_len(e.0, l, r, m);
        let md = merge_freqs(d, l, r, m);
        lemma_excess_add_word(md, w2, e.1);
        if pair_count(t, l, r) >= 1 && occ(e.0, l, r) == 0 {
            assert(e.1 * occ(e.0, l, r) == 0) by (nonlinear_arith)
                requires
                    occ(e.0, l, r) == 0,
            ;
        }
    }
}

proof fn lemma_excess_steps(t0: Freqs, v0: Seq<Seq<char>>, target: nat, rules: Seq<RuleView>, k: int)
    requires
        proper_freqs(t0),
        forall|j: int| 0 <= j < rules.len() ==> #[trigger] step_ok(t0, v0, target, rules, j),
        0 <= k <= rules.len(),
    ensures
        excess(freqs_after(t0, rules.take(k))) + k <= excess(t0),
    decreases k,
{
    if k > 0 {
        lemma_excess_steps(t0, v0, target, rules, k - 1);
        lemma_training_steps(t0, v0, target, rules, k - 1);
        let pre = rules.take(k - 1);
        assert(rules.take(k).drop_last() =~= pre);
        assert(rules.take(k).last() == rules[k - 1]);
        assert(step_ok(t0, v0, target, rules, k - 1));
        let r = rules[k - 1];
        lemma_excess_merge(freqs_after(t0, pre), r.0, r.1, r.2);
    }
}

/// The vocabulary training starts from: the special tokens, then each
/// character of a strictly increasing list as a one-character token, all of
/// them added (no character token repeats a special token or another).
proof fn lemma_start_vocab(cl: Seq<char>)
    requires
        forall|i: int, j: int| 0 <= i < j < cl.len() ==> (cl[i] as u32) < (cl[j] as u32),
    ensures
        vocab_with_chars(special_texts(), cl) == special_texts() + Seq::new(cl.len(), |j: int| seq![cl[j]]),
    decreases cl.len(),
{
    if cl.len() > 0 {
        let d = cl.drop_last();
        lemma_start_vocab(d);
        let c = cl.last();
        let v = special_texts() + Seq::new(d.len(), |j: int| seq![d[j]]);
        super::roundtrip::lemma_last_index_found(v, seq![c]);
        if last_index(v, seq![c]) >= 0 {
            let q = last_index(v, seq![c]);
            if q < 8 {
                assert(v[q] == special_texts()[q]);
                assert(special_texts()[q].len() >= 5);
            } else {
                assert(v[q] == seq![d[q - 8]]);
                assert(v[q][0] == d[q - 8]);
                assert(d[q - 8] == cl[q - 8]);
            }
        }
        assert(vocab_add(v, seq![c]) =~= special_texts() + Seq::new(cl.len(), |j: int| seq![cl[j]]));
    }
}

/// How many merges training makes: at most the number of symbols beyond the
/// first over the corpus's distinct words (see [`excess`]); and none when the
/// target is no larger than the special tokens plus the corpus's distinct
/// characters, which is where the vocabulary starts.
pub proof fn lemma_trained_merge_bound(
    texts: Seq<Seq<char>>,
    target: nat,
    cl: Seq<char>,
    toks: Seq<Seq<char>>,
    rules: Seq<RuleView>,
)
    requires
        trained(texts, target, cl, toks, rules),
    ensures
        rules.len() <= excess(freqs_of_words(corpus_words(texts))),
        target <= special_texts().len() + cl.len() ==> rules.len() == 0,
{
    let t0 = freqs_of_words(corpus_words(texts));
    let v0 = vocab_with_chars(special_texts(), cl);
    lemma_corpus(texts);
    lemma_freqs_of_words(corpus_words(texts));
    lemma_excess_steps(t0, v0, target, rules, rules.len() as int);
    lemma_training_steps(t0, v0, target, rules, rules.len() as int);
    assert(rules.take(rules.len() as int) =~= rules);
    lemma_excess_nonneg(freqs_after(t0, rules));
    lemma_start_vocab(cl);
    if target <= special_texts().len() + cl.len() && rules.len() > 0 {
        assert(step_ok(t0, v0, target, rules, 0));
        assert(rules.take(0) =~= Seq::<RuleView>::empty());
    }
}

/// Every symbol of every word of a frequency list is a token of `v`.
pub open spec fn symbols_known(t: Freqs, v: Seq<Seq<char>>) -> bool {
    forall|i: int, p: int| 0 <= i < t.len() && 0 <= p < t[i].0.len() ==> in_vocab(v, #[trigger] t[i].0[p])
}

proof fn lemma_add_word_known(t: Freqs, w: Seq<Seq<char>>, c: nat, v: Seq<Seq<char>>)
    requires
        symbols_known(t, v),
        forall|p: int| 0 <= p < w.len() ==> in_vocab(v, #[trigger] w[p]),
    ensures
        symbols_known(add_word(t, w, c), v),
{
    lemma_find_word(t, w);
    let u = add_word(t, w, c);
    assert forall|i: int, p: int| 0 <= i < u.len() && 0 <= p < u[i].0.len() implies in_vocab(v, #[trigger] u[i].0[p]) by {
        if find_word(t, w) >= 0 {
            if i != find_word(t, w) {
                assert(u[i] == t[i]);
            }
        } else if i < t.len() {
            assert(u[i] == t[i]);
        }
    }
}

proof fn lemma_known_grows(t: Freqs, v: Seq<Seq<char>>, x: Seq<char>)
    requires
        symbols_known(t, v),
    ensures
        symbols_known(t, vocab_add(v, x)),
{
    assert forall|i: int, p: int| 0 <= i < t.len() && 0 <= p < t[i].0.len() implies in_vocab(vocab_add(v, x), #[trigger] t[i].0[p]) by {
        lemma_vocab_add(v, x, t[i].0[p]);
    }
}

proof fn lemma_merge_known(t: Freqs, l: Seq<char>, r: Seq<char>, m: Seq<char>, v: Seq<Seq<char>>)
    requires
        symbols_known(t, v),
        in_vocab(v, m),
    ensures
        symbols_known(merge_freqs(t, l, r, m), v),
    decreases t.len(),
{
    if t.len() > 0 {
        let d = t.drop_last();
        assert(symbols_known(d, v)) by {
            assert forall|i: int, p: int| 0 <= i < d.len() && 0 <= p < d[i].0.len() implies in_vocab(v, #[trigger] d[i].0[p]) by {
                assert(d[i] == t[i]);
            }
        }
        lemma_merge_known(d, l, r, m, v);
        let e = t.last();
        assert(e == t[t.len() - 1]);
        let w2 = merge_word(e.0, l, r, m);
        lemma_merge_word_members(e.0, l, r, m);
        assert forall|p: int| 0 <= p < w2.len() implies in_vocab(v, #[trigger] w2[p]) by {
            if w2[p] != m {
                assert(e.0.contains(w2[p]));
                let q = choose|q: int| 0 <= q < e.0.len() && e.0[q] == w2[p];
                assert(in_vocab(v, t[t.len() - 1].0[q]));
            }
        }
        lemma_add_word_known(merge_freqs(d, l, r, m), w2, e.1, v);
    }
}

proof fn lemma_words_known(ws: Seq<Seq<char>>, v: Seq<Seq<char>>)
    requires
        forall|i: int, p: int| 0 <= i < ws.len() && 0 <= p < ws[i].len() ==> in_vocab(v, seq![#[trigger] ws[i][p]]),
    ensures
        symbols_known(freqs_of_words(ws), v),
    decreases ws.len(),
{
    if ws.len() > 0 {
        let d = ws.drop_last();
        assert forall|i: int, p: int| 0 <= i < d.len() && 0 <= p < d[i].len() implies in_vocab(v, seq![#[trigger] d[i][p]]) by {
            assert(d[i] == ws[i]);
        }
        lemma_words_known(d, v);
        let w = ws.last();
        assert(w == ws[ws.len() - 1]);
        let cs = char_symbols(w);
        assert forall|p: int| 0 <= p < cs.len() implies in_vocab(v, #[trigger] cs[p]) by {
            assert(cs[p] == seq![ws[ws.len() - 1][p]]);
        }
        lemma_add_word_known(freqs_of_words(d), cs, 1, v);
    }
}

proof fn lemma_occ_found(w: Seq<Seq<char>>, l: Seq<char>, r: Seq<char>)
    requires
        occ(w, l, r) >= 1,
    ensures
        exists|p: int| 0 <= p && p + 1 < w.len() && #[trigger] w[p] == l && w[p + 1] == r,
    decreases w.len(),
{
    if !(w[0] == l && w[1] == r) {
        lemma_occ_found(w.drop_first(), l, r);
        let p = choose|p: int| 0 <= p && p + 1 < w.drop_first().len() && #[trigger] w.drop_first()[p] == l && w.drop_first()[p + 1] == r;
        assert(w[p + 1] == w.drop_first()[p]);
    } else {
        assert(w[0] == l);
    }
}

proof fn lemma_pair_found(t: Freqs, l: Seq<char>, r: Seq<char>)
    requires
        pair_count(t, l, r) >= 1,
    ensures
        exists|i: int, p: int| 0 <= i < t.len() && 0 <= p && p + 1 < t[i].0.len() && #[trigger] t[i].0[p] == l && t[i].0[p + 1] == r,
    decreases t.len(),
{
    let d = t.drop_last();
    let e = t.last();
    assert(e == t[t.len() - 1]);
    if occ(e.0, l, r) >= 1 {
        lemma_occ_found(e.0, l, r);
        let p = choose|p: int| 0 <= p && p + 1 < e.0.len() && #[trigger] e.0[p] == l && e.0[p + 1] == r;
        assert(t[t.len() - 1].0[p] == l);
    } else {
        assert(e.1 * occ(e.0, l, r) == 0) by (nonlinear_arith)
            requires
                occ(e.0, l, r) == 0,
        ;
        lemma_pair_found(d, l, r);
        let (i, p) = choose|i: int, p: int| 0 <= i < d.len() && 0 <= p && p + 1 < d[i].0.len() && #[trigger] d[i].0[p] == l && d[i].0[p + 1] == r;
        assert(d[i] == t[i]);
        assert(t[i].0[p] == l);
    }
}

proof fn lemma_known_steps(t0: Freqs, v0: Seq<Seq<char>>, target: nat, rules: Seq<RuleView>, k: int)
    requires
        symbols_known(t0, v0),
        forall|j: int| 0 <= j < rules.len() ==> #[trigger] step_ok(t0, v0, target, rules, j),
        0 <= k <= rules.len(),
    ensures
        symbols_known(freqs_after(t0, rules.take(k)), vocab_after(v0, rules.take(k))),
        forall|j: int| 0 <= j < k ==> in_vocab(vocab_after(v0, rules.take(k)), #[trigger] rules[j].0) && in_vocab(vocab_after(v0, rules.take(k)), rules[j].1),
    decreases k,
{
    if k > 0 {
        lemma_known_steps(t0, v0, target, rules, k - 1);
        let pre = rules.take(k - 1);
        assert(rules.take(k).drop_last() =~= pre);
        assert(rules.take(k).last() == rules[k - 1]);
        assert(step_ok(t0, v0, target, rules, k - 1));
        let r = rules[k - 1];
        let f = freqs_after(t0, pre);
        let v = vocab_after(v0, pre);
        let v2 = vocab_add(v, r.2);
        lemma_pair_found(f, r.0, r.1);
        let (i, p) = choose|i: int, p: int| 0 <= i < f.len() && 0 <= p && p + 1 < f[i].0.len() && #[trigger] f[i].0[p] == r.0 && f[i].0[p + 1] == r.1;
        assert(in_vocab(v, f[i].0[p]));
        assert(in_vocab(v, f[i].0[p + 1]));
        lemma_vocab_add(v, r.2, r.0);
        lemma_vocab_add(v, r.2, r.1);
        lemma_known_grows(f, v, r.2);
        lemma_vocab_add(v, r.2, r.2);
        lemma_merge_known(f, r.0, r.1, r.2, v2);
        assert forall|j: int| 0 <= j < k implies in_vocab(v2, #[trigger] rules[j].0) && in_vocab(v2, rules[j].1) by {
            if j < k - 1 {
                lemma_vocab_add(v, r.2, rules[j].0);
                lemma_vocab_add(v, r.2, rules[j].1);
            }
        }
    }
}

/// Every merge rule's left and right parts are tokens of the trained
/// vocabulary: each merges two symbols that occur in the corpus's words,
/// and every such symbol is a corpus character or an earlier merged string.
pub proof fn lemma_trained_rule_parts_known(
    texts: Seq<Seq<char>>,
    target: nat,
    cl: Seq<char>,
    toks: Seq<Seq<char>>,
    rules: Seq<RuleView>,
)
    requires
        trained(texts, target, cl, toks, rules),
    ensures
        forall|k: int| 0 <= k < rules.len() ==> in_vocab(toks, #[trigger] rules[k].0) && in_vocab(toks, rules[k].1),
{
    let ws = corpus_words(texts);
    let t0 = freqs_of_words(ws);
    let v0 = vocab_with_chars(special_texts(), cl);
    lemma_corpus(texts);
    assert forall|i: int, p: int| 0 <= i < ws.len() && 0 <= p < ws[i].len() implies in_vocab(v0, seq![#[trigger] ws[i][p]]) by {
        super::roundtrip::lemma_flatten_member(ws, i);
        assert(corpus_chars(texts).contains(ws[i][p]));
        assert(cl.contains(ws[i][p]));
        lemma_vocab_with_chars(special_texts(), cl, ws[i][p]);
    }
    lemma_words_known(ws, v0);
    lemma_known_steps(t0, v0, target, rules, rules.len() as int);
    assert(rules.take(rules.len() as int) =~= rules);
}

} // verus!
