//! Learning BPE merge rules from a corpus.
//!
//! Training counts every pre-tokenized word of the corpus, starts from the
//! special tokens and the corpus's characters, then repeatedly merges the most
//! frequent adjacent pair of symbols until the vocabulary is large enough or
//! no pair is left.

use vstd::prelude::*;
use super::bpe::{
    apply_merge, char_strings, char_symbols, merge_word, rule_view, rules_view, BpeTokenizer, MergeRule,
    RuleView,
};
use super::vocab::Vocab;
use super::roundtrip::{lemma_flatten_append, lemma_flatten_push, lemma_pre_tokenize_pieces, piece_ok};
use super::pretok::{flatten, pre_tokenize, pre_tokenize_spec};
use super::vocab::{last_index, special_texts, strings_view};
use crate::text::{char_to_string, chars_of, str_eq};

verus! {

/// A word as a list of symbols.
pub type Word = Seq<Seq<char>>;

/// Word frequencies: distinct words, each with its number of occurrences,
/// in order of first occurrence.
pub type Freqs = Seq<(Word, nat)>;

/// Position of `w` in the frequency list, or -1.
pub open spec fn find_word(t: Freqs, w: Word) -> int
    decreases t.len(),
{
    if t.len() == 0 {
        -1
    } else if t.last().0 == w {
        t.len() - 1
    } else {
        find_word(t.drop_last(), w)
    }
}

/// Counts `c` more occurrences of `w`.
pub open spec fn add_word(t: Freqs, w: Word, c: nat) -> Freqs {
    let i = find_word(t, w);
    if i >= 0 {
        t.update(i, (w, t[i].1 + c))
    } else {
        t.push((w, c))
    }
}

/// All pre-tokenized words of a corpus, text after text.
pub open spec fn corpus_words(texts: Seq<Seq<char>>) -> Seq<Seq<char>>
    decreases texts.len(),
{
    if texts.len() == 0 {
        seq![]
    } else {
        corpus_words(texts.drop_last()) + pre_tokenize_spec(texts.last())
    }
}

/// Frequencies of a list of words, each split into one-character symbols.
pub open spec fn freqs_of_words(ws: Seq<Seq<char>>) -> Freqs
    decreases ws.len(),
{
    if ws.len() == 0 {
        seq![]
    } else {
        add_word(freqs_of_words(ws.drop_last()), char_symbols(ws.last()), 1)
    }
}

/// Frequencies after applying one merge to every word (words that become
/// equal are counted together).
pub open spec fn merge_freqs(t: Freqs, l: Seq<char>, r: Seq<char>, m: Seq<char>) -> Freqs
    decreases t.len(),
{
    if t.len() == 0 {
        seq![]
    } else {
        add_word(merge_freqs(t.drop_last(), l, r, m), merge_word(t.last().0, l, r, m), t.last().1)
    }
}

/// Number of positions where `l` is immediately followed by `r` in `w`.
pub open spec fn occ(w: Word, l: Seq<char>, r: Seq<char>) -> nat
    decreases w.len(),
{
    if w.len() < 2 {
        0
    } else {
        (if w[0] == l && w[1] == r { 1nat } else { 0nat }) + occ(w.drop_first(), l, r)
    }
}

/// How often the adjacent pair `(l, r)` occurs in the corpus, counting each
/// word as often as it occurs.
pub open spec fn pair_count(t: Freqs, l: Seq<char>, r: Seq<char>) -> nat
    decreases t.len(),
{
    if t.len() == 0 {
        0
    } else {
        pair_count(t.drop_last(), l, r) + t.last().1 * occ(t.last().0, l, r)
    }
}

/// Whether some word still has two or more symbols.
pub open spec fn has_pair(t: Freqs) -> bool {
    exists|i: int| 0 <= i < t.len() && (#[trigger] t[i]).0.len() >= 2
}

/// `(l, r)` occurs and no pair occurs more often.
pub open spec fn is_best_pair(t: Freqs, l: Seq<char>, r: Seq<char>) -> bool {
    &&& pair_count(t, l, r) >= 1
    &&& forall|a: Seq<char>, b: Seq<char>| #[trigger] pair_count(t, a, b) <= pair_count(t, l, r)
}

/// Adds a token to a vocabulary unless it is already there.
pub open spec fn vocab_add(v: Seq<Seq<char>>, t: Seq<char>) -> Seq<Seq<char>> {
    if last_index(v, t) >= 0 {
        v
    } else {
        v.push(t)
    }
}

/// Adds every character of `cl`, in order, as a one-character token.
pub open spec fn vocab_with_chars(v: Seq<Seq<char>>, cl: Seq<char>) -> Seq<Seq<char>>
    decreases cl.len(),
{
    if cl.len() == 0 {
        v
    } else {
        vocab_add(vocab_with_chars(v, cl.drop_last()), seq![cl.last()])
    }
}

/// Word frequencies after applying the given rules in order.
pub open spec fn freqs_after(t: Freqs, rules: Seq<RuleView>) -> Freqs
    decreases rules.len(),
{
    if rules.len() == 0 {
        t
    } else {
        let k = rules.last();
        merge_freqs(freqs_after(t, rules.drop_last()), k.0, k.1, k.2)
    }
}

/// Vocabulary after adding the merged string of each rule in order.
pub open spec fn vocab_after(v: Seq<Seq<char>>, rules: Seq<RuleView>) -> Seq<Seq<char>>
    decreases rules.len(),
{
    if rules.len() == 0 {
        v
    } else {
        vocab_add(vocab_after(v, rules.drop_last()), rules.last().2)
    }
}

/// `cl` lists, in strictly increasing order, exactly the characters of `cs`.
pub open spec fn sorted_chars_of(cl: Seq<char>, cs: Seq<char>) -> bool {
    &&& forall|i: int, j: int| 0 <= i < j < cl.len() ==> (cl[i] as u32) < (cl[j] as u32)
    &&& forall|c: char| cl.contains(c) <==> cs.contains(c)
}

/// All characters of a corpus, text after text.
pub open spec fn corpus_chars(texts: Seq<Seq<char>>) -> Seq<char>
    decreases texts.len(),
{
    if texts.len() == 0 {
        seq![]
    } else {
        corpus_chars(texts.drop_last()) + texts.last()
    }
}

/// Step `k` of a training run is sound: the vocabulary was still smaller
/// than the target, the merged string is left followed by right, and the
/// merged pair was a most frequent one at that point.
pub open spec fn step_ok(t0: Freqs, v0: Seq<Seq<char>>, target: nat, rules: Seq<RuleView>, k: int) -> bool {
    &&& vocab_after(v0, rules.take(k)).len() < target
    &&& rules[k].2 == rules[k].0 + rules[k].1
    &&& is_best_pair(freqs_after(t0, rules.take(k)), rules[k].0, rules[k].1)
}

/// Every step of a training run is sound.
pub open spec fn steps_ok(t0: Freqs, v0: Seq<Seq<char>>, target: nat, rules: Seq<RuleView>) -> bool {
    forall|k: int| 0 <= k < rules.len() ==> #[trigger] step_ok(t0, v0, target, rules, k)
}

/// The result of training on `texts` with target vocabulary size `target`:
/// starting from the special tokens and the corpus's characters in
/// increasing order, each rule merges a most frequent adjacent pair of the
/// word frequencies so far (the merged string is left followed by right) and
/// adds it to the vocabulary; rules are taken while the vocabulary is smaller
/// than the target, and the last state has a large enough vocabulary or no
/// pair left. Which pair is taken among equally frequent ones is not fixed.
pub open spec fn trained(
    texts: Seq<Seq<char>>,
    target: nat,
    cl: Seq<char>,
    toks: Seq<Seq<char>>,
    rules: Seq<RuleView>,
) -> bool {
    let t0 = freqs_of_words(corpus_words(texts));
    let v0 = vocab_with_chars(special_texts(), cl);
    &&& sorted_chars_of(cl, corpus_chars(texts))
    &&& toks == vocab_after(v0, rules)
    &&& steps_ok(t0, v0, target, rules)
    &&& (vocab_after(v0, rules).len() >= target || !has_pair(freqs_after(t0, rules)))
}

/// Total number of symbols in the corpus: each word's length times its count.
pub open spec fn weight(t: Freqs) -> nat
    decreases t.len(),
{
    if t.len() == 0 {
        0
    } else {
        weight(t.drop_last()) + t.last().1 * t.last().0.len()
    }
}

/// The words of a frequency list are pairwise different.
pub open spec fn distinct_words(t: Freqs) -> bool {
    forall|i: int, j: int| 0 <= i < j < t.len() ==> (#[trigger] t[i]).0 != (#[trigger] t[j]).0
}

/// Every word occurs at least once and has at least one symbol.
pub open spec fn proper_freqs(t: Freqs) -> bool {
    forall|i: int| 0 <= i < t.len() ==> (#[trigger] t[i]).1 >= 1 && t[i].0.len() >= 1
}

pub(crate) proof fn lemma_find_word(t: Freqs, w: Word)
    ensures
        -1 <= find_word(t, w) < t.len(),
        find_word(t, w) >= 0 ==> t[find_word(t, w)].0 == w,
        find_word(t, w) == -1 ==> forall|i: int| 0 <= i < t.len() ==> (#[trigger] t[i]).0 != w,
    decreases t.len(),
{
    if t.len() > 0 && t.last().0 != w {
        lemma_find_word(t.drop_last(), w);
        let d = t.drop_last();
        assert forall|i: int| 0 <= i < t.len() && find_word(t, w) == -1 implies (#[trigger] t[i]).0 != w by {
            if i < t.len() - 1 {
                assert(t[i] == d[i]);
            }
        }
    }
}

proof fn lemma_weight_update(t: Freqs, i: int, e: (Word, nat))
    requires
        0 <= i < t.len(),
    ensures
        weight(t.update(i, e)) + t[i].1 * t[i].0.len() == weight(t) + e.1 * e.0.len(),
    decreases t.len(),
{
    let u = t.update(i, e);
    if i == t.len() - 1 {
        assert(u.drop_last() =~= t.drop_last());
    } else {
        lemma_weight_update(t.drop_last(), i, e);
        assert(u.drop_last() =~= t.drop_last().update(i, e));
    }
}

proof fn lemma_entry_le_weight(t: Freqs, i: int)
    requires
        0 <= i < t.len(),
    ensures
        t[i].1 * t[i].0.len() <= weight(t),
    decreases t.len(),
{
    if i < t.len() - 1 {
        lemma_entry_le_weight(t.drop_last(), i);
        assert(t.drop_last()[i] == t[i]);
    }
}

/// Adding `c` occurrences of a word adds `c` times its length to the weight,
/// and keeps the list duplicate-free and proper.
proof fn lemma_add_word(t: Freqs, w: Word, c: nat)
    requires
        distinct_words(t),
        proper_freqs(t),
        c >= 1,
        w.len() >= 1,
    ensures
        weight(add_word(t, w, c)) == weight(t) + c * w.len(),
        distinct_words(add_word(t, w, c)),
        proper_freqs(add_word(t, w, c)),
        find_word(t, w) >= 0 ==> add_word(t, w, c)[find_word(t, w)].1 * w.len() <= weight(add_word(t, w, c)),
{
    lemma_find_word(t, w);
    let i = find_word(t, w);
    let u = add_word(t, w, c);
    if i >= 0 {
        lemma_weight_update(t, i, (w, t[i].1 + c));
        assert((t[i].1 + c) * w.len() == t[i].1 * w.len() + c * w.len()) by (nonlinear_arith);
        lemma_entry_le_weight(u, i);
        assert forall|a: int, b: int| 0 <= a < b < u.len() implies (#[trigger] u[a]).0 != (#[trigger] u[b]).0 by {
            if a == i {
                assert(t[b].0 != t[i].0);
            } else if b == i {
                assert(t[a].0 != t[i].0);
            } else {
                assert(t[a].0 != t[b].0);
            }
        }
    } else {
        assert(u.drop_last() =~= t);
        assert forall|a: int, b: int| 0 <= a < b < u.len() implies (#[trigger] u[a]).0 != (#[trigger] u[b]).0 by {
            if b == t.len() {
                assert(t[a].0 != w);
            } else {
                assert(t[a].0 != t[b].0);
            }
        }
    }
}

/// Exec-side view of one frequency entry.
pub open spec fn entry_view(e: (Vec<String>, u64)) -> (Word, nat) {
    (strings_view(e.0@), e.1 as nat)
}

/// Exec-side view of a frequency table.
pub open spec fn table_view(t: Seq<(Vec<String>, u64)>) -> Freqs {
    t.map_values(|e: (Vec<String>, u64)| entry_view(e))
}

proof fn lemma_table_view_push(t: Seq<(Vec<String>, u64)>, e: (Vec<String>, u64))
    ensures
        table_view(t.push(e)) == table_view(t).push(entry_view(e)),
{
    assert(table_view(t.push(e)) =~= table_view(t).push(entry_view(e)));
}

proof fn lemma_table_view_update(t: Seq<(Vec<String>, u64)>, i: int, e: (Vec<String>, u64))
    requires
        0 <= i < t.len(),
    ensures
        table_view(t.update(i, e)) == table_view(t).update(i, entry_view(e)),
{
    assert(table_view(t.update(i, e)) =~= table_view(t).update(i, entry_view(e)));
}

/// Whether two symbol lists are equal.
fn words_equal(a: &[String], b: &[String]) -> (r: bool)
    ensures
        r == (strings_view(a@) == strings_view(b@)),
{
    if a.len() != b.len() {
        return false;
    }
    let n = a.len();
    let mut i: usize = 0;
    while i < n
        invariant
            n == a@.len(),
            n == b@.len(),
            0 <= i <= n,
            forall|j: int| 0 <= j < i ==> strings_view(a@)[j] == strings_view(b@)[j],
        decreases n - i,
    {
        if !str_eq(a[i].as_str(), b[i].as_str()) {
            assert(strings_view(a@)[i as int] != strings_view(b@)[i as int]);
            return false;
        }
        i = i + 1;
    }
    assert(strings_view(a@) =~= strings_view(b@));
    true
}

/// Position of a word in a frequency table (its last occurrence), if any.
fn find_word_exec(t: &Vec<(Vec<String>, u64)>, w: &[String]) -> (r: Option<usize>)
    ensures
        r matches Some(i) ==> i == find_word(table_view(t@), strings_view(w@)),
        r is None ==> find_word(table_view(t@), strings_view(w@)) == -1,
{
    let ghost tv = table_view(t@);
    let mut i: usize = t.len();
    assert(tv.take(i as int) =~= tv);
    while i > 0
        invariant
            0 <= i <= t@.len(),
            tv == table_view(t@),
            find_word(tv, strings_view(w@)) == find_word(tv.take(i as int), strings_view(w@)),
        decreases i,
    {
        proof {
            assert(tv.take(i as int).drop_last() =~= tv.take(i - 1));
            assert(tv.take(i as int).last() == entry_view(t@[i - 1]));
        }
        if words_equal(t[i - 1].0.as_slice(), w) {
            return Some(i - 1);
        }
        i = i - 1;
    }
    None
}

/// Counts `c` more occurrences of `w` in a frequency table.
fn add_word_exec(t: &mut Vec<(Vec<String>, u64)>, w: Vec<String>, c: u64)
    requires
        ({
            let tv = table_view(old(t)@);
            let i = find_word(tv, strings_view(w@));
            i >= 0 ==> tv[i].1 + c <= u64::MAX
        }),
    ensures
        table_view(final(t)@) == add_word(table_view(old(t)@), strings_view(w@), c as nat),
{
    let ghost tv = table_view(t@);
    proof {
        lemma_find_word(tv, strings_view(w@));
    }
    match find_word_exec(t, w.as_slice()) {
        Some(i) => {
            let f = t[i].1;
            let ghost wv = strings_view(w@);
            let ghost old_t = t@;
            t.set(i, (w, f + c));
            proof {
                lemma_table_view_update(old_t, i as int, (w, (f + c) as u64));
            }
        },
        None => {
            let ghost old_t = t@;
            t.push((w, c));
            proof {
                lemma_table_view_push(old_t, (w, c));
            }
        },
    }
}

/// A pair count entry as plain values: (left, right, count).
pub type PairView = (Seq<char>, Seq<char>, nat);

/// Exec-side view of a pair count entry.
pub open spec fn pair_view(e: (String, String, u64)) -> PairView {
    (e.0@, e.1@, e.2 as nat)
}

/// Exec-side view of a pair count table.
pub open spec fn pairs_view(p: Seq<(String, String, u64)>) -> Seq<PairView> {
    p.map_values(|e: (String, String, u64)| pair_view(e))
}

/// Position of the pair `(a, b)` in a pair table (last occurrence), or -1.
pub open spec fn pair_find(p: Seq<PairView>, a: Seq<char>, b: Seq<char>) -> int
    decreases p.len(),
{
    if p.len() == 0 {
        -1
    } else if p.last().0 == a && p.last().1 == b {
        p.len() - 1
    } else {
        pair_find(p.drop_last(), a, b)
    }
}

/// The count recorded for `(a, b)`, zero when absent.
pub open spec fn pair_lookup(p: Seq<PairView>, a: Seq<char>, b: Seq<char>) -> nat {
    if pair_find(p, a, b) >= 0 {
        p[pair_find(p, a, b)].2
    } else {
        0
    }
}

/// The pairs of a pair table are pairwise different.
pub open spec fn distinct_pairs(p: Seq<PairView>) -> bool {
    forall|i: int, j: int| 0 <= i < j < p.len() ==> !((#[trigger] p[i]).0 == (#[trigger] p[j]).0 && p[i].1 == p[j].1)
}

proof fn lemma_pair_find(p: Seq<PairView>, a: Seq<char>, b: Seq<char>)
    ensures
        -1 <= pair_find(p, a, b) < p.len(),
        pair_find(p, a, b) >= 0 ==> p[pair_find(p, a, b)].0 == a && p[pair_find(p, a, b)].1 == b,
        pair_find(p, a, b) == -1 ==> forall|i: int| 0 <= i < p.len() ==> !((#[trigger] p[i]).0 == a && p[i].1 == b),
    decreases p.len(),
{
    if p.len() > 0 && !(p.last().0 == a && p.last().1 == b) {
        lemma_pair_find(p.drop_last(), a, b);
        let d = p.drop_last();
        assert forall|i: int| 0 <= i < p.len() && pair_find(p, a, b) == -1 implies !((#[trigger] p[i]).0 == a && p[i].1 == b) by {
            if i < p.len() - 1 {
                assert(p[i] == d[i]);
            }
        }
    }
}

/// In a duplicate-free table, the entry at `k` is the one found for its pair.
proof fn lemma_pair_find_distinct(p: Seq<PairView>, k: int)
    requires
        distinct_pairs(p),
        0 <= k < p.len(),
    ensures
        pair_find(p, p[k].0, p[k].1) == k,
    decreases p.len(),
{
    if k < p.len() - 1 {
        let d = p.drop_last();
        assert(!(p[k].0 == p[p.len() - 1].0 && p[k].1 == p[p.len() - 1].1));
        assert forall|i: int, j: int| 0 <= i < j < d.len() implies !((#[trigger] d[i]).0 == (#[trigger] d[j]).0 && d[i].1 == d[j].1) by {
            assert(d[i] == p[i] && d[j] == p[j]);
        }
        lemma_pair_find_distinct(d, k);
        assert(d[k] == p[k]);
    }
}

/// Updating one entry's count changes the lookup of its pair only.
proof fn lemma_pair_lookup_update(p: Seq<PairView>, k: int, n: nat, a: Seq<char>, b: Seq<char>)
    requires
        distinct_pairs(p),
        0 <= k < p.len(),
    ensures
        distinct_pairs(p.update(k, (p[k].0, p[k].1, n))),
        pair_lookup(p.update(k, (p[k].0, p[k].1, n)), a, b) == if a == p[k].0 && b == p[k].1 {
            n
        } else {
            pair_lookup(p, a, b)
        },
{
    let u = p.update(k, (p[k].0, p[k].1, n));
    assert forall|i: int, j: int| 0 <= i < j < u.len() implies !((#[trigger] u[i]).0 == (#[trigger] u[j]).0 && u[i].1 == u[j].1) by {
        assert(u[i].0 == p[i].0 && u[i].1 == p[i].1);
        assert(u[j].0 == p[j].0 && u[j].1 == p[j].1);
    }
    lemma_pair_find(p, a, b);
    lemma_pair_find(u, a, b);
    if a == p[k].0 && b == p[k].1 {
        lemma_pair_find_distinct(u, k);
    } else {
        if pair_find(p, a, b) >= 0 {
            lemma_pair_find_distinct(p, pair_find(p, a, b));
            lemma_pair_find_distinct(u, pair_find(p, a, b));
        } else if pair_find(u, a, b) >= 0 {
            assert(u[pair_find(u, a, b)].0 == p[pair_find(u, a, b)].0);
        }
    }
}

/// Appending a new pair gives it its count and leaves other lookups alone.
proof fn lemma_pair_lookup_push(p: Seq<PairView>, e: PairView, a: Seq<char>, b: Seq<char>)
    requires
        distinct_pairs(p),
        pair_find(p, e.0, e.1) == -1,
    ensures
        distinct_pairs(p.push(e)),
        pair_lookup(p.push(e), a, b) == if a == e.0 && b == e.1 {
            e.2
        } else {
            pair_lookup(p, a, b)
        },
{
    let u = p.push(e);
    lemma_pair_find(p, e.0, e.1);
    lemma_pair_find(p, a, b);
    assert(u.drop_last() =~= p);
    assert(u.last() == e);
    if !(a == e.0 && b == e.1) {
        assert(pair_find(u, a, b) == pair_find(p, a, b));
        if pair_find(p, a, b) >= 0 {
            assert(u[pair_find(p, a, b)] == p[pair_find(p, a, b)]);
        }
    }
    assert forall|i: int, j: int| 0 <= i < j < u.len() implies !((#[trigger] u[i]).0 == (#[trigger] u[j]).0 && u[i].1 == u[j].1) by {
        if j == p.len() {
            assert(u[i] == p[i]);
        } else {
            assert(u[i] == p[i] && u[j] == p[j]);
        }
    }
    assert(u.drop_last() =~= p);
}

proof fn lemma_pairs_view_push(p: Seq<(String, String, u64)>, e: (String, String, u64))
    ensures
        pairs_view(p.push(e)) == pairs_view(p).push(pair_view(e)),
{
    assert(pairs_view(p.push(e)) =~= pairs_view(p).push(pair_view(e)));
}

proof fn lemma_pairs_view_update(p: Seq<(String, String, u64)>, i: int, e: (String, String, u64))
    requires
        0 <= i < p.len(),
    ensures
        pairs_view(p.update(i, e)) == pairs_view(p).update(i, pair_view(e)),
{
    assert(pairs_view(p.update(i, e)) =~= pairs_view(p).update(i, pair_view(e)));
}

/// Counting a further symbol of a word adds the pair ending at it.
proof fn lemma_occ_take(w: Word, k: int, a: Seq<char>, b: Seq<char>)
    requires
        1 <= k < w.len(),
    ensures
        occ(w.take(k + 1), a, b) == occ(w.take(k), a, b) + if w[k - 1] == a && w[k] == b { 1nat } else { 0nat },
    decreases k,
{
    let d = w.drop_first();
    assert(w.take(k + 1).drop_first() =~= d.take(k));
    if k == 1 {
        assert(d.take(1).len() < 2);
        assert(w.take(1).len() < 2);
        assert(w.take(2)[0] == w[0] && w.take(2)[1] == w[1]);
        assert(occ(w.take(2).drop_first(), a, b) == 0);
        assert(occ(w.take(2), a, b) == (if w[0] == a && w[1] == b { 1nat } else { 0nat }) + occ(
            w.take(2).drop_first(),
            a,
            b,
        ));
    } else {
        lemma_occ_take(d, k - 1, a, b);
        assert(w.take(k).drop_first() =~= d.take(k - 1));
        assert(w.take(k + 1)[0] == w[0] && w.take(k + 1)[1] == w[1]);
        assert(w.take(k)[0] == w[0] && w.take(k)[1] == w[1]);
        assert(d[k - 2] == w[k - 1] && d[k - 1] == w[k]);
        assert(occ(w.take(k + 1), a, b) == (if w[0] == a && w[1] == b { 1nat } else { 0nat }) + occ(
            d.take(k),
            a,
            b,
        ));
        assert(occ(w.take(k), a, b) == (if w[0] == a && w[1] == b { 1nat } else { 0nat }) + occ(
            d.take(k - 1),
            a,
            b,
        ));
    }
}

proof fn lemma_occ_le_len(w: Word, a: Seq<char>, b: Seq<char>)
    ensures
        occ(w, a, b) <= w.len(),
    decreases w.len(),
{
    if w.len() >= 2 {
        lemma_occ_le_len(w.drop_first(), a, b);
    }
}

proof fn lemma_occ_take_le(w: Word, k: int, a: Seq<char>, b: Seq<char>)
    requires
        1 <= k <= w.len(),
    ensures
        occ(w.take(k), a, b) <= occ(w, a, b),
    decreases w.len() - k,
{
    if k < w.len() {
        lemma_occ_take(w, k, a, b);
        lemma_occ_take_le(w, k + 1, a, b);
    } else {
        assert(w.take(k) =~= w);
    }
}

proof fn lemma_pair_count_take(t: Freqs, i: int, a: Seq<char>, b: Seq<char>)
    requires
        0 <= i <= t.len(),
    ensures
        pair_count(t.take(i), a, b) <= pair_count(t, a, b),
        i < t.len() ==> pair_count(t.take(i + 1), a, b) == pair_count(t.take(i), a, b) + t[i].1 * occ(t[i].0, a, b),
    decreases t.len() - i,
{
    if i < t.len() {
        assert(t.take(i + 1).drop_last() =~= t.take(i));
        assert(t.take(i + 1).last() == t[i]);
        lemma_pair_count_take(t, i + 1, a, b);
    } else {
        assert(t.take(i) =~= t);
    }
}

proof fn lemma_pair_count_le_weight(t: Freqs, a: Seq<char>, b: Seq<char>)
    ensures
        pair_count(t, a, b) <= weight(t),
    decreases t.len(),
{
    if t.len() > 0 {
        lemma_pair_count_le_weight(t.drop_last(), a, b);
        lemma_occ_le_len(t.last().0, a, b);
        let c = t.last().1;
        let o = occ(t.last().0, a, b);
        let l = t.last().0.len();
        assert(c * o <= c * l) by (nonlinear_arith)
            requires
                o <= l,
        ;
    }
}

proof fn lemma_has_pair_take(t: Freqs, i: int)
    requires
        0 <= i < t.len(),
    ensures
        has_pair(t.take(i + 1)) == (has_pair(t.take(i)) || t[i].0.len() >= 2),
{
    let a = t.take(i);
    let b = t.take(i + 1);
    if has_pair(a) {
        let k = choose|k: int| 0 <= k < a.len() && (#[trigger] a[k]).0.len() >= 2;
        assert(b[k] == a[k]);
    }
    if t[i].0.len() >= 2 {
        assert(b[i] == t[i]);
    }
    if has_pair(b) {
        let k = choose|k: int| 0 <= k < b.len() && (#[trigger] b[k]).0.len() >= 2;
        if k < i {
            assert(a[k] == b[k]);
        }
    }
}

/// Position of the pair `(a, b)` in a pair table (last occurrence), if any.
fn find_pair(pt: &Vec<(String, String, u64)>, a: &str, b: &str) -> (r: Option<usize>)
    ensures
        r matches Some(i) ==> i == pair_find(pairs_view(pt@), a@, b@),
        r is None ==> pair_find(pairs_view(pt@), a@, b@) == -1,
{
    let ghost pv = pairs_view(pt@);
    let mut k: usize = pt.len();
    assert(pv.take(k as int) =~= pv);
    while k > 0
        invariant
            0 <= k <= pt@.len(),
            pv == pairs_view(pt@),
            pair_find(pv, a@, b@) == pair_find(pv.take(k as int), a@, b@),
        decreases k,
    {
        proof {
            assert(pv.take(k as int).drop_last() =~= pv.take(k - 1));
            assert(pv.take(k as int).last() == pair_view(pt@[k - 1]));
        }
        if str_eq(pt[k - 1].0.as_str(), a) && str_eq(pt[k - 1].1.as_str(), b) {
            return Some(k - 1);
        }
        k = k - 1;
    }
    None
}

/// Counts every adjacent pair of symbols across the table's words, each word
/// weighted by its frequency.
fn count_pairs(t: &Vec<(Vec<String>, u64)>) -> (pt: Vec<(String, String, u64)>)
    requires
        proper_freqs(table_view(t@)),
        weight(table_view(t@)) <= u64::MAX,
    ensures
        distinct_pairs(pairs_view(pt@)),
        forall|a: Seq<char>, b: Seq<char>| #[trigger] pair_lookup(pairs_view(pt@), a, b) == pair_count(table_view(t@), a, b),
        forall|k: int| 0 <= k < pt@.len() ==> (#[trigger] pt@[k]).2 >= 1,
        pt@.len() > 0 <==> has_pair(table_view(t@)),
{
    let ghost tv = table_view(t@);
    let mut pt: Vec<(String, String, u64)> = Vec::new();
    let n = t.len();
    let mut i: usize = 0;
    while i < n
        invariant
            n == t@.len(),
            tv == table_view(t@),
            proper_freqs(tv),
            weight(tv) <= u64::MAX,
            0 <= i <= n,
            distinct_pairs(pairs_view(pt@)),
            forall|a: Seq<char>, b: Seq<char>| #[trigger] pair_lookup(pairs_view(pt@), a, b) == pair_count(tv.take(i as int), a, b),
            forall|k: int| 0 <= k < pt@.len() ==> (#[trigger] pt@[k]).2 >= 1,
            pt@.len() > 0 <==> has_pair(tv.take(i as int)),
        decreases n - i,
    {
        let w = &t[i].0;
        let c = t[i].1;
        let ghost wv = strings_view(w@);
        proof {
            assert(tv[i as int] == entry_view(t@[i as int]));
            assert(tv[i as int].1 >= 1 && tv[i as int].0.len() >= 1);
        }
        let len = w.len();
        let mut j: usize = 1;
        proof {
            assert forall|a: Seq<char>, b: Seq<char>| #[trigger] pair_lookup(pairs_view(pt@), a, b) == pair_count(
                tv.take(i as int),
                a,
                b,
            ) + c * occ(wv.take(1), a, b) by {
                assert(occ(wv.take(1), a, b) == 0);
            }
        }
        while j < len
            invariant
                n == t@.len(),
                tv == table_view(t@),
                0 <= i < n,
                wv == strings_view(w@),
                wv == tv[i as int].0,
                c as nat == tv[i as int].1,
                c >= 1,
                len == w@.len(),
                1 <= j <= len,
                weight(tv) <= u64::MAX,
                distinct_pairs(pairs_view(pt@)),
                forall|a: Seq<char>, b: Seq<char>| #[trigger] pair_lookup(pairs_view(pt@), a, b) == pair_count(tv.take(i as int), a, b)
                    + c * occ(wv.take(j as int), a, b),
                forall|k: int| 0 <= k < pt@.len() ==> (#[trigger] pt@[k]).2 >= 1,
                pt@.len() > 0 <==> (has_pair(tv.take(i as int)) || j > 1),
            decreases len - j,
        {
            let ghost pv = pairs_view(pt@);
            let ghost a0 = wv[j - 1];
            let ghost b0 = wv[j as int];
            proof {
                lemma_occ_take(wv, j as int, a0, b0);
                lemma_occ_take_le(wv, (j + 1) as int, a0, b0);
                lemma_pair_count_take(tv, i as int, a0, b0);
                lemma_pair_count_le_weight(tv, a0, b0);
                let x = occ(wv.take(j as int), a0, b0);
                let y = occ(wv, a0, b0);
                assert(c * (x + 1) <= c * y) by (nonlinear_arith)
                    requires
                        x + 1 <= y,
                ;
                assert(c * (x + 1) == c * x + c) by (nonlinear_arith);
            }
            let found = find_pair(&pt, w[j - 1].as_str(), w[j].as_str());
            proof {
                lemma_pair_find(pv, a0, b0);
                assert(a0 == w@[j - 1]@);
                assert(b0 == w@[j as int]@);
            }
            match found {
                Some(idx) => {
                    let cur = pt[idx].2;
                    let ghost old_pt = pt@;
                    proof {
                        assert(pv[idx as int] == pair_view(pt@[idx as int]));
                        assert(cur as nat == pair_lookup(pv, a0, b0));
                        assert(pair_lookup(pairs_view(pt@), a0, b0) == pair_count(tv.take(i as int), a0, b0) + c * occ(
                            wv.take(j as int),
                            a0,
                            b0,
                        ));
                        assert(tv.take(i + 1).drop_last() =~= tv.take(i as int));
                        assert(pair_count(tv.take(i + 1), a0, b0) == pair_count(tv.take(i as int), a0, b0) + c * occ(wv, a0, b0));
                        lemma_pair_count_take(tv, (i + 1) as int, a0, b0);
                    }
                    let entry = (pt[idx].0.clone(), pt[idx].1.clone(), cur + c);
                    pt.set(idx, entry);
                    proof {
                        lemma_pairs_view_update(old_pt, idx as int, entry);
                        assert(pair_view(entry) == (pv[idx as int].0, pv[idx as int].1, (cur + c) as nat));
                        assert forall|a: Seq<char>, b: Seq<char>| #[trigger] pair_lookup(pairs_view(pt@), a, b)
                            == pair_count(tv.take(i as int), a, b) + c * occ(wv.take(j + 1), a, b) by {
                            lemma_pair_lookup_update(pv, idx as int, (cur + c) as nat, a, b);
                            lemma_occ_take(wv, j as int, a, b);
                            let x = occ(wv.take(j as int), a, b);
                            assert(c * (x + 1) == c * x + c) by (nonlinear_arith);
                        }
                        lemma_pair_lookup_update(pv, idx as int, (cur + c) as nat, a0, b0);
                    }
                },
                None => {
                    let entry = (w[j - 1].clone(), w[j].clone(), c);
                    let ghost old_pt = pt@;
                    pt.push(entry);
                    proof {
                        lemma_pairs_view_push(old_pt, entry);
                        assert(pair_view(entry) == (a0, b0, c as nat));
                        assert forall|a: Seq<char>, b: Seq<char>| #[trigger] pair_lookup(pairs_view(pt@), a, b)
                            == pair_count(tv.take(i as int), a, b) + c * occ(wv.take(j + 1), a, b) by {
                            assert(pair_lookup(pairs_view(old_pt), a, b) == pair_count(tv.take(i as int), a, b) + c * occ(
                                wv.take(j as int),
                                a,
                                b,
                            ));
                            lemma_pair_lookup_push(pv, (a0, b0, c as nat), a, b);
                            lemma_occ_take(wv, j as int, a, b);
                            let x = occ(wv.take(j as int), a, b);
                            assert(c * (x + 1) == c * x + c) by (nonlinear_arith);
                        }
                        lemma_pair_lookup_push(pv, (a0, b0, c as nat), a0, b0);
                    }
                },
            }
            j = j + 1;
        }
        proof {
            assert(wv.take(len as int) =~= wv);
            assert forall|a: Seq<char>, b: Seq<char>| #[trigger] pair_lookup(pairs_view(pt@), a, b) == pair_count(
                tv.take(i + 1),
                a,
                b,
            ) by {
                lemma_pair_count_take(tv, i as int, a, b);
                if len == 1 {
                    assert(occ(wv.take(1), a, b) == 0);
                }
            }
            lemma_has_pair_take(tv, i as int);
        }
        i = i + 1;
    }
    assert(tv.take(n as int) =~= tv);
    pt
}

/// Merging never lengthens a word, keeps a non-empty word non-empty, and
/// shortens a word where the pair occurs.
pub(crate) proof fn lemma_merge_word_len(w: Word, l: Seq<char>, r: Seq<char>, m: Seq<char>)
    ensures
        merge_word(w, l, r, m).len() <= w.len(),
        w.len() >= 1 ==> merge_word(w, l, r, m).len() >= 1,
        occ(w, l, r) >= 1 ==> merge_word(w, l, r, m).len() < w.len(),
    decreases w.len(),
{
    if w.len() == 0 {
    } else if w.len() >= 2 && w[0] == l && w[1] == r {
        lemma_merge_word_len(w.skip(2), l, r, m);
    } else {
        lemma_merge_word_len(w.skip(1), l, r, m);
        assert(w.skip(1) =~= w.drop_first());
    }
}

/// Merging keeps the frequency list duplicate-free and proper, never raises
/// its weight, and lowers it when the merged pair occurs.
pub(crate) proof fn lemma_merge_freqs(t: Freqs, l: Seq<char>, r: Seq<char>, m: Seq<char>)
    requires
        proper_freqs(t),
    ensures
        distinct_words(merge_freqs(t, l, r, m)),
        proper_freqs(merge_freqs(t, l, r, m)),
        weight(merge_freqs(t, l, r, m)) <= weight(t),
        pair_count(t, l, r) >= 1 ==> weight(merge_freqs(t, l, r, m)) < weight(t),
    decreases t.len(),
{
    if t.len() > 0 {
        let d = t.drop_last();
        assert forall|i: int| 0 <= i < d.len() implies (#[trigger] d[i]).1 >= 1 && d[i].0.len() >= 1 by {
            assert(d[i] == t[i]);
        }
        lemma_merge_freqs(d, l, r, m);
        let e = t.last();
        assert(e == t[t.len() - 1]);
        let w2 = merge_word(e.0, l, r, m);
        lemma_merge_word_len(e.0, l, r, m);
        lemma_add_word(merge_freqs(d, l, r, m), w2, e.1);
        let c = e.1;
        let a = w2.len();
        let b = e.0.len();
        assert(c * a <= c * b) by (nonlinear_arith)
            requires
                a <= b,
        ;
        if occ(e.0, l, r) >= 1 {
            assert(c * a < c * b) by (nonlinear_arith)
                requires
                    a < b,
                    c >= 1,
            ;
        }
        if pair_count(t, l, r) >= 1 && occ(e.0, l, r) == 0 {
            assert(c * occ(e.0, l, r) == 0) by (nonlinear_arith)
                requires
                    occ(e.0, l, r) == 0,
            ;
        }
    }
}

proof fn lemma_weight_take(t: Freqs, i: int)
    requires
        0 <= i <= t.len(),
    ensures
        weight(t.take(i)) <= weight(t),
        i < t.len() ==> weight(t.take(i + 1)) == weight(t.take(i)) + t[i].1 * t[i].0.len(),
    decreases t.len() - i,
{
    if i < t.len() {
        assert(t.take(i + 1).drop_last() =~= t.take(i));
        assert(t.take(i + 1).last() == t[i]);
        lemma_weight_take(t, i + 1);
    } else {
        assert(t.take(i) =~= t);
    }
}

/// The frequency table after applying one merge to every word.
fn merge_table(t: &Vec<(Vec<String>, u64)>, l: &str, r: &str, m: &str) -> (nt: Vec<(Vec<String>, u64)>)
    requires
        proper_freqs(table_view(t@)),
        weight(table_view(t@)) <= u64::MAX,
    ensures
        table_view(nt@) == merge_freqs(table_view(t@), l@, r@, m@),
{
    let ghost tv = table_view(t@);
    let mut nt: Vec<(Vec<String>, u64)> = Vec::new();
    let n = t.len();
    let mut i: usize = 0;
    while i < n
        invariant
            n == t@.len(),
            tv == table_view(t@),
            proper_freqs(tv),
            weight(tv) <= u64::MAX,
            0 <= i <= n,
            table_view(nt@) == merge_freqs(tv.take(i as int), l@, r@, m@),
        decreases n - i,
    {
        let ghost pre = tv.take(i as int);
        let ghost post = tv.take(i + 1);
        proof {
            assert(post.drop_last() =~= pre);
            assert(post.last() == tv[i as int]);
            assert(tv[i as int] == entry_view(t@[i as int]));
            assert forall|k: int| 0 <= k < post.len() implies (#[trigger] post[k]).1 >= 1 && post[k].0.len() >= 1 by {
                assert(post[k] == tv[k]);
            }
            assert forall|k: int| 0 <= k < pre.len() implies (#[trigger] pre[k]).1 >= 1 && pre[k].0.len() >= 1 by {
                assert(pre[k] == tv[k]);
            }
        }
        let w2 = apply_merge(t[i].0.as_slice(), l, r, m);
        let c = t[i].1;
        proof {
            let wv = strings_view(w2@);
            lemma_merge_freqs(pre, l@, r@, m@);
            lemma_merge_freqs(post, l@, r@, m@);
            lemma_weight_take(tv, (i + 1) as int);
            lemma_merge_word_len(tv[i as int].0, l@, r@, m@);
            lemma_add_word(merge_freqs(pre, l@, r@, m@), wv, c as nat);
            lemma_find_word(merge_freqs(pre, l@, r@, m@), wv);
            let f = find_word(merge_freqs(pre, l@, r@, m@), wv);
            if f >= 0 {
                let x = add_word(merge_freqs(pre, l@, r@, m@), wv, c as nat)[f].1;
                assert(x <= x * wv.len()) by (nonlinear_arith)
                    requires
                        wv.len() >= 1,
                ;
            }
        }
        add_word_exec(&mut nt, w2, c);
        i = i + 1;
    }
    assert(tv.take(n as int) =~= tv);
    nt
}

/// Index of a most frequent pair (the last one among equals), if any.
fn best_pair(pt: &Vec<(String, String, u64)>) -> (r: Option<usize>)
    ensures
        r is None <==> pt@.len() == 0,
        r matches Some(k) ==> k < pt@.len() && forall|i: int| 0 <= i < pt@.len() ==> (#[trigger] pt@[i]).2 <= pt@[k as int].2,
{
    if pt.len() == 0 {
        return None;
    }
    let mut best: usize = 0;
    let mut i: usize = 1;
    while i < pt.len()
        invariant
            0 <= best < i <= pt@.len(),
            forall|j: int| 0 <= j < i ==> (#[trigger] pt@[j]).2 <= pt@[best as int].2,
        decreases pt@.len() - i,
    {
        if pt[i].2 >= pt[best].2 {
            best = i;
        }
        i = i + 1;
    }
    Some(best)
}

/// The characters of each text of a list.
pub open spec fn texts_view(texts: Seq<&str>) -> Seq<Seq<char>> {
    texts.map_values(|s: &str| s@)
}

/// The corpus's words concatenate to its characters, and none is empty.
pub(crate) proof fn lemma_corpus(tx: Seq<Seq<char>>)
    ensures
        flatten(corpus_words(tx)) == corpus_chars(tx),
        forall|i: int| 0 <= i < corpus_words(tx).len() ==> (#[trigger] corpus_words(tx)[i]).len() >= 1,
    decreases tx.len(),
{
    if tx.len() > 0 {
        lemma_corpus(tx.drop_last());
        let a = corpus_words(tx.drop_last());
        let b = pre_tokenize_spec(tx.last());
        lemma_pre_tokenize_pieces(tx.last());
        lemma_flatten_append(a, b);
        assert forall|i: int| 0 <= i < corpus_words(tx).len() implies (#[trigger] corpus_words(tx)[i]).len() >= 1 by {
            if i < a.len() {
                assert(corpus_words(tx)[i] == a[i]);
            } else {
                assert(corpus_words(tx)[i] == b[i - a.len()]);
                assert(piece_ok(b[i - a.len()]));
            }
        }
    }
}

proof fn lemma_corpus_take(tx: Seq<Seq<char>>, i: int)
    requires
        0 <= i <= tx.len(),
    ensures
        corpus_chars(tx.take(i)).len() <= corpus_chars(tx).len(),
        i < tx.len() ==> corpus_chars(tx.take(i + 1)) == corpus_chars(tx.take(i)) + tx[i],
        i < tx.len() ==> corpus_words(tx.take(i + 1)) == corpus_words(tx.take(i)) + pre_tokenize_spec(tx[i]),
    decreases tx.len() - i,
{
    if i < tx.len() {
        assert(tx.take(i + 1).drop_last() =~= tx.take(i));
        assert(tx.take(i + 1).last() == tx[i]);
        lemma_corpus_take(tx, i + 1);
    } else {
        assert(tx.take(i) =~= tx);
    }
}

proof fn lemma_flatten_take_len(ws: Seq<Seq<char>>, k: int)
    requires
        0 <= k <= ws.len(),
    ensures
        flatten(ws.take(k)).len() <= flatten(ws).len(),
{
    lemma_flatten_append(ws.take(k), ws.skip(k));
    assert(ws.take(k) + ws.skip(k) =~= ws);
}

/// The frequencies of a list of non-empty words are duplicate-free and
/// proper, and weigh as many symbols as the words have characters.
pub(crate) proof fn lemma_freqs_of_words(ws: Seq<Seq<char>>)
    requires
        forall|i: int| 0 <= i < ws.len() ==> (#[trigger] ws[i]).len() >= 1,
    ensures
        distinct_words(freqs_of_words(ws)),
        proper_freqs(freqs_of_words(ws)),
        weight(freqs_of_words(ws)) == flatten(ws).len(),
    decreases ws.len(),
{
    if ws.len() > 0 {
        let d = ws.drop_last();
        assert forall|i: int| 0 <= i < d.len() implies (#[trigger] d[i]).len() >= 1 by {
            assert(d[i] == ws[i]);
        }
        lemma_freqs_of_words(d);
        assert(ws.last() == ws[ws.len() - 1]);
        lemma_add_word(freqs_of_words(d), char_symbols(ws.last()), 1);
        lemma_flatten_push(d, ws.last());
        assert(d.push(ws.last()) =~= ws);
    } else {
        assert(flatten(ws) =~= Seq::<char>::empty());
    }
}

/// Counts the pre-tokenized words of all texts.
fn build_table(texts: &[&str]) -> (t: Vec<(Vec<String>, u64)>)
    requires
        corpus_chars(texts_view(texts@)).len() <= u64::MAX,
    ensures
        table_view(t@) == freqs_of_words(corpus_words(texts_view(texts@))),
{
    let ghost tx = texts_view(texts@);
    let mut t: Vec<(Vec<String>, u64)> = Vec::new();
    let n = texts.len();
    let mut i: usize = 0;
    proof {
        lemma_corpus(tx);
    }
    while i < n
        invariant
            n == texts@.len(),
            tx == texts_view(texts@),
            corpus_chars(tx).len() <= u64::MAX,
            0 <= i <= n,
            table_view(t@) == freqs_of_words(corpus_words(tx.take(i as int))),
        decreases n - i,
    {
        let pieces = pre_tokenize(texts[i]);
        let ghost pv = strings_view(pieces@);
        let ghost base = corpus_words(tx.take(i as int));
        proof {
            assert(tx[i as int] == texts@[i as int]@);
            lemma_corpus_take(tx, i as int);
            lemma_corpus_take(tx, (i + 1) as int);
            lemma_corpus(tx.take(i as int));
            lemma_pre_tokenize_pieces(tx[i as int]);
        }
        let mut k: usize = 0;
        assert(base + pv.take(0) =~= base);
        while k < pieces.len()
            invariant
                n == texts@.len(),
                0 <= i < n,
                tx == texts_view(texts@),
                pv == strings_view(pieces@),
                pv == pre_tokenize_spec(tx[i as int]),
                flatten(pv) == tx[i as int],
                forall|j: int| 0 <= j < pv.len() ==> piece_ok(#[trigger] pv[j]),
                base == corpus_words(tx.take(i as int)),
                flatten(base) == corpus_chars(tx.take(i as int)),
                forall|j: int| 0 <= j < base.len() ==> (#[trigger] base[j]).len() >= 1,
                corpus_chars(tx.take(i as int)).len() + tx[i as int].len() <= corpus_chars(tx).len(),
                corpus_chars(tx).len() <= u64::MAX,
                0 <= k <= pv.len(),
                table_view(t@) == freqs_of_words(base + pv.take(k as int)),
            decreases pv.len() - k,
        {
            let syms = char_strings(pieces[k].as_str());
            let ghost ws = base + pv.take(k as int);
            let ghost ws2 = base + pv.take(k + 1);
            proof {
                assert(pv[k as int] == pieces@[k as int]@);
                assert(piece_ok(pv[k as int]));
                assert(ws2 =~= ws.push(pv[k as int]));
                assert(ws2.drop_last() =~= ws);
                assert forall|j: int| 0 <= j < ws.len() implies (#[trigger] ws[j]).len() >= 1 by {
                    if j < base.len() {
                        assert(ws[j] == base[j]);
                    } else {
                        assert(ws[j] == pv[j - base.len()]);
                    }
                }
                assert forall|j: int| 0 <= j < ws2.len() implies (#[trigger] ws2[j]).len() >= 1 by {
                    if j < base.len() {
                        assert(ws2[j] == base[j]);
                    } else {
                        assert(ws2[j] == pv[j - base.len()]);
                    }
                }
                lemma_freqs_of_words(ws);
                lemma_freqs_of_words(ws2);
                lemma_flatten_append(base, pv.take(k + 1));
                lemma_flatten_take_len(pv, k + 1);
                let w = char_symbols(pv[k as int]);
                lemma_add_word(freqs_of_words(ws), w, 1);
                lemma_find_word(freqs_of_words(ws), w);
                let f = find_word(freqs_of_words(ws), w);
                if f >= 0 {
                    let x = add_word(freqs_of_words(ws), w, 1)[f].1;
                    assert(x <= x * w.len()) by (nonlinear_arith)
                        requires
                            w.len() >= 1,
                    ;
                }
            }
            add_word_exec(&mut t, syms, 1);
            k = k + 1;
        }
        proof {
            assert(pv.take(pv.len() as int) =~= pv);
        }
        i = i + 1;
    }
    assert(tx.take(n as int) =~= tx);
    t
}

/// The distinct characters of all texts, in first-seen order.
fn distinct_chars(texts: &[&str]) -> (cl: Vec<char>)
    ensures
        forall|i: int, j: int| 0 <= i < j < cl@.len() ==> cl@[i] != cl@[j],
        forall|c: char| cl@.contains(c) <==> corpus_chars(texts_view(texts@)).contains(c),
{
    let ghost tx = texts_view(texts@);
    let mut cl: Vec<char> = Vec::new();
    let n = texts.len();
    let mut i: usize = 0;
    while i < n
        invariant
            n == texts@.len(),
            tx == texts_view(texts@),
            0 <= i <= n,
            forall|a: int, b: int| 0 <= a < b < cl@.len() ==> cl@[a] != cl@[b],
            forall|c: char| cl@.contains(c) <==> corpus_chars(tx.take(i as int)).contains(c),
        decreases n - i,
    {
        let cs = chars_of(texts[i]);
        let ghost pre = corpus_chars(tx.take(i as int));
        proof {
            lemma_corpus_take(tx, i as int);
            assert(tx[i as int] == texts@[i as int]@);
        }
        let mut j: usize = 0;
        while j < cs.len()
            invariant
                0 <= j <= cs@.len(),
                forall|a: int, b: int| 0 <= a < b < cl@.len() ==> cl@[a] != cl@[b],
                forall|c: char| cl@.contains(c) <==> (pre + cs@.take(j as int)).contains(c),
            decreases cs@.len() - j,
        {
            let c = cs[j];
            let mut found = false;
            let mut k: usize = 0;
            while k < cl.len()
                invariant
                    0 <= k <= cl@.len(),
                    found <==> exists|m: int| 0 <= m < k && cl@[m] == c,
                decreases cl@.len() - k,
            {
                if cl[k] == c {
                    found = true;
                }
                k = k + 1;
            }
            let ghost before = cl@;
            if !found {
                cl.push(c);
            }
            proof {
                let p2 = pre + cs@.take(j + 1);
                assert(p2 =~= (pre + cs@.take(j as int)).push(c));
                assert forall|x: char| cl@.contains(x) <==> p2.contains(x) by {
                    assert(before.contains(x) <==> (pre + cs@.take(j as int)).contains(x));
                    if cl@.contains(x) {
                        let m = choose|m: int| 0 <= m < cl@.len() && cl@[m] == x;
                        if m < before.len() {
                            assert(before[m] == x);
                            assert(before.contains(x));
                            let q = choose|q: int| 0 <= q < (pre + cs@.take(j as int)).len() && (pre + cs@.take(j as int))[q] == x;
                            assert(p2[q] == x);
                        } else {
                            assert(p2[p2.len() - 1] == x);
                        }
                    }
                    if p2.contains(x) {
                        let q = choose|q: int| 0 <= q < p2.len() && p2[q] == x;
                        if q < p2.len() - 1 {
                            assert((pre + cs@.take(j as int))[q] == x);
                            assert((pre + cs@.take(j as int)).contains(x));
                            let m = choose|m: int| 0 <= m < before.len() && before[m] == x;
                            assert(cl@[m] == x);
                        } else {
                            if found {
                                let m = choose|m: int| 0 <= m < cl@.len() && cl@[m] == c;
                                assert(cl@[m] == x);
                            } else {
                                assert(cl@[cl@.len() - 1] == x);
                            }
                        }
                    }
                }
            }
            j = j + 1;
        }
        proof {
            assert(cs@.take(cs@.len() as int) =~= cs@);
            assert(corpus_chars(tx.take(i + 1)) == pre + cs@);
        }
        i = i + 1;
    }
    assert(tx.take(n as int) =~= tx);
    cl
}

/// The given distinct characters sorted by code point.
fn sort_chars(cl: &Vec<char>) -> (out: Vec<char>)
    requires
        forall|i: int, j: int| 0 <= i < j < cl@.len() ==> cl@[i] != cl@[j],
    ensures
        forall|i: int, j: int| 0 <= i < j < out@.len() ==> (out@[i] as u32) < (out@[j] as u32),
        forall|c: char| out@.contains(c) <==> cl@.contains(c),
{
    let mut out: Vec<char> = Vec::new();
    let n = cl.len();
    let mut k: usize = 0;
    while k < n
        invariant
            n == cl@.len(),
            0 <= k <= n,
            forall|i: int, j: int| 0 <= i < j < cl@.len() ==> cl@[i] != cl@[j],
            forall|i: int, j: int| 0 <= i < j < out@.len() ==> (out@[i] as u32) < (out@[j] as u32),
            forall|c: char| out@.contains(c) <==> cl@.take(k as int).contains(c),
        decreases n - k,
    {
        let x = cl[k];
        let mut p: usize = 0;
        while p < out.len() && (out[p] as u32) < (x as u32)
            invariant
                0 <= p <= out@.len(),
                forall|q: int| 0 <= q < p ==> (out@[q] as u32) < (x as u32),
            decreases out@.len() - p,
        {
            p = p + 1;
        }
        proof {
            assert(!cl@.take(k as int).contains(x)) by {
                if cl@.take(k as int).contains(x) {
                    let ck1 = cl@.take(k as int);
                    let m = choose|m: int| 0 <= m < ck1.len() && ck1[m] == x;
                    assert(cl@[m] == cl@[k as int]);
                }
            }
            assert(!out@.contains(x));
            if p < out@.len() {
                assert((out@[p as int] as u32) != (x as u32)) by {
                    if (out@[p as int] as u32) == (x as u32) {
                        vstd::utf8::char_u32_cast(out@[p as int], out@[p as int] as u32);
                        vstd::utf8::char_u32_cast(x, x as u32);
                        assert(out@.contains(x)) by {
                            assert(out@[p as int] == x);
                        }
                    }
                }
            }
        }
        let ghost before = out@;
        out.insert(p, x);
        proof {
            assert(out@ =~= before.take(p as int).push(x) + before.skip(p as int));
            assert forall|i: int, j: int| 0 <= i < j < out@.len() implies (out@[i] as u32) < (out@[j] as u32) by {
                if j < p {
                    assert(out@[i] == before[i] && out@[j] == before[j]);
                } else if j == p {
                    assert(out@[i] == before[i]);
                } else if i < p {
                    assert(out@[i] == before[i] && out@[j] == before[j - 1]);
                    assert((before[p as int] as u32) >= (x as u32));
                    if j - 1 > p {
                        assert((before[p as int] as u32) < (before[j - 1] as u32));
                    }
                } else if i == p {
                    assert(out@[j] == before[j - 1]);
                    if j - 1 > p {
                        assert((before[p as int] as u32) < (before[j - 1] as u32));
                    }
                } else {
                    assert(out@[i] == before[i - 1] && out@[j] == before[j - 1]);
                }
            }
            assert(cl@.take(k + 1) =~= cl@.take(k as int).push(x));
            assert forall|c: char| out@.contains(c) <==> cl@.take(k + 1).contains(c) by {
                if out@.contains(c) {
                    let m = choose|m: int| 0 <= m < out@.len() && out@[m] == c;
                    if m < p {
                        assert(before[m] == c);
                    } else if m > p {
                        assert(before[m - 1] == c);
                    }
                    if c != x {
                        assert(before.contains(c));
                        assert(cl@.take(k as int).contains(c));
                        let ck0 = cl@.take(k as int);
                        let q = choose|q: int| 0 <= q < ck0.len() && ck0[q] == c;
                        assert(cl@.take(k + 1)[q] == c);
                    } else {
                        assert(cl@.take(k + 1)[k as int] == c);
                    }
                }
                if cl@.take(k + 1).contains(c) {
                    let ck = cl@.take(k + 1);
                    let q = choose|q: int| 0 <= q < ck.len() && ck[q] == c;
                    if q < k {
                        assert(cl@.take(k as int)[q] == c);
                        assert(before.contains(c));
                        let m = choose|m: int| 0 <= m < before.len() && before[m] == c;
                        if m < p {
                            assert(out@[m] == c);
                        } else {
                            assert(out@[m + 1] == c);
                        }
                    } else {
                        assert(out@[p as int] == c);
                    }
                }
            }
        }
        k = k + 1;
    }
    assert(cl@.take(n as int) =~= cl@);
    out
}

/// The chosen entry of the pair table names a most frequent pair.
proof fn lemma_best_pair(tv: Freqs, pt: Seq<(String, String, u64)>, b: int)
    requires
        distinct_pairs(pairs_view(pt)),
        forall|a: Seq<char>, c: Seq<char>| #[trigger] pair_lookup(pairs_view(pt), a, c) == pair_count(tv, a, c),
        forall|k: int| 0 <= k < pt.len() ==> (#[trigger] pt[k]).2 >= 1,
        0 <= b < pt.len(),
        forall|i: int| 0 <= i < pt.len() ==> (#[trigger] pt[i]).2 <= pt[b].2,
    ensures
        is_best_pair(tv, pt[b].0@, pt[b].1@),
{
    let pv = pairs_view(pt);
    assert(pv[b] == pair_view(pt[b]));
    lemma_pair_find_distinct(pv, b);
    assert(pair_lookup(pv, pt[b].0@, pt[b].1@) == pt[b].2);
    assert forall|a: Seq<char>, c: Seq<char>| #[trigger] pair_count(tv, a, c) <= pair_count(tv, pt[b].0@, pt[b].1@) by {
        assert(pair_lookup(pv, a, c) == pair_count(tv, a, c));
        lemma_pair_find(pv, a, c);
        if pair_find(pv, a, c) >= 0 {
            assert(pv[pair_find(pv, a, c)] == pair_view(pt[pair_find(pv, a, c)]));
        }
    }
}

/// Appending a sound step to a sound run gives a sound run.
proof fn lemma_steps_ok_push(t0: Freqs, v0: Seq<Seq<char>>, target: nat, rv: Seq<RuleView>, x: RuleView)
    requires
        steps_ok(t0, v0, target, rv),
        vocab_after(v0, rv).len() < target,
        x.2 == x.0 + x.1,
        is_best_pair(freqs_after(t0, rv), x.0, x.1),
    ensures
        steps_ok(t0, v0, target, rv.push(x)),
{
    let rv2 = rv.push(x);
    assert(rv2.take(rv.len() as int) =~= rv);
    assert forall|k: int| 0 <= k < rv2.len() implies #[trigger] step_ok(t0, v0, target, rv2, k) by {
        if k < rv.len() {
            assert(rv2.take(k) =~= rv.take(k));
            assert(rv2[k] == rv[k]);
            assert(step_ok(t0, v0, target, rv, k));
        } else {
            assert(rv2[k] == x);
        }
    }
}

proof fn lemma_rules_view_push(rs: Seq<MergeRule>, r: MergeRule)
    ensures
        rules_view(rs.push(r)) == rules_view(rs).push(rule_view(r)),
{
    assert(rules_view(rs.push(r)) =~= rules_view(rs).push(rule_view(r)));
}

/// Trains a BPE vocabulary from text data.
#[derive(Debug)]
pub struct BpeTrainer {
    target_vocab_size: usize,
}

impl BpeTrainer {
    /// The vocabulary size training aims for.
    pub closed spec fn target(&self) -> nat {
        self.target_vocab_size as nat
    }

    /// Create a new BPE trainer targeting the given vocabulary size.
    pub fn new(target_vocab_size: usize) -> (t: Self)
        ensures
            t.target() == target_vocab_size,
    {
        BpeTrainer { target_vocab_size }
    }

    /// Train BPE merges from a list of texts.
    ///
    /// Returns a trained `BpeTokenizer` ready for encoding/decoding. The
    /// total number of characters must fit in 64 bits (the counts are 64-bit).
    pub fn train(&self, texts: &[&str]) -> (tok: BpeTokenizer)
        requires
            corpus_chars(texts_view(texts@)).len() <= u64::MAX,
        ensures
            exists|cl: Seq<char>| trained(texts_view(texts@), self.target(), cl, tok.tokens(), tok.rules()),
    {
        let ghost tx = texts_view(texts@);
        let mut table = build_table(texts);
        let cl0 = distinct_chars(texts);
        let cl = sort_chars(&cl0);
        let mut vocab = Vocab::new();
        let mut k: usize = 0;
        while k < cl.len()
            invariant
                0 <= k <= cl@.len(),
                vocab@ == vocab_with_chars(special_texts(), cl@.take(k as int)),
            decreases cl@.len() - k,
        {
            let s = char_to_string(cl[k]);
            vocab.add_token(s.as_str());
            proof {
                assert(cl@.take(k + 1).drop_last() =~= cl@.take(k as int));
                assert(cl@.take(k + 1).last() == cl@[k as int]);
            }
            k = k + 1;
        }
        assert(cl@.take(cl@.len() as int) =~= cl@);
        let ghost t0 = table_view(table@);
        let ghost v0 = vocab@;
        proof {
            lemma_corpus(tx);
            lemma_freqs_of_words(corpus_words(tx));
        }
        let mut rules: Vec<MergeRule> = Vec::new();
        let target = self.target_vocab_size;
        assert(rules_view(rules@) =~= Seq::<RuleView>::empty());
        while vocab.len() < target
            invariant
                target == self.target(),
                table_view(table@) == freqs_after(t0, rules_view(rules@)),
                vocab@ == vocab_after(v0, rules_view(rules@)),
                distinct_words(table_view(table@)),
                proper_freqs(table_view(table@)),
                weight(table_view(table@)) <= u64::MAX,
                steps_ok(t0, v0, target as nat, rules_view(rules@)),
            ensures
                table_view(table@) == freqs_after(t0, rules_view(rules@)),
                vocab@ == vocab_after(v0, rules_view(rules@)),
                steps_ok(t0, v0, target as nat, rules_view(rules@)),
                vocab@.len() >= target || !has_pair(table_view(table@)),
            decreases weight(table_view(table@)),
        {
            let ghost tv = table_view(table@);
            let pt = count_pairs(&table);
            let b = match best_pair(&pt) {
                Some(b) => b,
                None => {
                    break;
                },
            };
            let left = pt[b].0.clone();
            let right = pt[b].1.clone();
            let merged = left.clone().concat(right.as_str());
            proof {
                lemma_best_pair(tv, pt@, b as int);
                lemma_merge_freqs(tv, left@, right@, merged@);
            }
            vocab.add_token(merged.as_str());
            let rule = MergeRule { left: left.clone(), right: right.clone(), merged: merged.clone() };
            let ghost old_rules = rules@;
            rules.push(rule);
            table = merge_table(&table, left.as_str(), right.as_str(), merged.as_str());
            proof {
                lemma_rules_view_push(old_rules, rule);
                let rv2 = rules_view(rules@);
                assert(rv2.drop_last() =~= rules_view(old_rules));
                assert(rv2.last() == rule_view(rule));
                lemma_steps_ok_push(t0, v0, target as nat, rules_view(old_rules), rule_view(rule));
            }
        }
        let tok = BpeTokenizer::from_parts(vocab, rules);
        assert(trained(tx, self.target(), cl@, tok.tokens(), tok.rules()));
        tok
    }
}

} // verus!
