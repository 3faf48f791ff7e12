//! Sanity checks on generated text.
//!
//! The probability-based metrics (perplexity, coverage ratios, greedy
//! generation) work on floating-point scores and stand with the programs that
//! use this library; what stands here is integer-only.

use vstd::prelude::*;
use crate::text::{
    char_is_alphabetic, chars_of, contains_chars, has_substring, lemma_encode_utf8_len, lemma_utf8_len_trim_le,
    lines_of, lines_spec, string_from_chars, to_lowercase, trim_chars, trim_spec, unicode_alphabetic,
    unicode_lowercase, utf8_byte_len, utf8_len,
};
use crate::tokenizer::vocab::{lemma_strings_view_push, strings_view};

verus! {

/// A sample generation kept for sanity checking.
pub struct GenerationSample {
    /// Language of the prompt
    pub language: String,
    /// The prompt given
    pub prompt: String,
    /// The generated continuation
    pub generated: String,
    /// Whether the generation passes sanity checks
    pub is_sane: bool,
}

/// Number of characters of `cs` with the `Alphabetic` property.
pub open spec fn count_alphabetic(cs: Seq<char>) -> nat
    decreases cs.len(),
{
    if cs.len() == 0 {
        0
    } else {
        count_alphabetic(cs.drop_last()) + if unicode_alphabetic(cs.last()) { 1nat } else { 0nat }
    }
}

/// Number of occurrences of `c` in `cs`.
pub open spec fn count_char(cs: Seq<char>, c: char) -> nat
    decreases cs.len(),
{
    if cs.len() == 0 {
        0
    } else {
        count_char(cs.drop_last(), c) + if cs.last() == c { 1nat } else { 0nat }
    }
}

/// A generation is sane when, after trimming white space, it is at least three
/// bytes long, its alphabetic characters number at least a tenth of its
/// length in bytes, and its first character makes up at most four fifths of
/// its characters.
pub open spec fn is_sane(text: Seq<char>) -> bool {
    let t = trim_spec(text);
    &&& utf8_len(t) >= 3
    &&& 10 * count_alphabetic(t) >= utf8_len(t)
    &&& 5 * count_char(t, t[0]) <= 4 * t.len()
}

proof fn lemma_counts_le(cs: Seq<char>, c: char)
    ensures
        count_alphabetic(cs) <= cs.len(),
        count_char(cs, c) <= cs.len(),
    decreases cs.len(),
{
    if cs.len() > 0 {
        lemma_counts_le(cs.drop_last(), c);
    }
}

/// A sequence made of one character repeated holds that character at every
/// position.
proof fn lemma_count_all_same(cs: Seq<char>, c: char)
    requires
        forall|i: int| 0 <= i < cs.len() ==> cs[i] == c,
    ensures
        count_char(cs, c) == cs.len(),
    decreases cs.len(),
{
    if cs.len() > 0 {
        lemma_count_all_same(cs.drop_last(), c);
    }
}

/// Degenerate generations are not sane: one that is empty or all white
/// space, one with no alphabetic character, and one that is a single
/// character repeated.
pub proof fn lemma_degenerate_not_sane(text: Seq<char>)
    ensures
        trim_spec(text).len() == 0 ==> !is_sane(text),
        count_alphabetic(trim_spec(text)) == 0 ==> !is_sane(text),
        (forall|i: int| 0 <= i < trim_spec(text).len() ==> #[trigger] trim_spec(text)[i] == trim_spec(text)[0])
            ==> !is_sane(text),
{
    let t = trim_spec(text);
    lemma_encode_utf8_len(t);
    if t.len() > 0 && forall|i: int| 0 <= i < t.len() ==> #[trigger] t[i] == t[0] {
        lemma_count_all_same(t, t[0]);
    }
}

/// Checks whether a generated text is sane (not degenerate): non-empty after
/// trimming, not mostly punctuation, and not one character repeated.
pub fn generation_is_sane(generated: &str) -> (sane: bool)
    ensures
        sane == is_sane(generated@),
{
    let all = chars_of(generated);
    let byte_len = generated.as_bytes().len();
    let t = trim_chars(all.as_slice());
    proof {
        lemma_utf8_len_trim_le(generated@);
        lemma_encode_utf8_len(generated@);
    }
    let n = utf8_byte_len(t.as_slice());
    if n < 3 {
        return false;
    }
    let len = t.len();
    let mut alpha: usize = 0;
    let mut same: usize = 0;
    let first = t[0];
    let mut i: usize = 0;
    while i < len
        invariant
            len == t@.len(),
            0 <= i <= len,
            len > 0,
            first == t@[0],
            alpha == count_alphabetic(t@.take(i as int)),
            same == count_char(t@.take(i as int), first),
        decreases len - i,
    {
        proof {
            lemma_counts_le(t@.take(i as int), first);
        }
        if char_is_alphabetic(t[i]) {
            alpha = alpha + 1;
        }
        if t[i] == first {
            same = same + 1;
        }
        i = i + 1;
        assert(t@.take(i as int).drop_last() == t@.take((i - 1) as int));
    }
    assert(t@.take(len as int) == t@);
    if (alpha as u128) * 10 < (n as u128) {
        return false;
    }
    if (same as u128) * 5 > (len as u128) * 4 {
        return false;
    }
    true
}

/// How many lines of a test file are held out: 5% of them, at least 10 and
/// at most 500.
pub open spec fn held_out_count(n: nat) -> nat {
    let c = if n / 20 > 10 {
        n / 20
    } else {
        10
    };
    if c < 500 {
        c
    } else {
        500
    }
}

/// The lines that are not blank (blank: empty once trimmed), in order.
pub open spec fn nonblank(ls: Seq<Seq<char>>) -> Seq<Seq<char>>
    decreases ls.len(),
{
    if ls.len() == 0 {
        seq![]
    } else if trim_spec(ls.last()).len() > 0 {
        nonblank(ls.drop_last()).push(ls.last())
    } else {
        nonblank(ls.drop_last())
    }
}

/// The held-out test lines of a file's content: its last lines (see
/// [`held_out_count`]) that are not blank.
pub open spec fn held_out_spec(content: Seq<char>) -> Seq<Seq<char>> {
    let ls = lines_spec(content);
    let c = held_out_count(ls.len());
    nonblank(ls.skip(if ls.len() >= c { ls.len() - c } else { 0 }))
}

/// The held-out test lines of a file's content (see [`held_out_spec`]).
pub fn held_out_lines(content: &str) -> (r: Vec<String>)
    ensures
        strings_view(r@) == held_out_spec(content@),
{
    let cs = chars_of(content);
    let lines = lines_of(cs.as_slice());
    let ghost ls = lines@.map_values(|l: Vec<char>| l@);
    let n = lines.len();
    let tenth = n / 20;
    let c = if tenth > 10 { tenth } else { 10 };
    let count = if c < 500 { c } else { 500 };
    let start = n.saturating_sub(count);
    let ghost tail = ls.skip(start as int);
    let mut out: Vec<String> = Vec::new();
    let mut i: usize = start;
    assert(tail.take(0) =~= Seq::<Seq<char>>::empty());
    assert(strings_view(out@) =~= Seq::<Seq<char>>::empty());
    while i < n
        invariant
            n == lines@.len(),
            ls == lines@.map_values(|l: Vec<char>| l@),
            start <= i <= n,
            tail == ls.skip(start as int),
            strings_view(out@) == nonblank(tail.take(i - start)),
        decreases n - i,
    {
        proof {
            assert(tail.take(i - start + 1).drop_last() =~= tail.take(i - start));
            assert(tail.take(i - start + 1).last() == lines@[i as int]@);
        }
        let t = trim_chars(lines[i].as_slice());
        if t.len() > 0 {
            let s = string_from_chars(lines[i].as_slice());
            let ghost before = out@;
            out.push(s);
            proof {
                lemma_strings_view_push(before, s);
            }
        }
        i = i + 1;
    }
    assert(tail.take(n - start) =~= tail);
    out
}

/// The evaluation prompts' languages.
#[derive(Debug, Clone, Copy, PartialEq, Eq, Structural)]
pub enum PromptSet {
    Twi,
    English,
    Code,
}

/// The prompt set of a phase, by its lowercase name: Twi when it mentions
/// "twi", English when it mentions "english", code when it mentions "code"
/// or "personal", English otherwise.
pub open spec fn prompt_set_spec(name: Seq<char>) -> PromptSet {
    let l = unicode_lowercase(name);
    if has_substring(l, "twi"@) {
        PromptSet::Twi
    } else if has_substring(l, "english"@) {
        PromptSet::English
    } else if has_substring(l, "code"@) || has_substring(l, "personal"@) {
        PromptSet::Code
    } else {
        PromptSet::English
    }
}

/// Whether `hay` contains `needle`.
fn mentions(hay: &[char], needle: &str) -> (r: bool)
    ensures
        r == has_substring(hay@, needle@),
{
    let n = chars_of(needle);
    contains_chars(hay, n.as_slice())
}

/// The prompt set for evaluating a phase (see [`prompt_set_spec`]).
pub fn prompt_set(phase_name: &str) -> (p: PromptSet)
    ensures
        p == prompt_set_spec(phase_name@),
{
    let lower = to_lowercase(phase_name);
    let l = chars_of(lower.as_str());
    if mentions(l.as_slice(), "twi") {
        PromptSet::Twi
    } else if mentions(l.as_slice(), "english") {
        PromptSet::English
    } else if mentions(l.as_slice(), "code") || mentions(l.as_slice(), "personal") {
        PromptSet::Code
    } else {
        PromptSet::English
    }
}

/// The evaluation prompts of each set.
pub open spec fn prompt_texts(p: PromptSet) -> Seq<Seq<char>> {
    match p {
        PromptSet::Twi => seq![
            "Me din de "@,
            "\u{190}nn\u{25b} y\u{25b} "@,
            "Ghana y\u{25b} "@,
            "Wo ho te s\u{25b}n? Me ho "@,
        ],
        PromptSet::English => seq![
            "Once upon a time "@,
            "The quick brown fox "@,
            "In the beginning "@,
            "She walked to the "@,
        ],
        PromptSet::Code => seq!["def fibonacci("@, "function handle"@, "const result = "@, "async fn main"@],
    }
}

/// The evaluation prompts of a set.
pub fn prompts(p: PromptSet) -> (r: Vec<&'static str>)
    ensures
        r@.map_values(|s: &str| s@) == prompt_texts(p),
{
    let r: Vec<&'static str> = match p {
        PromptSet::Twi => vec!["Me din de ", "\u{190}nn\u{25b} y\u{25b} ", "Ghana y\u{25b} ", "Wo ho te s\u{25b}n? Me ho "],
        PromptSet::English => vec!["Once upon a time ", "The quick brown fox ", "In the beginning ", "She walked to the "],
        PromptSet::Code => vec!["def fibonacci(", "function handle", "const result = ", "async fn main"],
    };
    assert(r@.map_values(|s: &str| s@) =~= prompt_texts(p));
    r
}

} // verus!
