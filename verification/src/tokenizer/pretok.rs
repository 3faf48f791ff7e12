//! Code-aware pre-tokenization: splits text into the pieces that BPE merges
//! never cross.

use vstd::prelude::*;
use crate::text::{chars_of, string_from_chars};
use super::vocab::strings_view;

verus! {

/// Characters that always form a piece of their own: line breaks, tabs,
/// programming punctuation and string delimiters.
pub open spec fn is_single(c: char) -> bool {
    c == '\n' || c == '\r' || c == '\t' || c == '(' || c == ')' || c == '[' || c == ']' || c == '{'
        || c == '}' || c == ';' || c == ',' || c == ':' || c == '.' || c == '=' || c == '+' || c
        == '-' || c == '*' || c == '/' || c == '<' || c == '>' || c == '!' || c == '&' || c == '|'
        || c == '^' || c == '~' || c == '%' || c == '@' || c == '#' || c == '?' || c == '\\' || c
        == '"' || c == '\'' || c == '`'
}

/// Ordinary characters: neither a space nor a single-piece character.
pub open spec fn is_regular(c: char) -> bool {
    c != ' ' && !is_single(c)
}

/// Two neighbouring characters stay in the same piece exactly when both are
/// spaces or both are ordinary characters.
pub open spec fn joins(a: char, b: char) -> bool {
    (a == ' ' && b == ' ') || (is_regular(a) && is_regular(b))
}

/// The pieces of `s`: maximal runs of neighbouring characters that join.
pub open spec fn pre_tokenize_spec(s: Seq<char>) -> Seq<Seq<char>>
    decreases s.len(),
{
    if s.len() == 0 {
        seq![]
    } else {
        let rest = pre_tokenize_spec(s.drop_first());
        if s.len() > 1 && joins(s[0], s[1]) {
            seq![seq![s[0]] + rest[0]] + rest.drop_first()
        } else {
            seq![seq![s[0]]] + rest
        }
    }
}

/// Concatenation of a sequence of character sequences.
pub open spec fn flatten(ws: Seq<Seq<char>>) -> Seq<char>
    decreases ws.len(),
{
    if ws.len() == 0 {
        seq![]
    } else {
        ws[0] + flatten(ws.drop_first())
    }
}

fn is_single_char(c: char) -> (r: bool)
    ensures
        r == is_single(c),
{
    c == '\n' || c == '\r' || c == '\t' || c == '(' || c == ')' || c == '[' || c == ']' || c == '{'
        || c == '}' || c == ';' || c == ',' || c == ':' || c == '.' || c == '=' || c == '+' || c
        == '-' || c == '*' || c == '/' || c == '<' || c == '>' || c == '!' || c == '&' || c == '|'
        || c == '^' || c == '~' || c == '%' || c == '@' || c == '#' || c == '?' || c == '\\' || c
        == '"' || c == '\'' || c == '`'
}

fn joins_exec(a: char, b: char) -> (r: bool)
    ensures
        r == joins(a, b),
{
    (a == ' ' && b == ' ') || (a != ' ' && !is_single_char(a) && b != ' ' && !is_single_char(b))
}

/// A run of `k` joined characters at the front of `t` (ending where the next
/// character does not join) is the first piece of `t`.
pub proof fn lemma_pre_tokenize_run(t: Seq<char>, k: int)
    requires
        1 <= k <= t.len(),
        forall|m: int| 0 <= m < k - 1 ==> joins(#[trigger] t[m], t[m + 1]),
        k == t.len() || !joins(t[k - 1], t[k]),
    ensures
        pre_tokenize_spec(t) == seq![t.take(k)] + pre_tokenize_spec(t.skip(k)),
    decreases k,
{
    let tail = t.drop_first();
    if k == 1 {
        assert(t.take(1) =~= seq![t[0]]);
        assert(t.skip(1) =~= tail);
    } else {
        assert forall|m: int| 0 <= m < k - 2 implies joins(#[trigger] tail[m], tail[m + 1]) by {
            assert(tail[m] == t[m + 1]);
            assert(tail[m + 1] == t[m + 2]);
            assert(joins(t[m + 1], t[m + 2]));
        }
        if k - 1 < tail.len() {
            assert(tail[k - 2] == t[k - 1]);
            assert(tail[k - 1] == t[k]);
        }
        assert(joins(t[0], t[1]));
        lemma_pre_tokenize_run(tail, k - 1);
        assert(tail.skip(k - 1) =~= t.skip(k));
        assert(seq![t[0]] + tail.take(k - 1) =~= t.take(k));
        let rest = pre_tokenize_spec(tail);
        assert(rest[0] == tail.take(k - 1));
        assert(rest.drop_first() =~= pre_tokenize_spec(t.skip(k)));
        assert(pre_tokenize_spec(t) =~= seq![t.take(k)] + pre_tokenize_spec(t.skip(k)));
    }
}

/// Pre-tokenize text into words/chunks that BPE will further split.
/// Code-aware: preserves indentation, operators, brackets, and newlines.
pub fn pre_tokenize(text: &str) -> (pieces: Vec<String>)
    ensures
        strings_view(pieces@) == pre_tokenize_spec(text@),
{
    let cs = chars_of(text);
    let n = cs.len();
    let mut pieces: Vec<String> = Vec::new();
    let mut i: usize = 0;
    assert(cs@.skip(0) =~= cs@);
    while i < n
        invariant
            n == cs@.len(),
            cs@ == text@,
            0 <= i <= n,
            strings_view(pieces@) + pre_tokenize_spec(cs@.skip(i as int)) == pre_tokenize_spec(cs@),
        decreases n - i,
    {
        let mut j: usize = i + 1;
        while j < n && joins_exec(cs[j - 1], cs[j])
            invariant
                n == cs@.len(),
                i < j <= n,
                forall|m: int| i <= m < j - 1 ==> joins(#[trigger] cs@[m], cs@[m + 1]),
            decreases n - j,
        {
            j = j + 1;
        }
        let ghost t = cs@.skip(i as int);
        proof {
            assert forall|m: int| 0 <= m < (j - i) - 1 implies joins(#[trigger] t[m], t[m + 1]) by {
                assert(t[m] == cs@[m + i]);
                assert(t[m + 1] == cs@[m + i + 1]);
            }
            if j < n {
                assert(t[j - i - 1] == cs@[j - 1]);
                assert(t[j - i] == cs@[j as int]);
            }
            lemma_pre_tokenize_run(t, (j - i) as int);
            assert(t.take((j - i) as int) =~= cs@.subrange(i as int, j as int));
            assert(t.skip((j - i) as int) =~= cs@.skip(j as int));
        }
        let piece = string_from_chars(vstd::slice::slice_subrange(cs.as_slice(), i, j));
        let ghost before = strings_view(pieces@);
        pieces.push(piece);
        proof {
            assert(strings_view(pieces@) =~= before.push(cs@.subrange(i as int, j as int)));
            assert(strings_view(pieces@) + pre_tokenize_spec(cs@.skip(j as int)) =~= before + (seq![
                cs@.subrange(i as int, j as int),
            ] + pre_tokenize_spec(cs@.skip(j as int))));
        }
        i = j;
    }
    proof {
        assert(cs@.skip(n as int) =~= Seq::<char>::empty());
        assert(strings_view(pieces@) + Seq::<Seq<char>>::empty() =~= strings_view(pieces@));
    }
    pieces
}

} // verus!
