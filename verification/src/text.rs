//! Character-level helpers: Unicode character classes, UTF-8 byte lengths,
//! trimming, and conversions between `str`, `String` and `char` sequences.

use vstd::prelude::*;
use vstd::string::*;
use vstd::utf8::*;

verus! {

broadcast use vstd::string::group_string_axioms;

/// Whether `c` has the Unicode `White_Space` property (what
/// `char::is_whitespace` reports): tab, line feed, vertical tab, form feed,
/// carriage return, space, next line, no-break space, ogham space mark, the
/// spaces U+2000 to U+200A, line and paragraph separators, narrow no-break
/// space, medium mathematical space and ideographic space.
pub open spec fn unicode_white_space(c: char) -> bool {
    let u = c as u32;
    ||| 9 <= u <= 13
    ||| u == 0x20
    ||| u == 0x85
    ||| u == 0xA0
    ||| u == 0x1680
    ||| 0x2000 <= u <= 0x200A
    ||| u == 0x2028
    ||| u == 0x2029
    ||| u == 0x202F
    ||| u == 0x205F
    ||| u == 0x3000
}

/// Whether `c` has the Unicode `Alphabetic` property (what `char::is_alphabetic` reports).
pub uninterp spec fn unicode_alphabetic(c: char) -> bool;

/// Whether `c` has the Unicode `White_Space` property (what
/// `char::is_whitespace` answers), by the list in [`unicode_white_space`].
pub(crate) fn char_is_whitespace(c: char) -> (r: bool)
    ensures
        r == unicode_white_space(c),
{
    let u = c as u32;
    (9 <= u && u <= 13) || u == 0x20 || u == 0x85 || u == 0xA0 || u == 0x1680 || (0x2000 <= u && u <= 0x200A)
        || u == 0x2028 || u == 0x2029 || u == 0x202F || u == 0x205F || u == 0x3000
}

/// Calls `char::is_alphabetic`. The contract names the answer and states the
/// ASCII part of the `Alphabetic` table (the letters `a`-`z` and `A`-`Z`).
#[verifier::external_body]
pub(crate) fn char_is_alphabetic(c: char) -> (r: bool)
    ensures
        r == unicode_alphabetic(c),
        (c as u32) < 128 ==> (r <==> (('a' <= c && c <= 'z') || ('A' <= c && c <= 'Z'))),
{
    c.is_alphabetic()
}

/// Calls `char::to_string`: the result is the one-character string `c`.
#[verifier::external_body]
pub(crate) fn char_to_string(c: char) -> (s: String)
    ensures
        s@ == seq![c],
{
    c.to_string()
}

/// Calls `std::str::from_utf8` and copies the result into a `String`.
/// Following std's documentation, the bytes are accepted exactly when they are
/// valid UTF-8, and then the string holds the characters they encode.
#[verifier::external_body]
pub(crate) fn utf8_to_string(bytes: &[u8]) -> (r: Option<String>)
    ensures
        r is Some <==> valid_utf8(bytes@),
        r matches Some(s) ==> s@ == decode_utf8(bytes@),
{
    match std::str::from_utf8(bytes) {
        Ok(s) => Some(s.to_string()),
        Err(_) => None,
    }
}

/// The characters of a string slice, in order.
pub fn chars_of(s: &str) -> (r: Vec<char>)
    ensures
        r@ == s@,
{
    let mut r: Vec<char> = Vec::new();
    for c in it: s.chars()
        invariant
            it.seq() == s@,
            r@ == it.seq().subrange(0, it.index()),
    {
        r.push(c);
    }
    r
}

/// Builds a `String` holding exactly the given characters.
pub fn string_from_chars(cs: &[char]) -> (s: String)
    ensures
        s@ == cs@,
{
    let mut s = String::new();
    let n = cs.len();
    let mut i: usize = 0;
    while i < n
        invariant
            n == cs@.len(),
            0 <= i <= n,
            s@ == cs@.subrange(0, i as int),
        decreases n - i,
    {
        let one = char_to_string(cs[i]);
        s.append(one.as_str());
        i = i + 1;
        assert(cs@.subrange(0, i as int) == cs@.subrange(0, (i - 1) as int) + seq![cs@[i - 1]]);
    }
    assert(cs@.subrange(0, n as int) == cs@);
    s
}

/// Number of bytes in the UTF-8 encoding of `c`.
pub open spec fn utf8_width(c: char) -> nat {
    if (c as u32) < 0x80 {
        1
    } else if (c as u32) < 0x800 {
        2
    } else if (c as u32) < 0x10000 {
        3
    } else {
        4
    }
}

/// The UTF-8 encoding of one character has `utf8_width` bytes.
pub proof fn lemma_encode_scalar_len(c: char)
    ensures
        encode_scalar(c as u32).len() == utf8_width(c),
{
    broadcast use vstd::utf8::group_utf8_lib;
    assert(is_scalar(c as u32));
}

/// The UTF-8 encoding of a character sequence has the summed width of its characters.
pub proof fn lemma_encode_utf8_len(cs: Seq<char>)
    ensures
        encode_utf8(cs).len() == utf8_len(cs),
    decreases cs.len(),
{
    if cs.len() > 0 {
        lemma_encode_scalar_len(cs[0]);
        lemma_encode_utf8_len(cs.drop_first());
    }
}

/// Total UTF-8 width of a character sequence, summed from the front.
pub open spec fn utf8_len(cs: Seq<char>) -> nat
    decreases cs.len(),
{
    if cs.len() == 0 {
        0
    } else {
        utf8_width(cs[0]) + utf8_len(cs.drop_first())
    }
}

/// Number of leading characters of `cs` that are white space.
pub open spec fn leading_ws(cs: Seq<char>) -> nat
    decreases cs.len(),
{
    if cs.len() > 0 && unicode_white_space(cs[0]) {
        1 + leading_ws(cs.drop_first())
    } else {
        0
    }
}

/// Number of trailing characters of `cs` that are white space.
pub open spec fn trailing_ws(cs: Seq<char>) -> nat
    decreases cs.len(),
{
    if cs.len() > 0 && unicode_white_space(cs.last()) {
        1 + trailing_ws(cs.drop_last())
    } else {
        0
    }
}

/// `cs` with its leading and trailing white space removed (what `str::trim` gives).
pub open spec fn trim_spec(cs: Seq<char>) -> Seq<char> {
    let front = cs.skip(leading_ws(cs) as int);
    front.take(front.len() - trailing_ws(front))
}


/// `leading_ws` is `k` when exactly the first `k` characters are white space.
proof fn lemma_leading_ws(cs: Seq<char>, k: int)
    requires
        0 <= k <= cs.len(),
        forall|j: int| 0 <= j < k ==> unicode_white_space(#[trigger] cs[j]),
        k == cs.len() || !unicode_white_space(cs[k]),
    ensures
        leading_ws(cs) == k,
    decreases k,
{
    if k > 0 {
        let rest = cs.drop_first();
        assert forall|j: int| 0 <= j < k - 1 implies unicode_white_space(#[trigger] rest[j]) by {
            assert(rest[j] == cs[j + 1]);
        }
        lemma_leading_ws(rest, k - 1);
    }
}

/// `trailing_ws` is `k` when exactly the last `k` characters are white space.
proof fn lemma_trailing_ws(cs: Seq<char>, k: int)
    requires
        0 <= k <= cs.len(),
        forall|j: int| cs.len() - k <= j < cs.len() ==> unicode_white_space(#[trigger] cs[j]),
        k == cs.len() || !unicode_white_space(cs[cs.len() - k - 1]),
    ensures
        trailing_ws(cs) == k,
    decreases k,
{
    if k > 0 {
        let rest = cs.drop_last();
        assert forall|j: int| rest.len() - (k - 1) <= j < rest.len() implies unicode_white_space(
            #[trigger] rest[j],
        ) by {
            assert(rest[j] == cs[j]);
        }
        lemma_trailing_ws(rest, k - 1);
    }
}

/// Removes leading and trailing white space from a character sequence.
pub fn trim_chars(cs: &[char]) -> (r: Vec<char>)
    ensures
        r@ == trim_spec(cs@),
{
    let n = cs.len();
    let mut start: usize = 0;
    while start < n && char_is_whitespace(cs[start])
        invariant
            n == cs@.len(),
            0 <= start <= n,
            forall|j: int| 0 <= j < start ==> unicode_white_space(#[trigger] cs@[j]),
        decreases n - start,
    {
        start = start + 1;
    }
    proof {
        lemma_leading_ws(cs@, start as int);
    }
    let ghost front = cs@.skip(start as int);
    let mut end: usize = n;
    while end > start && char_is_whitespace(cs[end - 1])
        invariant
            n == cs@.len(),
            0 <= start <= end <= n,
            front == cs@.skip(start as int),
            forall|j: int| end <= j < n ==> unicode_white_space(#[trigger] cs@[j]),
        decreases end - start,
    {
        end = end - 1;
    }
    proof {
        assert forall|j: int| front.len() - (n - end) <= j < front.len() implies unicode_white_space(
            #[trigger] front[j],
        ) by {
            assert(front[j] == cs@[j + start]);
        }
        if end > start {
            assert(front[front.len() - (n - end) - 1] == cs@[end - 1]);
        }
        lemma_trailing_ws(front, (n - end) as int);
    }
    let mut r: Vec<char> = Vec::new();
    let mut i: usize = start;
    while i < end
        invariant
            n == cs@.len(),
            0 <= start <= i <= end <= n,
            r@ == cs@.subrange(start as int, i as int),
        decreases end - i,
    {
        r.push(cs[i]);
        i = i + 1;
        assert(cs@.subrange(start as int, i as int) == cs@.subrange(start as int, (i - 1) as int).push(cs@[i - 1]));
    }
    assert(r@ == front.take(front.len() - trailing_ws(front)));
    r
}

/// Number of bytes in the UTF-8 encoding of a character sequence.
pub fn utf8_byte_len(cs: &[char]) -> (n: usize)
    requires
        utf8_len(cs@) <= usize::MAX,
    ensures
        n == utf8_len(cs@),
        n == encode_utf8(cs@).len(),
{
    proof { lemma_encode_utf8_len(cs@); }
    let len = cs.len();
    let mut total: usize = 0;
    let mut i: usize = len;
    while i > 0
        invariant
            len == cs@.len(),
            0 <= i <= len,
            total == utf8_len(cs@.skip(i as int)),
            utf8_len(cs@) <= usize::MAX,
        decreases i,
    {
        i = i - 1;
        let c = cs[i];
        let w: usize = if (c as u32) < 0x80 { 1 } else if (c as u32) < 0x800 { 2 } else if (c as u32) < 0x10000 { 3 } else { 4 };
        proof {
            assert(cs@.skip(i as int).drop_first() == cs@.skip(i + 1));
            lemma_utf8_len_skip_le(cs@, i as int);
        }
        total = total + w;
    }
    assert(cs@.skip(0) == cs@);
    total
}

/// Dropping a prefix never makes the UTF-8 length grow.
proof fn lemma_utf8_len_skip_le(cs: Seq<char>, i: int)
    requires
        0 <= i <= cs.len(),
    ensures
        utf8_len(cs.skip(i)) <= utf8_len(cs),
    decreases i,
{
    if i > 0 {
        lemma_utf8_len_skip_le(cs.drop_first(), i - 1);
        assert(cs.drop_first().skip(i - 1) == cs.skip(i));
    } else {
        assert(cs.skip(0) == cs);
    }
}

/// Keeping only a prefix never makes the UTF-8 length grow.
pub proof fn lemma_utf8_len_take_le(cs: Seq<char>, k: int)
    requires
        0 <= k <= cs.len(),
    ensures
        utf8_len(cs.take(k)) <= utf8_len(cs),
    decreases k,
{
    if k > 0 {
        lemma_utf8_len_take_le(cs.drop_first(), k - 1);
        assert(cs.take(k).drop_first() == cs.drop_first().take(k - 1));
    }
}

/// Trimming never makes the UTF-8 length grow.
pub proof fn lemma_utf8_len_trim_le(cs: Seq<char>)
    ensures
        utf8_len(trim_spec(cs)) <= utf8_len(cs),
{
    let front = cs.skip(leading_ws(cs) as int);
    lemma_leading_ws_le(cs);
    lemma_trailing_ws_le(front);
    lemma_utf8_len_skip_le(cs, leading_ws(cs) as int);
    lemma_utf8_len_take_le(front, front.len() - trailing_ws(front));
}

proof fn lemma_leading_ws_le(cs: Seq<char>)
    ensures
        leading_ws(cs) <= cs.len(),
    decreases cs.len(),
{
    if cs.len() > 0 {
        lemma_leading_ws_le(cs.drop_first());
    }
}

proof fn lemma_trailing_ws_le(cs: Seq<char>)
    ensures
        trailing_ws(cs) <= cs.len(),
    decreases cs.len(),
{
    if cs.len() > 0 {
        lemma_trailing_ws_le(cs.drop_last());
    }
}

/// Whether two string slices hold the same characters.
pub fn str_eq(a: &str, b: &str) -> (r: bool)
    ensures
        r == (a@ == b@),
{
    let x = a.as_bytes();
    let y = b.as_bytes();
    assert(x@ == encode_utf8(a@));
    assert(y@ == encode_utf8(b@));
    if x.len() != y.len() {
        return false;
    }
    let n = x.len();
    let mut i: usize = 0;
    while i < n
        invariant
            n == x@.len(),
            n == y@.len(),
            0 <= i <= n,
            x@ == encode_utf8(a@),
            y@ == encode_utf8(b@),
            forall|j: int| 0 <= j < i ==> x@[j] == y@[j],
        decreases n - i,
    {
        if x[i] != y[i] {
            assert(x@ != y@);
            return false;
        }
        i = i + 1;
    }
    assert(x@ == y@);
    proof {
        broadcast use vstd::utf8::group_utf8_lib;
        assert(decode_utf8(encode_utf8(a@)) == a@);
        assert(decode_utf8(encode_utf8(b@)) == b@);
    }
    true
}

/// The lowercase form of a string, as `str::to_lowercase` maps it (full
/// Unicode case mapping).
pub uninterp spec fn unicode_lowercase(s: Seq<char>) -> Seq<char>;

/// Calls `str::to_lowercase`. The contract claims only that the result is a
/// function of the characters, named [`unicode_lowercase`].
#[verifier::external_body]
pub(crate) fn to_lowercase(s: &str) -> (r: String)
    ensures
        r@ == unicode_lowercase(s@),
{
    s.to_lowercase()
}

/// The words of `cs`: its maximal runs of non-whitespace characters, in
/// order (what `str::split_whitespace` yields).
pub open spec fn ws_split(cs: Seq<char>) -> Seq<Seq<char>>
    decreases cs.len(),
{
    if cs.len() == 0 {
        seq![]
    } else {
        let d = cs.drop_last();
        let c = cs.last();
        if unicode_white_space(c) {
            ws_split(d)
        } else if d.len() > 0 && !unicode_white_space(d.last()) {
            ws_split(d).drop_last().push(ws_split(d).last().push(c))
        } else {
            ws_split(d).push(seq![c])
        }
    }
}

/// The characters of `cs` that are not whitespace, in order.
pub open spec fn non_white(cs: Seq<char>) -> Seq<char>
    decreases cs.len(),
{
    if cs.len() == 0 {
        seq![]
    } else if unicode_white_space(cs.last()) {
        non_white(cs.drop_last())
    } else {
        non_white(cs.drop_last()).push(cs.last())
    }
}

/// How many words `cs` has: its non-whitespace characters that start it or
/// follow a whitespace character.
pub open spec fn word_starts(cs: Seq<char>) -> nat
    decreases cs.len(),
{
    if cs.len() == 0 {
        0
    } else {
        let d = cs.drop_last();
        word_starts(d) + if !unicode_white_space(cs.last()) && (d.len() == 0 || unicode_white_space(d.last())) {
            1nat
        } else {
            0nat
        }
    }
}

/// Splitting at whitespace splits at every White_Space character: the words
/// are non-empty and hold no whitespace, together they are the text's
/// non-whitespace characters in order, and there is one word per run of
/// them (each run starts the text or follows whitespace).
pub proof fn lemma_ws_split_words(cs: Seq<char>)
    ensures
        forall|i: int, j: int| 0 <= i < ws_split(cs).len() && 0 <= j < ws_split(cs)[i].len() ==> !unicode_white_space(
            #[trigger] ws_split(cs)[i][j],
        ),
        forall|i: int| 0 <= i < ws_split(cs).len() ==> (#[trigger] ws_split(cs)[i]).len() > 0,
        crate::tokenizer::pretok::flatten(ws_split(cs)) == non_white(cs),
        ws_split(cs).len() == word_starts(cs),
    decreases cs.len(),
{
    if cs.len() > 0 {
        let d = cs.drop_last();
        let c = cs.last();
        lemma_ws_split_words(d);
        let w = ws_split(d);
        let r = ws_split(cs);
        assert(cs.drop_last() == d);
        if unicode_white_space(c) {
        } else if d.len() > 0 && !unicode_white_space(d.last()) {
            assert(non_white(d).len() > 0);
            if w.len() == 0 {
                assert(crate::tokenizer::pretok::flatten(w) =~= Seq::<char>::empty());
            }
            let wl = w.last();
            let wd = w.drop_last();
            assert(w =~= wd.push(wl));
            crate::tokenizer::roundtrip::lemma_flatten_push(wd, wl);
            crate::tokenizer::roundtrip::lemma_flatten_push(wd, wl.push(c));
            assert(r == wd.push(wl.push(c)));
            assert(wl.push(c) =~= wl + seq![c]);
            assert forall|i: int, j: int| 0 <= i < r.len() && 0 <= j < r[i].len() implies !unicode_white_space(#[trigger] r[i][j]) by {
                if i < wd.len() {
                    assert(r[i] == w[i]);
                } else if j < wl.len() {
                    assert(r[i][j] == w[w.len() - 1][j]);
                }
            }
            assert forall|i: int| 0 <= i < r.len() implies (#[trigger] r[i]).len() > 0 by {
                if i < wd.len() {
                    assert(r[i] == w[i]);
                }
            }
            assert(crate::tokenizer::pretok::flatten(r) =~= crate::tokenizer::pretok::flatten(w) + seq![c]);
        } else {
            crate::tokenizer::roundtrip::lemma_flatten_push(w, seq![c]);
            assert forall|i: int, j: int| 0 <= i < r.len() && 0 <= j < r[i].len() implies !unicode_white_space(#[trigger] r[i][j]) by {
                if i < w.len() {
                    assert(r[i] == w[i]);
                }
            }
            assert forall|i: int| 0 <= i < r.len() implies (#[trigger] r[i]).len() > 0 by {
                if i < w.len() {
                    assert(r[i] == w[i]);
                }
            }
            assert(crate::tokenizer::pretok::flatten(r) =~= crate::tokenizer::pretok::flatten(w) + seq![c]);
        }
    } else {
        assert(crate::tokenizer::pretok::flatten(ws_split(cs)) =~= Seq::<char>::empty());
    }
}

/// The words of a character sequence, split at whitespace.
pub fn split_whitespace_chars(cs: &[char]) -> (words: Vec<Vec<char>>)
    ensures
        words@.map_values(|w: Vec<char>| w@) == ws_split(cs@),
{
    let mut words: Vec<Vec<char>> = Vec::new();
    let mut in_word = false;
    let n = cs.len();
    let mut i: usize = 0;
    assert(cs@.take(0) =~= Seq::<char>::empty());
    assert(words@.map_values(|w: Vec<char>| w@) =~= Seq::<Seq<char>>::empty());
    while i < n
        invariant
            n == cs@.len(),
            0 <= i <= n,
            words@.map_values(|w: Vec<char>| w@) == ws_split(cs@.take(i as int)),
            in_word == (i > 0 && !unicode_white_space(cs@[i - 1])),
            in_word ==> words@.len() > 0,
        decreases n - i,
    {
        let c = cs[i];
        let ghost before = words@;
        proof {
            let t = cs@.take(i + 1);
            assert(t.drop_last() =~= cs@.take(i as int));
            assert(t.last() == c);
            if i > 0 {
                assert(t.drop_last().last() == cs@[i - 1]);
            }
        }
        if char_is_whitespace(c) {
            in_word = false;
        } else if in_word {
            let last = words.len() - 1;
            words[last].push(c);
            proof {
                assert(ws_split(cs@.take(i as int)).len() == before.len());
                assert(words@.map_values(|w: Vec<char>| w@) =~= ws_split(cs@.take(i + 1)));
            }
        } else {
            let mut w: Vec<char> = Vec::new();
            w.push(c);
            words.push(w);
            in_word = true;
            proof {
                assert(w@ =~= seq![c]);
                assert(words@.map_values(|w: Vec<char>| w@) =~= ws_split(cs@.take(i + 1)));
            }
        }
        i = i + 1;
    }
    assert(cs@.take(n as int) =~= cs@);
    words
}

/// Whether `needle` occurs in `hay` as a contiguous run.
pub open spec fn has_substring(hay: Seq<char>, needle: Seq<char>) -> bool {
    exists|i: int| 0 <= i && i + needle.len() <= hay.len() && #[trigger] hay.subrange(i, i + needle.len()) == needle
}

/// Whether `needle` occurs in `hay` as a contiguous run.
pub fn contains_chars(hay: &[char], needle: &[char]) -> (r: bool)
    ensures
        r == has_substring(hay@, needle@),
{
    let h = hay.len();
    let m = needle.len();
    if m > h {
        return false;
    }
    let mut i: usize = 0;
    while i <= h - m
        invariant
            h == hay@.len(),
            m == needle@.len(),
            m <= h,
            0 <= i <= h - m + 1,
            forall|k: int| 0 <= k < i ==> #[trigger] hay@.subrange(k, k + m) != needle@,
        decreases h - m + 1 - i,
    {
        let mut j: usize = 0;
        while j < m && hay[i + j] == needle[j]
            invariant
                h == hay@.len(),
                m == needle@.len(),
                i + m <= h,
                0 <= j <= m,
                forall|q: int| 0 <= q < j ==> hay@[i + q] == needle@[q],
            decreases m - j,
        {
            j = j + 1;
        }
        if j == m {
            assert(hay@.subrange(i as int, i + m) =~= needle@);
            return true;
        }
        assert(hay@.subrange(i as int, i + m)[j as int] != needle@[j as int]);
        i = i + 1;
    }
    proof {
        if has_substring(hay@, needle@) {
            let k = choose|k: int| 0 <= k && k + m <= h && #[trigger] hay@.subrange(k, k + m) == needle@;
            assert(k < i);
        }
    }
    false
}

/// The characters of a line before its `\n`: without a final `\r`.
pub open spec fn strip_cr(line: Seq<char>) -> Seq<char> {
    if line.len() > 0 && line.last() == '\r' {
        line.drop_last()
    } else {
        line
    }
}

/// Reading `cs` line by line: the lines ended so far (each `\n` ends one,
/// a `\r` just before it dropped) and the characters of the line under way.
pub open spec fn lines_acc(cs: Seq<char>) -> (Seq<Seq<char>>, Seq<char>)
    decreases cs.len(),
{
    if cs.len() == 0 {
        (seq![], seq![])
    } else {
        let (done, cur) = lines_acc(cs.drop_last());
        if cs.last() == '\n' {
            (done.push(strip_cr(cur)), seq![])
        } else {
            (done, cur.push(cs.last()))
        }
    }
}

/// The lines of `cs`, as `str::lines` yields them: split at `\n` (and
/// `\r\n`), without the line endings, the last line ending optional.
pub open spec fn lines_spec(cs: Seq<char>) -> Seq<Seq<char>> {
    let (done, cur) = lines_acc(cs);
    if cur.len() > 0 {
        done.push(cur)
    } else {
        done
    }
}

/// The lines of a character sequence (see [`lines_spec`]).
pub fn lines_of(cs: &[char]) -> (lines: Vec<Vec<char>>)
    ensures
        lines@.map_values(|l: Vec<char>| l@) == lines_spec(cs@),
{
    let mut done: Vec<Vec<char>> = Vec::new();
    let mut cur: Vec<char> = Vec::new();
    let n = cs.len();
    let mut i: usize = 0;
    assert(cs@.take(0) =~= Seq::<char>::empty());
    assert(done@.map_values(|l: Vec<char>| l@) =~= Seq::<Seq<char>>::empty());
    while i < n
        invariant
            n == cs@.len(),
            0 <= i <= n,
            done@.map_values(|l: Vec<char>| l@) == lines_acc(cs@.take(i as int)).0,
            cur@ == lines_acc(cs@.take(i as int)).1,
        decreases n - i,
    {
        proof {
            assert(cs@.take(i + 1).drop_last() =~= cs@.take(i as int));
            assert(cs@.take(i + 1).last() == cs@[i as int]);
        }
        let c = cs[i];
        if c == '\n' {
            let ghost before = done@;
            if cur.len() > 0 && cur[cur.len() - 1] == '\r' {
                cur.pop();
            }
            let line = cur;
            done.push(line);
            cur = Vec::new();
            proof {
                assert(done@.map_values(|l: Vec<char>| l@) =~= before.map_values(|l: Vec<char>| l@).push(line@));
                assert(cur@ =~= Seq::<char>::empty());
            }
        } else {
            cur.push(c);
        }
        i = i + 1;
    }
    assert(cs@.take(n as int) =~= cs@);
    if cur.len() > 0 {
        let ghost before = done@;
        let line = cur;
        done.push(line);
        assert(done@.map_values(|l: Vec<char>| l@) =~= before.map_values(|l: Vec<char>| l@).push(line@));
    }
    done
}

/// A character sequence's UTF-8 length lies between its length and four
/// times its length.
pub proof fn lemma_utf8_len_bounds(cs: Seq<char>)
    ensures
        cs.len() <= utf8_len(cs) <= 4 * cs.len(),
    decreases cs.len(),
{
    if cs.len() > 0 {
        lemma_utf8_len_bounds(cs.drop_first());
    }
}

/// Whether the UTF-8 encoding of `cs` takes more than three bytes.
pub fn more_than_three_bytes(cs: &[char]) -> (r: bool)
    ensures
        r == (utf8_len(cs@) > 3),
{
    proof {
        lemma_utf8_len_bounds(cs@);
    }
    if cs.len() >= 4 {
        return true;
    }
    utf8_byte_len(cs) > 3
}

} // verus!
