//! Vocabulary management: token id <-> string mappings and special tokens.

use vstd::prelude::*;
use vstd::bytes::{spec_u16_from_le_bytes, spec_u16_to_le_bytes, spec_u32_from_le_bytes, spec_u32_to_le_bytes};
use vstd::utf8::{decode_utf8, encode_utf8, valid_utf8};
use crate::bytes::{lemma_u16_roundtrip, lemma_u32_roundtrip, push_all, push_u16, push_u32, read_u16, read_u32};
use crate::text::utf8_to_string;

verus! {

broadcast use vstd::string::group_string_axioms;

/// Special tokens used by the sLLM system.
#[derive(Debug, Clone, Copy, PartialEq, Eq, Hash, Structural)]
pub enum SpecialToken {
    /// Padding token (ID 0)
    Pad,
    /// Unknown token (ID 1)
    Unk,
    /// Beginning of sequence (ID 2)
    Bos,
    /// End of sequence (ID 3)
    Eos,
    /// Separator between segments (ID 4)
    Sep,
    /// Marks a "thinking" / reasoning block (ID 5)
    Think,
    /// Marks a code block (ID 6)
    Code,
    /// Marks a tool call (ID 7)
    Tool,
}

/// The reserved id of each special token.
pub open spec fn special_id(t: SpecialToken) -> u16 {
    match t {
        SpecialToken::Pad => 0,
        SpecialToken::Unk => 1,
        SpecialToken::Bos => 2,
        SpecialToken::Eos => 3,
        SpecialToken::Sep => 4,
        SpecialToken::Think => 5,
        SpecialToken::Code => 6,
        SpecialToken::Tool => 7,
    }
}

/// The text of each special token.
pub open spec fn special_text(t: SpecialToken) -> Seq<char> {
    match t {
        SpecialToken::Pad => seq!['<', 'P', 'A', 'D', '>'],
        SpecialToken::Unk => seq!['<', 'U', 'N', 'K', '>'],
        SpecialToken::Bos => seq!['<', 'B', 'O', 'S', '>'],
        SpecialToken::Eos => seq!['<', 'E', 'O', 'S', '>'],
        SpecialToken::Sep => seq!['<', 'S', 'E', 'P', '>'],
        SpecialToken::Think => seq!['<', 'T', 'H', 'I', 'N', 'K', '>'],
        SpecialToken::Code => seq!['<', 'C', 'O', 'D', 'E', '>'],
        SpecialToken::Tool => seq!['<', 'T', 'O', 'O', 'L', '>'],
    }
}

/// All special tokens, in id order.
pub open spec fn all_specials() -> Seq<SpecialToken> {
    seq![
        SpecialToken::Pad,
        SpecialToken::Unk,
        SpecialToken::Bos,
        SpecialToken::Eos,
        SpecialToken::Sep,
        SpecialToken::Think,
        SpecialToken::Code,
        SpecialToken::Tool,
    ]
}

/// The texts of all special tokens, in id order.
pub open spec fn special_texts() -> Seq<Seq<char>> {
    all_specials().map_values(|t: SpecialToken| special_text(t))
}

/// Whether `s` is the text of some special token.
pub open spec fn is_special_text(s: Seq<char>) -> bool {
    exists|i: int| 0 <= i < 8 && #[trigger] special_texts()[i] == s
}

impl SpecialToken {
    /// Returns the token ID for this special token.
    pub fn id(self) -> (r: u16)
        ensures
            r == special_id(self),
    {
        match self {
            SpecialToken::Pad => 0,
            SpecialToken::Unk => 1,
            SpecialToken::Bos => 2,
            SpecialToken::Eos => 3,
            SpecialToken::Sep => 4,
            SpecialToken::Think => 5,
            SpecialToken::Code => 6,
            SpecialToken::Tool => 7,
        }
    }

    /// Returns the string representation of this special token.
    pub fn as_str(self) -> (r: &'static str)
        ensures
            r@ == special_text(self),
    {
        match self {
            SpecialToken::Pad => {
                proof { reveal_strlit("<PAD>"); }
                "<PAD>"
            },
            SpecialToken::Unk => {
                proof { reveal_strlit("<UNK>"); }
                "<UNK>"
            },
            SpecialToken::Bos => {
                proof { reveal_strlit("<BOS>"); }
                "<BOS>"
            },
            SpecialToken::Eos => {
                proof { reveal_strlit("<EOS>"); }
                "<EOS>"
            },
            SpecialToken::Sep => {
                proof { reveal_strlit("<SEP>"); }
                "<SEP>"
            },
            SpecialToken::Think => {
                proof { reveal_strlit("<THINK>"); }
                "<THINK>"
            },
            SpecialToken::Code => {
                proof { reveal_strlit("<CODE>"); }
                "<CODE>"
            },
            SpecialToken::Tool => {
                proof { reveal_strlit("<TOOL>"); }
                "<TOOL>"
            },
        }
    }

    /// All special tokens in order.
    pub fn all() -> (r: &'static [SpecialToken])
        ensures
            r@ == all_specials(),
    {
        let r: &'static [SpecialToken] = &[
            SpecialToken::Pad,
            SpecialToken::Unk,
            SpecialToken::Bos,
            SpecialToken::Eos,
            SpecialToken::Sep,
            SpecialToken::Think,
            SpecialToken::Code,
            SpecialToken::Tool,
        ];
        r
    }

    /// Number of reserved special token IDs.
    pub fn count() -> (r: u16)
        ensures
            r == 8,
            r == all_specials().len(),
    {
        let n = Self::all().len();
        n as u16
    }
}

/// Errors that can occur when decoding vocabulary data.
#[derive(Debug, Clone, Copy, PartialEq, Eq, Structural)]
pub enum VocabError {
    /// The data ended before the vocabulary was complete.
    TruncatedData,
    /// A token's bytes were not valid UTF-8.
    InvalidUtf8,
}

/// Index of the last occurrence of `t` in `toks`, or -1 when it does not occur.
pub open spec fn last_index(toks: Seq<Seq<char>>, t: Seq<char>) -> int
    decreases toks.len(),
{
    if toks.len() == 0 {
        -1
    } else if toks.last() == t {
        toks.len() - 1
    } else {
        last_index(toks.drop_last(), t)
    }
}

/// The id under which `t` is found in a vocabulary with tokens `toks`: the
/// position of its last occurrence, as a 16-bit id.
pub open spec fn lookup_id(toks: Seq<Seq<char>>, t: Seq<char>) -> Option<u16> {
    if last_index(toks, t) >= 0 {
        Some(last_index(toks, t) as u16)
    } else {
        None
    }
}

/// The id `t` encodes to: its own id when known, the UNK id otherwise.
pub open spec fn encode_id(toks: Seq<Seq<char>>, t: Seq<char>) -> u16 {
    match lookup_id(toks, t) {
        Some(id) => id,
        None => 1,
    }
}

/// Serialized form of one token: its UTF-8 length as a 16-bit little-endian
/// number, then its UTF-8 bytes.
pub open spec fn entry_bytes(t: Seq<char>) -> Seq<u8> {
    spec_u16_to_le_bytes(encode_utf8(t).len() as u16) + encode_utf8(t)
}

/// Serialized form of a token list (entries back to back).
pub open spec fn entries_bytes(toks: Seq<Seq<char>>) -> Seq<u8>
    decreases toks.len(),
{
    if toks.len() == 0 {
        seq![]
    } else {
        entry_bytes(toks[0]) + entries_bytes(toks.drop_first())
    }
}

/// Serialized form of a vocabulary: the token count as a 32-bit
/// little-endian number, then every token entry in id order.
pub open spec fn vocab_bytes(toks: Seq<Seq<char>>) -> Seq<u8> {
    spec_u32_to_le_bytes(toks.len() as u32) + entries_bytes(toks)
}

/// Parses `k` token entries from the front of `d`: the tokens and the number
/// of bytes they take, or the first error met.
pub open spec fn parse_entries(d: Seq<u8>, k: nat) -> Result<(Seq<Seq<char>>, nat), VocabError>
    decreases k,
{
    if k == 0 {
        Ok((seq![], 0))
    } else if d.len() < 2 {
        Err(VocabError::TruncatedData)
    } else {
        let l = spec_u16_from_le_bytes(d.subrange(0, 2)) as int;
        if 2 + l > d.len() {
            Err(VocabError::TruncatedData)
        } else if !valid_utf8(d.subrange(2, 2 + l)) {
            Err(VocabError::InvalidUtf8)
        } else {
            match parse_entries(d.skip(2 + l), (k - 1) as nat) {
                Ok((rest, used)) => Ok((seq![decode_utf8(d.subrange(2, 2 + l))] + rest, (2 + l + used) as nat)),
                Err(e) => Err(e),
            }
        }
    }
}

/// Parses a serialized vocabulary from the front of `d`: its tokens and the
/// number of bytes consumed, or the first error met.
pub open spec fn parse_vocab(d: Seq<u8>) -> Result<(Seq<Seq<char>>, nat), VocabError> {
    if d.len() < 4 {
        Err(VocabError::TruncatedData)
    } else {
        match parse_entries(d.skip(4), spec_u32_from_le_bytes(d.subrange(0, 4)) as nat) {
            Ok((toks, used)) => Ok((toks, 4 + used)),
            Err(e) => Err(e),
        }
    }
}

/// The character sequences held by a list of strings.
pub open spec fn strings_view(v: Seq<String>) -> Seq<Seq<char>> {
    v.map_values(|s: String| s@)
}

/// Pushing a string pushes its characters onto the view.
pub proof fn lemma_strings_view_push(v: Seq<String>, s: String)
    ensures
        strings_view(v.push(s)) == strings_view(v).push(s@),
{
    assert(strings_view(v.push(s)) =~= strings_view(v).push(s@));
}

/// Token vocabulary: maps between token IDs and their string representations.
#[derive(Debug, Clone)]
pub struct Vocab {
    /// Token ID -> string (special tokens first, at ids 0..8)
    id_to_token: Vec<String>,
}

impl View for Vocab {
    type V = Seq<Seq<char>>;

    /// The token strings, in id order.
    closed spec fn view(&self) -> Seq<Seq<char>> {
        strings_view(self.id_to_token@)
    }
}

impl Vocab {
    /// Create a new vocabulary with only special tokens.
    pub fn new() -> (v: Self)
        ensures
            v@ == special_texts(),
    {
        let mut id_to_token: Vec<String> = Vec::new();
        let all = SpecialToken::all();
        let mut i: usize = 0;
        while i < all.len()
            invariant
                all@ == all_specials(),
                0 <= i <= 8,
                id_to_token@.len() == i,
                special_texts().len() == 8,
                strings_view(id_to_token@) == special_texts().take(i as int),
            decreases 8 - i,
        {
            let s = all[i].as_str().to_string();
            assert(s@ == special_text(all_specials()[i as int]));
            assert(special_texts()[i as int] == special_text(all_specials()[i as int]));
            let ghost before = id_to_token@;
            id_to_token.push(s);
            i = i + 1;
            assert forall|j: int| 0 <= j < i implies #[trigger] strings_view(id_to_token@)[j]
                == special_texts().take(i as int)[j] by {
                if j < i - 1 {
                    assert(id_to_token@[j] == before[j]);
                    assert(strings_view(before)[j] == special_texts().take(i - 1)[j]);
                }
            }
            assert(strings_view(id_to_token@) =~= special_texts().take(i as int));
        }
        assert(special_texts().take(8) == special_texts());
        Vocab { id_to_token }
    }

    /// A vocabulary holding exactly `tokens`, in id order.
    pub fn from_tokens(tokens: Vec<String>) -> (v: Self)
        ensures
            v@ == strings_view(tokens@),
    {
        Vocab { id_to_token: tokens }
    }

    /// The tokens, in id order.
    pub fn tokens(&self) -> (ts: &[String])
        ensures
            strings_view(ts@) == self@,
    {
        self.id_to_token.as_slice()
    }

    /// Position of the last token equal to `token`, if any.
    fn find_last(&self, token: &str) -> (r: Option<usize>)
        ensures
            r matches Some(i) ==> i == last_index(self@, token@),
            r is None ==> last_index(self@, token@) == -1,
    {
        let mut i: usize = self.id_to_token.len();
        assert(self@.take(i as int) == self@);
        while i > 0
            invariant
                0 <= i <= self@.len(),
                self@.len() == self.id_to_token@.len(),
                last_index(self@, token@) == last_index(self@.take(i as int), token@),
            decreases i,
        {
            proof {
                assert(self@.take(i as int).drop_last() == self@.take(i - 1));
                assert(self@.take(i as int).last() == self@[i - 1]);
            }
            if crate::text::str_eq(self.id_to_token[i - 1].as_str(), token) {
                return Some(i - 1);
            }
            i = i - 1;
        }
        None
    }

    /// Add a token to the vocabulary and return its id. A token already
    /// present keeps its id and the vocabulary is unchanged; a new token gets
    /// the next id (the old length, as a 16-bit id).
    pub fn add_token(&mut self, token: &str) -> (id: u16)
        ensures
            last_index(old(self)@, token@) >= 0 ==> final(self)@ == old(self)@ && id == last_index(
                old(self)@,
                token@,
            ) as u16,
            last_index(old(self)@, token@) < 0 ==> final(self)@ == old(self)@.push(token@) && id
                == old(self)@.len() as u16,
    {
        match self.find_last(token) {
            Some(i) => i as u16,
            None => {
                let id = self.id_to_token.len() as u16;
                let ghost before = self@;
                self.id_to_token.push(token.to_string());
                assert(self@ == before.push(token@));
                id
            },
        }
    }

    /// Look up a token by its string. Returns None if not in vocabulary.
    pub fn token_to_id(&self, token: &str) -> (r: Option<u16>)
        ensures
            r == lookup_id(self@, token@),
    {
        match self.find_last(token) {
            Some(i) => Some(i as u16),
            None => None,
        }
    }

    /// Look up a token string by its ID. Returns None if ID is out of range.
    pub fn id_to_token(&self, id: u16) -> (r: Option<&str>)
        ensures
            (id as int) < self@.len() ==> (r matches Some(s) && s@ == self@[id as int]),
            (id as int) >= self@.len() ==> r is None,
    {
        if (id as usize) < self.id_to_token.len() {
            Some(self.id_to_token[id as usize].as_str())
        } else {
            None
        }
    }

    /// Returns the total number of tokens (including special tokens).
    pub fn len(&self) -> (n: usize)
        ensures
            n == self@.len(),
    {
        self.id_to_token.len()
    }

    /// Returns true if the vocabulary contains only special tokens.
    pub fn is_empty(&self) -> (b: bool)
        ensures
            b == (self@.len() <= 8),
    {
        self.id_to_token.len() <= SpecialToken::count() as usize
    }

    /// Returns the UNK token ID.
    pub fn unk_id(&self) -> (id: u16)
        ensures
            id == 1,
    {
        SpecialToken::Unk.id()
    }

    /// Encode a token string to its ID, returning UNK if not found.
    pub fn encode_token(&self, token: &str) -> (id: u16)
        ensures
            id == encode_id(self@, token@),
    {
        match self.token_to_id(token) {
            Some(id) => id,
            None => self.unk_id(),
        }
    }

    /// Serialize vocabulary to bytes for embedding in the brain.sllm file.
    pub fn to_bytes(&self) -> (buf: Vec<u8>)
        ensures
            buf@ == vocab_bytes(self@),
    {
        let mut buf: Vec<u8> = Vec::new();
        let n = self.id_to_token.len();
        push_u32(&mut buf, n as u32);
        let ghost head = buf@;
        let mut i: usize = 0;
        while i < n
            invariant
                n == self@.len(),
                0 <= i <= n,
                head == spec_u32_to_le_bytes(n as u32),
                buf@ == head + entries_bytes(self@.take(i as int)),
            decreases n - i,
        {
            let bytes = self.id_to_token[i].as_str().as_bytes();
            push_u16(&mut buf, bytes.len() as u16);
            push_all(&mut buf, bytes);
            proof {
                lemma_entries_bytes_push(self@.take(i as int), self@[i as int]);
                assert(self@.take(i + 1) == self@.take(i as int).push(self@[i as int]));
            }
            i = i + 1;
        }
        assert(self@.take(n as int) == self@);
        buf
    }

    /// Deserialize vocabulary from bytes; on success also returns the number
    /// of bytes consumed.
    pub fn from_bytes(data: &[u8]) -> (r: Result<(Self, usize), VocabError>)
        ensures
            match r {
                Ok((v, used)) => parse_vocab(data@) == Ok::<(Seq<Seq<char>>, nat), VocabError>(
                    (v@, used as nat),
                ),
                Err(e) => parse_vocab(data@) == Err::<(Seq<Seq<char>>, nat), VocabError>(e),
            },
    {
        let dlen = data.len();
        if dlen < 4 {
            return Err(VocabError::TruncatedData);
        }
        let count = read_u32(data, 0);
        match read_entries(data, 4, count as u64) {
            Ok((id_to_token, end)) => {
                let v = Vocab { id_to_token };
                Ok((v, end))
            },
            Err(e) => Err(e),
        }
    }
}

/// Reads `count` token entries starting at byte `pos`: the strings and the
/// position just after them, or the first error met.
pub fn read_entries(data: &[u8], start: usize, count: u64) -> (r: Result<(Vec<String>, usize), VocabError>)
    requires
        start <= data@.len(),
    ensures
        match r {
            Ok((v, end)) => start <= end <= data@.len() && parse_entries(data@.skip(start as int), count as nat)
                == Ok::<(Seq<Seq<char>>, nat), VocabError>((strings_view(v@), (end - start) as nat)),
            Err(e) => parse_entries(data@.skip(start as int), count as nat) == Err::<
                (Seq<Seq<char>>, nat),
                VocabError,
            >(e),
        },
{
    let dlen = data.len();
    let mut pos = start;
    let mut out: Vec<String> = Vec::new();
    let ghost d = data@.skip(start as int);
    let mut i: u64 = 0;
    while i < count
        invariant
            dlen == data@.len(),
            start <= pos <= dlen,
            0 <= i <= count,
            d == data@.skip(start as int),
            parse_entries(d, count as nat) == prepend(
                strings_view(out@),
                (pos - start) as nat,
                parse_entries(data@.skip(pos as int), (count - i) as nat),
            ),
        decreases count - i,
    {
        let ghost rest = data@.skip(pos as int);
        if 2 > dlen - pos {
            return Err(VocabError::TruncatedData);
        }
        let token_len = read_u16(data, pos) as usize;
        proof {
            assert(rest.subrange(0, 2) == data@.subrange(pos as int, pos + 2));
        }
        pos = pos + 2;
        if token_len > dlen - pos {
            return Err(VocabError::TruncatedData);
        }
        let piece = vstd::slice::slice_subrange(data, pos, pos + token_len);
        proof {
            assert(piece@ == rest.subrange(2, 2 + token_len));
        }
        let token = match utf8_to_string(piece) {
            Some(s) => s,
            None => {
                return Err(VocabError::InvalidUtf8);
            },
        };
        let ghost before = out@;
        out.push(token);
        pos = pos + token_len;
        i = i + 1;
        proof {
            assert(rest.skip(2 + token_len) == data@.skip(pos as int));
            lemma_strings_view_push(before, token);
            lemma_prepend_push(strings_view(before), decode_utf8(piece@), (pos - start - 2 - token_len) as nat,
                (2 + token_len) as nat, parse_entries(data@.skip(pos as int), (count - i) as nat));
        }
    }
    proof {
        assert(strings_view(out@) + Seq::<Seq<char>>::empty() =~= strings_view(out@));
    }
    Ok((out, pos))
}

impl Default for Vocab {
    fn default() -> (v: Self)
        ensures
            v@ == special_texts(),
    {
        Self::new()
    }
}

/// Puts already-parsed tokens and their byte count in front of a parse result.
pub open spec fn prepend(
    toks: Seq<Seq<char>>,
    used: nat,
    r: Result<(Seq<Seq<char>>, nat), VocabError>,
) -> Result<(Seq<Seq<char>>, nat), VocabError> {
    match r {
        Ok((rest, n)) => Ok((toks + rest, used + n)),
        Err(e) => Err(e),
    }
}

proof fn lemma_prepend_push(
    toks: Seq<Seq<char>>,
    t: Seq<char>,
    used: nat,
    step: nat,
    r: Result<(Seq<Seq<char>>, nat), VocabError>,
)
    ensures
        prepend(toks, used, prepend(seq![t], step, r)) == prepend(toks.push(t), used + step, r),
{
    match r {
        Ok((rest, n)) => {
            assert(toks + (seq![t] + rest) == toks.push(t) + rest);
        },
        Err(e) => {},
    }
}

/// Appending a token to a list appends its entry to the serialized list.
pub proof fn lemma_entries_bytes_push(toks: Seq<Seq<char>>, t: Seq<char>)
    ensures
        entries_bytes(toks.push(t)) == entries_bytes(toks) + entry_bytes(t),
    decreases toks.len(),
{
    if toks.len() == 0 {
        assert(toks.push(t).drop_first() =~= Seq::<Seq<char>>::empty());
        assert(entries_bytes(toks.push(t).drop_first()) =~= Seq::<u8>::empty());
        assert(entries_bytes(toks.push(t)) =~= entry_bytes(t));
        assert(entries_bytes(toks) + entry_bytes(t) =~= entry_bytes(t));
    } else {
        assert(toks.push(t).drop_first() =~= toks.drop_first().push(t));
        lemma_entries_bytes_push(toks.drop_first(), t);
        assert(toks.push(t)[0] == toks[0]);
        assert(entries_bytes(toks.push(t)) =~= entries_bytes(toks) + entry_bytes(t));
    }
}

/// A successful parse of `k` entries gives exactly `k` strings.
pub proof fn lemma_parse_entries_len(d: Seq<u8>, k: nat)
    ensures
        parse_entries(d, k) matches Ok((es, _)) ==> es.len() == k,
    decreases k,
{
    if k > 0 && d.len() >= 2 {
        let l = spec_u16_from_le_bytes(d.subrange(0, 2)) as int;
        if 2 + l <= d.len() {
            lemma_parse_entries_len(d.skip(2 + l), (k - 1) as nat);
        }
    }
}

/// Whether every token of `toks` fits the 16-bit length field of the format.
pub open spec fn tokens_fit(toks: Seq<Seq<char>>) -> bool {
    forall|i: int| 0 <= i < toks.len() ==> #[trigger] encode_utf8(toks[i]).len() <= u16::MAX
}

/// Parsing the serialized form of a token list (followed by any bytes)
/// gives the list back with its exact byte count, when every token fits.
pub proof fn lemma_parse_entries_of_bytes(toks: Seq<Seq<char>>, rest: Seq<u8>)
    requires
        tokens_fit(toks),
    ensures
        parse_entries(entries_bytes(toks) + rest, toks.len()) == Ok::<(Seq<Seq<char>>, nat), VocabError>(
            (toks, entries_bytes(toks).len()),
        ),
    decreases toks.len(),
{
    if toks.len() > 0 {
        let t = toks[0];
        let enc = encode_utf8(t);
        vstd::utf8::encode_utf8_valid_utf8(t);
        vstd::utf8::encode_utf8_decode_utf8(t);
        let l = enc.len();
        assert(encode_utf8(toks[0]).len() <= u16::MAX);
        lemma_u16_roundtrip(l as u16);
        let tail = toks.drop_first();
        assert(tokens_fit(tail)) by {
            assert forall|i: int| 0 <= i < tail.len() implies #[trigger] encode_utf8(tail[i]).len()
                <= u16::MAX by {
                assert(tail[i] == toks[i + 1]);
            }
        }
        let d = entries_bytes(toks) + rest;
        let hdr = spec_u16_to_le_bytes(l as u16);
        assert(entries_bytes(toks) == hdr + enc + entries_bytes(tail));
        assert(d == hdr + (enc + (entries_bytes(tail) + rest)));
        assert(d.subrange(0, 2) =~= hdr);
        assert(d.subrange(2, 2 + l as int) =~= enc);
        assert(d.skip(2 + l as int) =~= entries_bytes(tail) + rest);
        lemma_parse_entries_of_bytes(tail, rest);
        assert(seq![t] + tail =~= toks);
        assert(spec_u16_from_le_bytes(d.subrange(0, 2)) as int == l);
        assert(entries_bytes(toks).len() == 2 + l + entries_bytes(tail).len());
    } else {
        assert(toks =~= Seq::<Seq<char>>::empty());
    }
}

/// Serializing a vocabulary and parsing the bytes back gives the same tokens
/// and consumes exactly the serialized bytes, whenever the token count fits in
/// 32 bits and every token's UTF-8 form fits in 16 bits.
pub proof fn lemma_vocab_roundtrip(toks: Seq<Seq<char>>)
    requires
        toks.len() <= u32::MAX,
        tokens_fit(toks),
    ensures
        parse_vocab(vocab_bytes(toks)) == Ok::<(Seq<Seq<char>>, nat), VocabError>(
            (toks, vocab_bytes(toks).len()),
        ),
{
    lemma_vocab_roundtrip_with_suffix(toks, Seq::empty());
    assert(vocab_bytes(toks) + Seq::<u8>::empty() =~= vocab_bytes(toks));
}

/// As `lemma_vocab_roundtrip`, with any bytes following the vocabulary.
pub proof fn lemma_vocab_roundtrip_with_suffix(toks: Seq<Seq<char>>, rest: Seq<u8>)
    requires
        toks.len() <= u32::MAX,
        tokens_fit(toks),
    ensures
        parse_vocab(vocab_bytes(toks) + rest) == Ok::<(Seq<Seq<char>>, nat), VocabError>(
            (toks, vocab_bytes(toks).len()),
        ),
{
    let n = toks.len() as u32;
    lemma_u32_roundtrip(n);
    let d = vocab_bytes(toks) + rest;
    let hdr = spec_u32_to_le_bytes(n);
    assert(d =~= hdr + (entries_bytes(toks) + rest));
    assert(d.subrange(0, 4) =~= hdr);
    assert(d.skip(4) =~= entries_bytes(toks) + rest);
    lemma_parse_entries_of_bytes(toks, rest);
}

} // verus!
