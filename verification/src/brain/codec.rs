//! Byte layout of a count table: the serialized form, its parser, and the
//! proof that parsing gives a serialized table back.

use vstd::prelude::*;
use vstd::bytes::{spec_u16_to_le_bytes, spec_u32_to_le_bytes, spec_u64_to_le_bytes};
use crate::bytes::{
    lemma_u16_roundtrip, lemma_u32_roundtrip, lemma_u64_roundtrip, push_u16, push_u32, read_u16, read_u32,
    u16_at, u32_at, u64_at,
};
use super::count_table::{
    ctx_find, distinct_tokens, entries_wf, lemma_ctx_find, lemma_tok_find, num_pairs, table_wf, tok_find, Entries,
    NextCounts, TableView,
};
use super::error::BrainError;

verus! {

/// Serialized context tokens: each token as a 16-bit little-endian number.
pub open spec fn tokens_bytes(ts: Seq<u16>) -> Seq<u8>
    decreases ts.len(),
{
    if ts.len() == 0 {
        seq![]
    } else {
        tokens_bytes(ts.drop_last()) + spec_u16_to_le_bytes(ts.last())
    }
}

/// Serialized counts: each token (16 bits) then its count (32 bits), little-endian.
pub open spec fn pairs_bytes(ns: NextCounts) -> Seq<u8>
    decreases ns.len(),
{
    if ns.len() == 0 {
        seq![]
    } else {
        pairs_bytes(ns.drop_last()) + spec_u16_to_le_bytes(ns.last().0) + spec_u32_to_le_bytes(ns.last().1)
    }
}

/// Serialized entry: the context tokens, the number of counts (32 bits,
/// little-endian), then the counts.
pub open spec fn block_bytes(e: (Seq<u16>, NextCounts)) -> Seq<u8> {
    tokens_bytes(e.0) + spec_u32_to_le_bytes(e.1.len() as u32) + pairs_bytes(e.1)
}

/// Serialized entries, back to back in order.
pub open spec fn blocks_bytes(es: Entries) -> Seq<u8>
    decreases es.len(),
{
    if es.len() == 0 {
        seq![]
    } else {
        block_bytes(es[0]) + blocks_bytes(es.drop_first())
    }
}

/// Serialized table: the order byte, the number of contexts (64 bits,
/// little-endian), then every entry.
pub open spec fn table_bytes(t: TableView) -> Seq<u8> {
    seq![t.order] + spec_u64_to_le_bytes(t.entries.len() as u64) + blocks_bytes(t.entries)
}

/// `n` tokens stored from byte `p` of `d`.
pub open spec fn tokens_at(d: Seq<u8>, p: int, n: nat) -> Seq<u16> {
    Seq::new(n, |i: int| u16_at(d, p + 2 * i))
}

/// `m` (token, count) pairs stored from byte `p` of `d`.
pub open spec fn pairs_at(d: Seq<u8>, p: int, m: nat) -> NextCounts {
    Seq::new(m, |i: int| (u16_at(d, p + 6 * i), u32_at(d, p + 6 * i + 2)))
}

/// One stored entry read from the front of `d`, for contexts of `clen`
/// tokens: the context, its pairs in stored order, and the bytes taken; or
/// None when `d` ends before the entry does.
pub open spec fn parse_block(d: Seq<u8>, clen: nat) -> Option<((Seq<u16>, NextCounts), nat)> {
    if d.len() < 2 * clen + 4 {
        None
    } else {
        let m = u32_at(d, 2 * clen as int) as nat;
        if d.len() < 2 * clen + 4 + 6 * m {
            None
        } else {
            Some(((tokens_at(d, 0, clen), pairs_at(d, 2 * clen + 4 as int, m)), 2 * clen + 4 + 6 * m))
        }
    }
}

/// `k` stored entries read from the front of `d`, and the bytes they take;
/// None when `d` ends early.
pub open spec fn parse_blocks(d: Seq<u8>, clen: nat, k: nat) -> Option<(Entries, nat)>
    decreases k,
{
    if k == 0 {
        Some((seq![], 0))
    } else {
        match parse_block(d, clen) {
            None => None,
            Some((b, n)) => match parse_blocks(d.skip(n as int), clen, (k - 1) as nat) {
                None => None,
                Some((bs, used)) => Some((seq![b] + bs, n + used)),
            },
        }
    }
}

/// `ns` with `tok` set to count `c`: in place when held, appended otherwise.
pub open spec fn put_count(ns: NextCounts, tok: u16, c: u32) -> NextCounts {
    let j = tok_find(ns, tok);
    if j >= 0 {
        ns.update(j, (tok, c))
    } else {
        ns.push((tok, c))
    }
}

/// Stored pairs taken in order, a later pair for a token replacing an earlier one.
pub open spec fn fold_pairs(ps: NextCounts) -> NextCounts
    decreases ps.len(),
{
    if ps.len() == 0 {
        seq![]
    } else {
        put_count(fold_pairs(ps.drop_last()), ps.last().0, ps.last().1)
    }
}

/// `es` with context `ctx` holding `ns`: in place when held, appended otherwise.
pub open spec fn put_entry(es: Entries, ctx: Seq<u16>, ns: NextCounts) -> Entries {
    let i = ctx_find(es, ctx);
    if i >= 0 {
        es.update(i, (ctx, ns))
    } else {
        es.push((ctx, ns))
    }
}

/// Stored entries taken in order: each entry's pairs folded, and a later
/// entry for a context replacing an earlier one.
pub open spec fn fold_blocks(bs: Entries) -> Entries
    decreases bs.len(),
{
    if bs.len() == 0 {
        seq![]
    } else {
        put_entry(fold_blocks(bs.drop_last()), bs.last().0, fold_pairs(bs.last().1))
    }
}

/// Parses a serialized table from the front of `d`: the table (order from the
/// first byte, no eviction budget, its counter the number of pairs read) and
/// the bytes consumed; an error when `d` ends early.
pub open spec fn parse_table(d: Seq<u8>) -> Result<(TableView, nat), BrainError> {
    if d.len() < 9 {
        Err(BrainError::TruncatedData)
    } else {
        match parse_blocks(d.skip(9), (d[0] - 1) as nat, u64_at(d, 1) as nat) {
            None => Err(BrainError::TruncatedData),
            Some((bs, used)) => Ok(
                (
                    TableView { order: d[0], entries: fold_blocks(bs), total: num_pairs(bs) as u64, max_entries: 0 },
                    9 + used,
                ),
            ),
        }
    }
}

/// Puts already-read entries and their byte count in front of a parse result.
pub open spec fn prepend_blocks(bs: Entries, used: nat, r: Option<(Entries, nat)>) -> Option<(Entries, nat)> {
    match r {
        Some((rest, n)) => Some((bs + rest, used + n)),
        None => None,
    }
}

/// Prepending entries one at a time is prepending them all at once.
pub(crate) proof fn lemma_prepend_blocks_push(
    bs: Entries,
    b: (Seq<u16>, NextCounts),
    used: nat,
    step: nat,
    r: Option<(Entries, nat)>,
)
    ensures
        prepend_blocks(bs, used, prepend_blocks(seq![b], step, r)) == prepend_blocks(bs.push(b), used + step, r),
{
    match r {
        Some((rest, n)) => {
            assert(bs + (seq![b] + rest) =~= bs.push(b) + rest);
        },
        None => {},
    }
}

/// Number of pairs with one more entry at the end.
pub proof fn lemma_num_pairs_push(es: Entries, e: (Seq<u16>, NextCounts))
    ensures
        num_pairs(es.push(e)) == num_pairs(es) + e.1.len(),
{
    assert(es.push(e).drop_last() =~= es);
}

/// Setting a count keeps the tokens distinct and adds at most one pair.
proof fn lemma_put_count(ns: NextCounts, tok: u16, c: u32)
    requires
        distinct_tokens(ns),
    ensures
        distinct_tokens(put_count(ns, tok, c)),
        put_count(ns, tok, c).len() <= ns.len() + 1,
{
    lemma_tok_find(ns, tok);
    let j = tok_find(ns, tok);
    let r = put_count(ns, tok, c);
    assert forall|p: int, q: int| 0 <= p < q < r.len() implies (#[trigger] r[p]).0 != (#[trigger] r[q]).0 by {
        if j >= 0 {
            assert(r[p].0 == ns[p].0 && r[q].0 == ns[q].0);
        } else if q == ns.len() {
            assert(r[p] == ns[p]);
        } else {
            assert(r[p] == ns[p] && r[q] == ns[q]);
        }
    }
}

/// Folded pairs have distinct tokens and are no more than the pairs read.
pub proof fn lemma_fold_pairs(ps: NextCounts)
    ensures
        distinct_tokens(fold_pairs(ps)),
        fold_pairs(ps).len() <= ps.len(),
    decreases ps.len(),
{
    if ps.len() > 0 {
        lemma_fold_pairs(ps.drop_last());
        lemma_put_count(fold_pairs(ps.drop_last()), ps.last().0, ps.last().1);
    }
}

/// Putting an entry keeps the entries well formed and adds at most its pairs.
pub proof fn lemma_put_entry(es: Entries, ctx: Seq<u16>, ns: NextCounts, clen: nat)
    requires
        entries_wf(es, clen),
        ctx.len() == clen,
        distinct_tokens(ns),
    ensures
        entries_wf(put_entry(es, ctx, ns), clen),
        num_pairs(put_entry(es, ctx, ns)) <= num_pairs(es) + ns.len(),
{
    lemma_ctx_find(es, ctx);
    let i = ctx_find(es, ctx);
    let r = put_entry(es, ctx, ns);
    if i >= 0 {
        super::count_table::lemma_num_pairs_update(es, i, (ctx, ns));
        assert forall|p: int| 0 <= p < r.len() implies (#[trigger] r[p]).0.len() == clen && distinct_tokens(r[p].1) by {
            if p != i {
                assert(r[p] == es[p]);
            }
        }
        assert forall|p: int, q: int| 0 <= p < q < r.len() implies (#[trigger] r[p]).0 != (#[trigger] r[q]).0 by {
            assert(r[p].0 == es[p].0 && r[q].0 == es[q].0);
        }
    } else {
        lemma_num_pairs_push(es, (ctx, ns));
        assert forall|p: int| 0 <= p < r.len() implies (#[trigger] r[p]).0.len() == clen && distinct_tokens(r[p].1) by {
            if p < es.len() {
                assert(r[p] == es[p]);
            }
        }
        assert forall|p: int, q: int| 0 <= p < q < r.len() implies (#[trigger] r[p]).0 != (#[trigger] r[q]).0 by {
            if q == es.len() {
                assert(r[p] == es[p]);
            } else {
                assert(r[p] == es[p] && r[q] == es[q]);
            }
        }
    }
}

/// A token list's bytes are two per token and read back as the tokens.
pub proof fn lemma_tokens_bytes(ts: Seq<u16>, rest: Seq<u8>)
    ensures
        tokens_bytes(ts).len() == 2 * ts.len(),
        tokens_at(tokens_bytes(ts) + rest, 0, ts.len()) == ts,
    decreases ts.len(),
{
    if ts.len() > 0 {
        let d = ts.drop_last();
        let enc = spec_u16_to_le_bytes(ts.last());
        lemma_u16_roundtrip(ts.last());
        lemma_tokens_bytes(d, enc + rest);
        let x = tokens_bytes(ts) + rest;
        assert(x =~= tokens_bytes(d) + (enc + rest));
        let n = d.len() as int;
        assert(x.subrange(2 * n, 2 * n + 2) =~= enc);
        assert forall|i: int| 0 <= i < ts.len() implies #[trigger] tokens_at(x, 0, ts.len())[i] == ts[i] by {
            if i < n {
                assert(tokens_at(x, 0, d.len())[i] == d[i]);
            }
        }
        assert(tokens_at(x, 0, ts.len()) =~= ts);
    } else {
        assert(tokens_at(tokens_bytes(ts) + rest, 0, ts.len()) =~= ts);
    }
}

/// A pair list's bytes are six per pair and read back as the pairs, wherever
/// they stand.
pub proof fn lemma_pairs_bytes(pre: Seq<u8>, ns: NextCounts, rest: Seq<u8>)
    ensures
        pairs_bytes(ns).len() == 6 * ns.len(),
        pairs_at(pre + pairs_bytes(ns) + rest, pre.len() as int, ns.len()) == ns,
    decreases ns.len(),
{
    if ns.len() > 0 {
        let d = ns.drop_last();
        let e16 = spec_u16_to_le_bytes(ns.last().0);
        let e32 = spec_u32_to_le_bytes(ns.last().1);
        lemma_u16_roundtrip(ns.last().0);
        lemma_u32_roundtrip(ns.last().1);
        lemma_pairs_bytes(pre, d, e16 + e32 + rest);
        let x = pre + pairs_bytes(ns) + rest;
        assert(x =~= pre + pairs_bytes(d) + (e16 + e32 + rest));
        let p = pre.len() as int + 6 * d.len();
        assert(x.subrange(p, p + 2) =~= e16);
        assert(x.subrange(p + 2, p + 6) =~= e32);
        assert forall|i: int| 0 <= i < ns.len() implies #[trigger] pairs_at(x, pre.len() as int, ns.len())[i] == ns[i] by {
            if i < d.len() {
                assert(pairs_at(x, pre.len() as int, d.len())[i] == d[i]);
            }
        }
        assert(pairs_at(x, pre.len() as int, ns.len()) =~= ns);
    } else {
        assert(pairs_at(pre + pairs_bytes(ns) + rest, pre.len() as int, ns.len()) =~= ns);
    }
}

/// An entry's bytes read back as the entry, when its context has `clen`
/// tokens and its pair count fits the 32-bit field.
pub proof fn lemma_parse_block_of_bytes(e: (Seq<u16>, NextCounts), rest: Seq<u8>, clen: nat)
    requires
        e.0.len() == clen,
        e.1.len() <= u32::MAX,
    ensures
        block_bytes(e).len() == 2 * clen + 4 + 6 * e.1.len(),
        parse_block(block_bytes(e) + rest, clen) == Some((e, block_bytes(e).len())),
{
    let enc = spec_u32_to_le_bytes(e.1.len() as u32);
    lemma_u32_roundtrip(e.1.len() as u32);
    lemma_tokens_bytes(e.0, enc + pairs_bytes(e.1) + rest);
    let pre = tokens_bytes(e.0) + enc;
    lemma_pairs_bytes(pre, e.1, rest);
    let x = block_bytes(e) + rest;
    assert(x =~= tokens_bytes(e.0) + (enc + pairs_bytes(e.1) + rest));
    assert(x =~= pre + pairs_bytes(e.1) + rest);
    assert(x.subrange(2 * clen as int, 2 * clen + 4 as int) =~= enc);
}

/// Entries' bytes read back as the entries.
pub proof fn lemma_parse_blocks_of_bytes(es: Entries, rest: Seq<u8>, clen: nat)
    requires
        forall|i: int| 0 <= i < es.len() ==> (#[trigger] es[i]).0.len() == clen && es[i].1.len() <= u32::MAX,
    ensures
        parse_blocks(blocks_bytes(es) + rest, clen, es.len()) == Some((es, blocks_bytes(es).len())),
    decreases es.len(),
{
    if es.len() > 0 {
        let tail = es.drop_first();
        assert forall|i: int| 0 <= i < tail.len() implies (#[trigger] tail[i]).0.len() == clen && tail[i].1.len() <= u32::MAX by {
            assert(tail[i] == es[i + 1]);
        }
        lemma_parse_blocks_of_bytes(tail, rest, clen);
        let x = blocks_bytes(es) + rest;
        assert(x =~= block_bytes(es[0]) + (blocks_bytes(tail) + rest));
        lemma_parse_block_of_bytes(es[0], blocks_bytes(tail) + rest, clen);
        let n = block_bytes(es[0]).len();
        assert(x.skip(n as int) =~= blocks_bytes(tail) + rest);
        assert(seq![es[0]] + tail =~= es);
    } else {
        assert(es =~= Seq::<(Seq<u16>, NextCounts)>::empty());
    }
}

/// Folding pairs with distinct tokens gives them back.
proof fn lemma_fold_pairs_id(ns: NextCounts)
    requires
        distinct_tokens(ns),
    ensures
        fold_pairs(ns) == ns,
    decreases ns.len(),
{
    if ns.len() > 0 {
        let d = ns.drop_last();
        assert forall|p: int, q: int| 0 <= p < q < d.len() implies (#[trigger] d[p]).0 != (#[trigger] d[q]).0 by {
            assert(d[p] == ns[p] && d[q] == ns[q]);
        }
        lemma_fold_pairs_id(d);
        lemma_tok_find(d, ns.last().0);
        if tok_find(d, ns.last().0) >= 0 {
            let j = tok_find(d, ns.last().0);
            assert(d[j] == ns[j]);
        }
        assert(d.push(ns.last()) =~= ns);
    }
}

/// Folding well-formed entries gives them back.
proof fn lemma_fold_blocks_id(es: Entries, clen: nat)
    requires
        entries_wf(es, clen),
    ensures
        fold_blocks(es) == es,
    decreases es.len(),
{
    if es.len() > 0 {
        let d = es.drop_last();
        assert(entries_wf(d, clen)) by {
            assert forall|p: int| 0 <= p < d.len() implies (#[trigger] d[p]).0.len() == clen && distinct_tokens(d[p].1) by {
                assert(d[p] == es[p]);
            }
            assert forall|p: int, q: int| 0 <= p < q < d.len() implies (#[trigger] d[p]).0 != (#[trigger] d[q]).0 by {
                assert(d[p] == es[p] && d[q] == es[q]);
            }
        }
        lemma_fold_blocks_id(d, clen);
        let last = es.last();
        assert(last == es[es.len() - 1]);
        lemma_fold_pairs_id(last.1);
        lemma_ctx_find(d, last.0);
        if ctx_find(d, last.0) >= 0 {
            let j = ctx_find(d, last.0);
            assert(d[j] == es[j]);
        }
        assert(d.push(last) =~= es);
    }
}

/// The tokens of pairs with distinct tokens number at most 65536.
pub proof fn lemma_distinct_tokens_len(ns: NextCounts)
    requires
        distinct_tokens(ns),
    ensures
        ns.len() <= 65536,
{
    let ts = ns.map_values(|p: (u16, u32)| p.0 as int);
    assert forall|i: int, j: int| 0 <= i < ts.len() && 0 <= j < ts.len() && i != j implies ts[i] != ts[j] by {
        if i < j {
            assert((#[trigger] ns[i]).0 != (#[trigger] ns[j]).0);
        } else {
            assert((#[trigger] ns[j]).0 != (#[trigger] ns[i]).0);
        }
    }
    assert(ts.no_duplicates());
    ts.unique_seq_to_set();
    vstd::set_lib::lemma_int_range(0, 65536);
    assert forall|x: int| ts.to_set().contains(x) implies vstd::set_lib::set_int_range(0, 65536).contains(x) by {
        assert(ts.contains(x));
        let i = choose|i: int| 0 <= i < ts.len() && ts[i] == x;
        assert(ts[i] == ns[i].0 as int);
    }
    vstd::set_lib::lemma_len_subset(ts.to_set(), vstd::set_lib::set_int_range(0, 65536));
}

/// Serializing a well-formed table and parsing the bytes back, whatever
/// follows them, gives the same order and entries, a counter equal to the
/// number of associations held, no eviction budget, and consumes exactly the
/// serialized bytes.
pub proof fn lemma_table_roundtrip(t: TableView, rest: Seq<u8>)
    requires
        table_wf(t),
        t.entries.len() <= u64::MAX,
    ensures
        parse_table(table_bytes(t) + rest) == Ok::<(TableView, nat), BrainError>(
            (
                TableView {
                    order: t.order,
                    entries: t.entries,
                    total: num_pairs(t.entries) as u64,
                    max_entries: 0,
                },
                table_bytes(t).len(),
            ),
        ),
{
    let clen = (t.order - 1) as nat;
    let es = t.entries;
    assert forall|i: int| 0 <= i < es.len() implies (#[trigger] es[i]).0.len() == clen && es[i].1.len() <= u32::MAX by {
        lemma_distinct_tokens_len(es[i].1);
    }
    lemma_parse_blocks_of_bytes(es, rest, clen);
    lemma_fold_blocks_id(es, clen);
    let hdr = spec_u64_to_le_bytes(es.len() as u64);
    lemma_u64_roundtrip(es.len() as u64);
    let x = table_bytes(t) + rest;
    assert(x =~= seq![t.order] + hdr + (blocks_bytes(es) + rest));
    assert(x.subrange(1, 9) =~= hdr);
    assert(x.skip(9) =~= blocks_bytes(es) + rest);
}

/// Whether `a` and `b` hold the same first `n` bytes.
pub open spec fn agree(a: Seq<u8>, b: Seq<u8>, n: nat) -> bool {
    &&& n <= a.len()
    &&& n <= b.len()
    &&& forall|i: int| 0 <= i < n ==> a[i] == b[i]
}

proof fn lemma_agree_subrange(a: Seq<u8>, b: Seq<u8>, n: nat, p: int, q: int)
    requires
        agree(a, b, n),
        0 <= p <= q <= n,
    ensures
        a.subrange(p, q) == b.subrange(p, q),
{
    assert(a.subrange(p, q) =~= b.subrange(p, q));
}

proof fn lemma_parse_block_prefix(d: Seq<u8>, d2: Seq<u8>, clen: nat)
    requires
        parse_block(d, clen) is Some,
        agree(d, d2, parse_block(d, clen).unwrap().1),
    ensures
        parse_block(d2, clen) == parse_block(d, clen),
        parse_block(d, clen).unwrap().1 <= d.len(),
{
    let n = parse_block(d, clen).unwrap().1;
    let p = 2 * clen as int;
    lemma_agree_subrange(d, d2, n, p, p + 4);
    let m = u32_at(d, p) as nat;
    assert(tokens_at(d2, 0, clen) =~= tokens_at(d, 0, clen)) by {
        assert forall|i: int| 0 <= i < clen implies #[trigger] tokens_at(d2, 0, clen)[i] == tokens_at(d, 0, clen)[i] by {
            lemma_agree_subrange(d, d2, n, 2 * i, 2 * i + 2);
        }
    }
    assert(pairs_at(d2, p + 4, m) =~= pairs_at(d, p + 4, m)) by {
        assert forall|i: int| 0 <= i < m implies #[trigger] pairs_at(d2, p + 4, m)[i] == pairs_at(d, p + 4, m)[i] by {
            lemma_agree_subrange(d, d2, n, p + 4 + 6 * i, p + 4 + 6 * i + 2);
            lemma_agree_subrange(d, d2, n, p + 4 + 6 * i + 2, p + 4 + 6 * i + 6);
        }
    }
}

proof fn lemma_parse_blocks_prefix(d: Seq<u8>, d2: Seq<u8>, clen: nat, k: nat)
    requires
        parse_blocks(d, clen, k) is Some,
        agree(d, d2, parse_blocks(d, clen, k).unwrap().1),
    ensures
        parse_blocks(d2, clen, k) == parse_blocks(d, clen, k),
    decreases k,
{
    if k > 0 {
        let n = parse_blocks(d, clen, k).unwrap().1;
        let (b, n1) = parse_block(d, clen).unwrap();
        assert(agree(d, d2, n1));
        lemma_parse_block_prefix(d, d2, clen);
        let r = d.skip(n1 as int);
        let r2 = d2.skip(n1 as int);
        let used = parse_blocks(r, clen, (k - 1) as nat).unwrap().1;
        assert(agree(r, r2, used)) by {
            assert forall|i: int| 0 <= i < used implies r[i] == r2[i] by {
                assert(r[i] == d[n1 + i] && r2[i] == d2[n1 + i]);
            }
        }
        lemma_parse_blocks_prefix(r, r2, clen, (k - 1) as nat);
    }
}

proof fn lemma_parse_blocks_within(d: Seq<u8>, clen: nat, k: nat)
    requires
        parse_blocks(d, clen, k) is Some,
    ensures
        parse_blocks(d, clen, k).unwrap().1 <= d.len(),
    decreases k,
{
    if k > 0 {
        let (b, n1) = parse_block(d, clen).unwrap();
        lemma_parse_blocks_within(d.skip(n1 as int), clen, (k - 1) as nat);
    }
}

/// Every strict prefix of a serialized table (the empty one included) is
/// refused as truncated.
pub proof fn lemma_table_prefix_truncated(t: TableView, k: int)
    requires
        table_wf(t),
        t.entries.len() <= u64::MAX,
        0 <= k < table_bytes(t).len(),
    ensures
        parse_table(table_bytes(t).take(k)) == Err::<(TableView, nat), BrainError>(BrainError::TruncatedData),
{
    let full = table_bytes(t);
    let p = full.take(k);
    lemma_table_roundtrip(t, Seq::empty());
    assert(full + Seq::<u8>::empty() =~= full);
    if p.len() >= 9 {
        let clen = (p[0] - 1) as nat;
        let cnt = u64_at(p, 1) as nat;
        assert(p.subrange(1, 9) =~= full.subrange(1, 9));
        assert(p[0] == full[0]);
        if parse_blocks(p.skip(9), clen, cnt) is Some {
            lemma_parse_blocks_within(p.skip(9), clen, cnt);
            let used = parse_blocks(p.skip(9), clen, cnt).unwrap().1;
            assert(agree(p.skip(9), full.skip(9), used)) by {
                assert forall|i: int| 0 <= i < used implies p.skip(9)[i] == full.skip(9)[i] by {
                    assert(p.skip(9)[i] == p[9 + i]);
                }
            }
            lemma_parse_blocks_prefix(p.skip(9), full.skip(9), clen, cnt);
        }
    }
    match parse_table(p) {
        Ok(_) => {},
        Err(e) => {
            assert(e == BrainError::TruncatedData);
        },
    }
}

/// Appending an entry appends its bytes to the serialized entries.
pub proof fn lemma_blocks_bytes_push(es: Entries, e: (Seq<u16>, NextCounts))
    ensures
        blocks_bytes(es.push(e)) == blocks_bytes(es) + block_bytes(e),
    decreases es.len(),
{
    if es.len() == 0 {
        assert(es.push(e).drop_first() =~= Seq::<(Seq<u16>, NextCounts)>::empty());
        assert(es.push(e)[0] == e);
        assert(blocks_bytes(es.push(e).drop_first()) =~= Seq::<u8>::empty());
        assert(blocks_bytes(es.push(e)) =~= block_bytes(e));
        assert(blocks_bytes(es) =~= Seq::<u8>::empty());
    } else {
        assert(es.push(e).drop_first() =~= es.drop_first().push(e));
        lemma_blocks_bytes_push(es.drop_first(), e);
        assert(es.push(e)[0] == es[0]);
        assert(blocks_bytes(es.push(e)) =~= blocks_bytes(es) + block_bytes(e));
    }
}

/// Appends the serialized context tokens.
pub fn push_tokens(buf: &mut Vec<u8>, ts: &[u16])
    ensures
        final(buf)@ == old(buf)@ + tokens_bytes(ts@),
{
    let n = ts.len();
    let mut i: usize = 0;
    assert(ts@.take(0) =~= Seq::<u16>::empty());
    assert(old(buf)@ + tokens_bytes(Seq::<u16>::empty()) =~= old(buf)@);
    while i < n
        invariant
            n == ts@.len(),
            0 <= i <= n,
            buf@ == old(buf)@ + tokens_bytes(ts@.take(i as int)),
        decreases n - i,
    {
        let ghost before = buf@;
        push_u16(buf, ts[i]);
        proof {
            assert(ts@.take(i + 1).drop_last() =~= ts@.take(i as int));
            assert(ts@.take(i + 1).last() == ts@[i as int]);
            assert(buf@ =~= old(buf)@ + tokens_bytes(ts@.take(i + 1)));
        }
        i = i + 1;
    }
    assert(ts@.take(n as int) =~= ts@);
}

/// Appends the serialized (token, count) pairs.
pub fn push_pairs(buf: &mut Vec<u8>, ns: &[(u16, u32)])
    ensures
        final(buf)@ == old(buf)@ + pairs_bytes(ns@),
{
    let n = ns.len();
    let mut i: usize = 0;
    assert(ns@.take(0) =~= Seq::<(u16, u32)>::empty());
    assert(old(buf)@ + pairs_bytes(Seq::<(u16, u32)>::empty()) =~= old(buf)@);
    while i < n
        invariant
            n == ns@.len(),
            0 <= i <= n,
            buf@ == old(buf)@ + pairs_bytes(ns@.take(i as int)),
        decreases n - i,
    {
        let (tok, c) = ns[i];
        push_u16(buf, tok);
        push_u32(buf, c);
        proof {
            assert(ns@.take(i + 1).drop_last() =~= ns@.take(i as int));
            assert(ns@.take(i + 1).last() == ns@[i as int]);
            assert(buf@ =~= old(buf)@ + pairs_bytes(ns@.take(i + 1)));
        }
        i = i + 1;
    }
    assert(ns@.take(n as int) =~= ns@);
}

/// Appends one serialized entry.
pub fn push_block(buf: &mut Vec<u8>, ctx: &[u16], ns: &[(u16, u32)])
    ensures
        final(buf)@ == old(buf)@ + block_bytes((ctx@, ns@)),
{
    push_tokens(buf, ctx);
    push_u32(buf, ns.len() as u32);
    push_pairs(buf, ns);
    assert(buf@ =~= old(buf)@ + block_bytes((ctx@, ns@)));
}

/// Reads one stored entry at byte `pos`: its context, its pairs in stored
/// order, and the bytes it takes; None when the data ends first.
pub fn read_block(data: &[u8], pos: usize, clen: usize) -> (r: Option<(Vec<u16>, Vec<(u16, u32)>, usize)>)
    requires
        pos <= data@.len(),
        clen < 256,
    ensures
        r is None ==> parse_block(data@.skip(pos as int), clen as nat) is None,
        r matches Some((c, ps, n)) ==> pos + n <= data@.len() && parse_block(data@.skip(pos as int), clen as nat)
            == Some(((c@, ps@), n as nat)),
{
    let ghost d = data@.skip(pos as int);
    let dlen = data.len();
    let rem = dlen - pos;
    if rem < 2 * clen + 4 {
        return None;
    }
    let mut ctx: Vec<u16> = Vec::new();
    let mut i: usize = 0;
    while i < clen
        invariant
            0 <= i <= clen,
            clen < 256,
            dlen == data@.len(),
            pos + 2 * clen + 4 <= data@.len(),
            d == data@.skip(pos as int),
            ctx@ == tokens_at(d, 0, i as nat),
        decreases clen - i,
    {
        let t = read_u16(data, pos + 2 * i);
        proof {
            assert(d.subrange(2 * i as int, 2 * i + 2) =~= data@.subrange(pos + 2 * i, pos + 2 * i + 2));
        }
        ctx.push(t);
        i = i + 1;
        assert(ctx@ =~= tokens_at(d, 0, i as nat));
    }
    let m = read_u32(data, pos + 2 * clen);
    proof {
        assert(d.subrange(2 * clen as int, 2 * clen + 4) =~= data@.subrange(pos + 2 * clen, pos + 2 * clen + 4));
    }
    let start = pos + 2 * clen + 4;
    if (m as u64) * 6 > (data.len() - start) as u64 {
        return None;
    }
    let mu = m as usize;
    let mut ps: Vec<(u16, u32)> = Vec::new();
    let mut j: usize = 0;
    while j < mu
        invariant
            0 <= j <= mu,
            mu == m,
            start == pos + 2 * clen + 4,
            start + 6 * mu <= data@.len(),
            dlen == data@.len(),
            d == data@.skip(pos as int),
            ps@ == pairs_at(d, 2 * clen + 4 as int, j as nat),
        decreases mu - j,
    {
        let p = start + 6 * j;
        let tok = read_u16(data, p);
        let c = read_u32(data, p + 2);
        proof {
            assert(d.subrange(2 * clen + 4 + 6 * j, 2 * clen + 4 + 6 * j + 2) =~= data@.subrange(p as int, p + 2));
            assert(d.subrange(2 * clen + 4 + 6 * j + 2, 2 * clen + 4 + 6 * j + 6) =~= data@.subrange(p + 2, p + 6));
        }
        ps.push((tok, c));
        j = j + 1;
        assert(ps@ =~= pairs_at(d, 2 * clen + 4 as int, j as nat));
    }
    Some((ctx, ps, 2 * clen + 4 + 6 * mu))
}

/// Stored pairs folded in order (see [`fold_pairs`]).
pub fn fold_pairs_exec(raw: &Vec<(u16, u32)>) -> (ns: Vec<(u16, u32)>)
    ensures
        ns@ == fold_pairs(raw@),
{
    let mut ns: Vec<(u16, u32)> = Vec::new();
    let mut j: usize = 0;
    assert(raw@.take(0) =~= Seq::<(u16, u32)>::empty());
    while j < raw.len()
        invariant
            0 <= j <= raw@.len(),
            ns@ == fold_pairs(raw@.take(j as int)),
        decreases raw@.len() - j,
    {
        proof {
            assert(raw@.take(j + 1).drop_last() =~= raw@.take(j as int));
            assert(raw@.take(j + 1).last() == raw@[j as int]);
        }
        let (tok, c) = raw[j];
        proof {
            lemma_tok_find(ns@, tok);
        }
        match super::count_table::find_token(&ns, tok) {
            Some(x) => {
                ns.set(x, (tok, c));
            },
            None => {
                ns.push((tok, c));
            },
        }
        j = j + 1;
    }
    assert(raw@.take(raw@.len() as int) =~= raw@);
    ns
}

} // verus!
