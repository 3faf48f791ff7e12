//! N-gram conditional count tables: how often each token followed each
//! context. Learning is incrementing integer counters.

use vstd::prelude::*;
use super::error::BrainError;
use super::codec::{
    blocks_bytes, fold_blocks, fold_pairs, fold_pairs_exec, lemma_blocks_bytes_push, lemma_fold_pairs,
    lemma_num_pairs_push, lemma_prepend_blocks_push, lemma_put_entry, parse_blocks, parse_table, prepend_blocks,
    push_block, put_entry, read_block, table_bytes,
};
use crate::bytes::{push_u64, read_u64, u64_at};

verus! {

/// The counts of one context: (next token, count) pairs, each token once.
pub type NextCounts = Seq<(u16, u32)>;

/// A table's contents: (context, next-token counts) entries, each context
/// once, in first-insertion order.
pub type Entries = Seq<(Seq<u16>, NextCounts)>;

/// A count table as plain values.
pub struct TableView {
    /// The n-gram order (2 = bigram, ...)
    pub order: u8,
    /// Contexts and their next-token counts
    pub entries: Entries,
    /// The association counter kept alongside the entries
    pub total: u64,
    /// Eviction budget (0 = unlimited)
    pub max_entries: u64,
}

/// Position of `ctx` among the entries (last occurrence), or -1.
pub open spec fn ctx_find(es: Entries, ctx: Seq<u16>) -> int
    decreases es.len(),
{
    if es.len() == 0 {
        -1
    } else if es.last().0 == ctx {
        es.len() - 1
    } else {
        ctx_find(es.drop_last(), ctx)
    }
}

/// Position of `tok` among a context's counts (last occurrence), or -1.
pub open spec fn tok_find(ns: NextCounts, tok: u16) -> int
    decreases ns.len(),
{
    if ns.len() == 0 {
        -1
    } else if ns.last().0 == tok {
        ns.len() - 1
    } else {
        tok_find(ns.drop_last(), tok)
    }
}

/// Number of (context, next token) pairs held.
pub open spec fn num_pairs(es: Entries) -> nat
    decreases es.len(),
{
    if es.len() == 0 {
        0
    } else {
        num_pairs(es.drop_last()) + es.last().1.len()
    }
}

/// The count of `tok` after `ctx`, if the pair is held.
pub open spec fn count_of(es: Entries, ctx: Seq<u16>, tok: u16) -> Option<u32> {
    let i = ctx_find(es, ctx);
    if i >= 0 && tok_find(es[i].1, tok) >= 0 {
        Some(es[i].1[tok_find(es[i].1, tok)].1)
    } else {
        None
    }
}

/// `c + 1`, saturating at `u32::MAX`.
pub open spec fn sat_inc(c: u32) -> u32 {
    if c == u32::MAX {
        c
    } else {
        (c + 1) as u32
    }
}

/// The counts of a context after one more observation of `tok`.
pub open spec fn bump(ns: NextCounts, tok: u16) -> NextCounts {
    let j = tok_find(ns, tok);
    if j >= 0 {
        ns.update(j, (tok, sat_inc(ns[j].1)))
    } else {
        ns.push((tok, 1))
    }
}

/// Whether recording `tok` after `ctx` creates a new association (the pair
/// is not held yet, or is held with count zero).
pub open spec fn is_new_pair(es: Entries, ctx: Seq<u16>, tok: u16) -> bool {
    match count_of(es, ctx, tok) {
        Some(c) => c == 0,
        None => true,
    }
}

/// The entries after one more observation of `tok` following `ctx`.
pub open spec fn record(es: Entries, ctx: Seq<u16>, tok: u16) -> Entries {
    let i = ctx_find(es, ctx);
    if i >= 0 {
        es.update(i, (ctx, bump(es[i].1, tok)))
    } else {
        es.push((ctx, seq![(tok, 1u32)]))
    }
}

/// The counts of a context that are at least `min`, in order.
pub open spec fn keep_counts(ns: NextCounts, min: u32) -> NextCounts
    decreases ns.len(),
{
    if ns.len() == 0 {
        seq![]
    } else if ns.last().1 >= min {
        keep_counts(ns.drop_last(), min).push(ns.last())
    } else {
        keep_counts(ns.drop_last(), min)
    }
}

/// The entries with every count below `min` removed, and every context left
/// without counts removed.
pub open spec fn prune_entries(es: Entries, min: u32) -> Entries
    decreases es.len(),
{
    if es.len() == 0 {
        seq![]
    } else {
        let kept = keep_counts(es.last().1, min);
        if kept.len() == 0 {
            prune_entries(es.drop_last(), min)
        } else {
            prune_entries(es.drop_last(), min).push((es.last().0, kept))
        }
    }
}

/// A table after pruning at `min`: the pruned entries, and the counter
/// lowered by the number of associations removed.
pub open spec fn prune_spec(t: TableView, min: u32) -> TableView {
    TableView {
        order: t.order,
        entries: prune_entries(t.entries, min),
        total: (t.total - (num_pairs(t.entries) - num_pairs(prune_entries(t.entries, min)))) as u64,
        max_entries: t.max_entries,
    }
}

/// Whether a table holds more associations than its budget allows.
pub open spec fn over_budget(t: TableView) -> bool {
    t.max_entries > 0 && t.total > t.max_entries
}

/// Eviction from threshold `th` on: while over budget and `th < 100`, prune
/// at `th` and raise it by one.
pub open spec fn evict_from(t: TableView, th: u32) -> TableView
    decreases 100 - th,
{
    if over_budget(t) && th < 100 {
        evict_from(prune_spec(t, th), (th + 1) as u32)
    } else {
        t
    }
}

/// Eviction: prune singletons, then raise the threshold while still over budget.
pub open spec fn evict_spec(t: TableView) -> TableView {
    evict_from(prune_spec(t, 2), 3)
}

/// A table right after observing `tok` following `ctx`, before any
/// eviction: the pair's count rises by one (saturating) and the counter
/// rises when the association is new.
pub open spec fn observe(t: TableView, ctx: Seq<u16>, tok: u16) -> TableView {
    TableView {
        order: t.order,
        entries: record(t.entries, ctx, tok),
        total: if is_new_pair(t.entries, ctx, tok) {
            (t.total + 1) as u64
        } else {
            t.total
        },
        max_entries: t.max_entries,
    }
}

/// A table after observing `tok` following `ctx`: the observation counted,
/// then the table evicted down when that puts it over budget.
pub open spec fn update_spec(t: TableView, ctx: Seq<u16>, tok: u16) -> TableView {
    let t1 = observe(t, ctx, tok);
    if over_budget(t1) {
        evict_spec(t1)
    } else {
        t1
    }
}

/// The counts held after `ctx` in a table: those of its entry when `ctx` has
/// the table's context length and is held, none otherwise.
pub open spec fn lookup_counts(t: TableView, ctx: Seq<u16>) -> NextCounts {
    let i = ctx_find(t.entries, ctx);
    if ctx.len() + 1 == t.order && i >= 0 {
        t.entries[i].1
    } else {
        seq![]
    }
}

/// Whether every count is zero.
pub open spec fn all_zero(ns: NextCounts) -> bool {
    forall|i: int| 0 <= i < ns.len() ==> (#[trigger] ns[i]).1 == 0
}

/// Whether the counts come in descending order.
pub open spec fn sorted_desc(ns: NextCounts) -> bool {
    forall|i: int, j: int| 0 <= i < j < ns.len() ==> (#[trigger] ns[i]).1 >= (#[trigger] ns[j]).1
}


/// The tokens of a context's counts are pairwise different.
pub open spec fn distinct_tokens(ns: NextCounts) -> bool {
    forall|i: int, j: int| 0 <= i < j < ns.len() ==> (#[trigger] ns[i]).0 != (#[trigger] ns[j]).0
}

/// Well-formed entries: contexts of length `clen`, pairwise different, each
/// with pairwise different tokens.
pub open spec fn entries_wf(es: Entries, clen: nat) -> bool {
    &&& forall|i: int| 0 <= i < es.len() ==> (#[trigger] es[i]).0.len() == clen && distinct_tokens(es[i].1)
    &&& forall|i: int, j: int| 0 <= i < j < es.len() ==> (#[trigger] es[i]).0 != (#[trigger] es[j]).0
}

/// A well-formed table: order at least two, well-formed entries, and a
/// counter no smaller than the number of associations held.
pub open spec fn table_wf(t: TableView) -> bool {
    &&& t.order >= 2
    &&& entries_wf(t.entries, (t.order - 1) as nat)
    &&& t.total >= num_pairs(t.entries)
}

/// A single n-gram count table mapping context -> {next_token -> count}.
///
/// For a bigram table (order=2), the context is a single token.
/// For a trigram table (order=3), the context is two tokens.
/// And so on up to 5-gram.
#[derive(Debug, Clone)]
pub struct CountTable {
    /// The n-gram order (2 = bigram, 3 = trigram, etc.)
    order: u8,
    /// (context, [(next_token, count)]) entries, each context once
    entries: Vec<(Vec<u16>, Vec<(u16, u32)>)>,
    /// Total number of (context, next_token) associations stored
    total_entries: u64,
    /// Maximum entries before eviction (0 = unlimited)
    max_entries: u64,
}

/// Plain view of one exec entry.
pub open spec fn entry_view(e: (Vec<u16>, Vec<(u16, u32)>)) -> (Seq<u16>, NextCounts) {
    (e.0@, e.1@)
}

/// Plain view of the exec entries.
pub open spec fn entries_view(v: Seq<(Vec<u16>, Vec<(u16, u32)>)>) -> Entries {
    v.map_values(|e: (Vec<u16>, Vec<(u16, u32)>)| entry_view(e))
}

impl View for CountTable {
    type V = TableView;

    closed spec fn view(&self) -> TableView {
        TableView {
            order: self.order,
            entries: entries_view(self.entries@),
            total: self.total_entries,
            max_entries: self.max_entries,
        }
    }
}

/// What searching the entries for a context finds: its entry, or no entry
/// with that context.
pub(crate) proof fn lemma_ctx_find(es: Entries, ctx: Seq<u16>)
    ensures
        -1 <= ctx_find(es, ctx) < es.len(),
        ctx_find(es, ctx) >= 0 ==> es[ctx_find(es, ctx)].0 == ctx,
        ctx_find(es, ctx) == -1 ==> forall|i: int| 0 <= i < es.len() ==> (#[trigger] es[i]).0 != ctx,
    decreases es.len(),
{
    if es.len() > 0 && es.last().0 != ctx {
        lemma_ctx_find(es.drop_last(), ctx);
        let d = es.drop_last();
        assert forall|i: int| 0 <= i < es.len() && ctx_find(es, ctx) == -1 implies (#[trigger] es[i]).0 != ctx by {
            if i < es.len() - 1 {
                assert(es[i] == d[i]);
            }
        }
    }
}

/// What searching the counts for a token finds: its pair, or no pair with
/// that token.
pub(crate) proof fn lemma_tok_find(ns: NextCounts, tok: u16)
    ensures
        -1 <= tok_find(ns, tok) < ns.len(),
        tok_find(ns, tok) >= 0 ==> ns[tok_find(ns, tok)].0 == tok,
        tok_find(ns, tok) == -1 ==> forall|i: int| 0 <= i < ns.len() ==> (#[trigger] ns[i]).0 != tok,
    decreases ns.len(),
{
    if ns.len() > 0 && ns.last().0 != tok {
        lemma_tok_find(ns.drop_last(), tok);
        let d = ns.drop_last();
        assert forall|i: int| 0 <= i < ns.len() && tok_find(ns, tok) == -1 implies (#[trigger] ns[i]).0 != tok by {
            if i < ns.len() - 1 {
                assert(ns[i] == d[i]);
            }
        }
    }
}

/// Number of pairs after replacing one entry.
pub(crate) proof fn lemma_num_pairs_update(es: Entries, i: int, e: (Seq<u16>, NextCounts))
    requires
        0 <= i < es.len(),
    ensures
        num_pairs(es.update(i, e)) + es[i].1.len() == num_pairs(es) + e.1.len(),
    decreases es.len(),
{
    let u = es.update(i, e);
    if i == es.len() - 1 {
        assert(u.drop_last() =~= es.drop_last());
    } else {
        lemma_num_pairs_update(es.drop_last(), i, e);
        assert(u.drop_last() =~= es.drop_last().update(i, e));
    }
}

/// Recording an observation keeps the entries well formed and adds one
/// association exactly when the pair was not held.
/// Recording keeps entries well formed and adds one pair exactly when the
/// pair was not held.
pub(crate) proof fn lemma_record_pairs(es: Entries, ctx: Seq<u16>, tok: u16, clen: nat)
    requires
        entries_wf(es, clen),
        ctx.len() == clen,
    ensures
        entries_wf(record(es, ctx, tok), clen),
        num_pairs(record(es, ctx, tok)) == num_pairs(es) + if count_of(es, ctx, tok) is None { 1nat } else { 0nat },
{
    lemma_ctx_find(es, ctx);
    let i = ctx_find(es, ctx);
    let r = record(es, ctx, tok);
    if i >= 0 {
        let ns = es[i].1;
        lemma_tok_find(ns, tok);
        let b = bump(ns, tok);
        let j = tok_find(ns, tok);
        assert(distinct_tokens(ns));
        assert(distinct_tokens(b)) by {
            assert forall|p: int, q: int| 0 <= p < q < b.len() implies (#[trigger] b[p]).0 != (#[trigger] b[q]).0 by {
                if j >= 0 {
                    assert(b[p].0 == ns[p].0 && b[q].0 == ns[q].0);
                } else if q == ns.len() {
                    assert(b[p] == ns[p]);
                } else {
                    assert(b[p] == ns[p] && b[q] == ns[q]);
                }
            }
        }
        lemma_num_pairs_update(es, i, (ctx, b));
        assert forall|p: int| 0 <= p < r.len() implies (#[trigger] r[p]).0.len() == clen && distinct_tokens(r[p].1) by {
            if p != i {
                assert(r[p] == es[p]);
            }
        }
        assert forall|p: int, q: int| 0 <= p < q < r.len() implies (#[trigger] r[p]).0 != (#[trigger] r[q]).0 by {
            assert(r[p].0 == es[p].0 && r[q].0 == es[q].0);
        }
    } else {
        assert(r.drop_last() =~= es);
        assert forall|p: int| 0 <= p < r.len() implies (#[trigger] r[p]).0.len() == clen && distinct_tokens(r[p].1) by {
            if p < es.len() {
                assert(r[p] == es[p]);
            }
        }
        assert forall|p: int, q: int| 0 <= p < q < r.len() implies (#[trigger] r[p]).0 != (#[trigger] r[q]).0 by {
            if q == es.len() {
                assert(r[p] == es[p]);
            } else {
                assert(r[p] == es[p] && r[q] == es[q]);
            }
        }
    }
}

proof fn lemma_keep_counts(ns: NextCounts, min: u32)
    requires
        distinct_tokens(ns),
    ensures
        distinct_tokens(keep_counts(ns, min)),
        keep_counts(ns, min).len() <= ns.len(),
        forall|i: int| 0 <= i < keep_counts(ns, min).len() ==> ns.contains(#[trigger] keep_counts(ns, min)[i]),
    decreases ns.len(),
{
    if ns.len() > 0 {
        let d = ns.drop_last();
        assert forall|p: int, q: int| 0 <= p < q < d.len() implies (#[trigger] d[p]).0 != (#[trigger] d[q]).0 by {
            assert(d[p] == ns[p] && d[q] == ns[q]);
        }
        lemma_keep_counts(d, min);
        let k0 = keep_counts(d, min);
        let k = keep_counts(ns, min);
        assert forall|i: int| 0 <= i < k.len() implies ns.contains(#[trigger] k[i]) by {
            if i < k0.len() {
                assert(k[i] == k0[i]);
                assert(d.contains(k0[i]));
                let m = choose|m: int| 0 <= m < d.len() && d[m] == k0[i];
                assert(ns[m] == d[m]);
            } else {
                assert(ns[ns.len() - 1] == k[i]);
            }
        }
        if ns.last().1 >= min {
            assert forall|p: int, q: int| 0 <= p < q < k.len() implies (#[trigger] k[p]).0 != (#[trigger] k[q]).0 by {
                if q == k0.len() {
                    assert(k[p] == k0[p]);
                    assert(d.contains(k0[p]));
                    let m = choose|m: int| 0 <= m < d.len() && d[m] == k0[p];
                    assert(ns[m] == d[m]);
                    assert(m < ns.len() - 1);
                } else {
                    assert(k[p] == k0[p] && k[q] == k0[q]);
                }
            }
        }
    }
}

/// Pruning keeps the entries well formed and never adds associations.
proof fn lemma_prune_entries(es: Entries, min: u32, clen: nat)
    requires
        entries_wf(es, clen),
    ensures
        entries_wf(prune_entries(es, min), clen),
        num_pairs(prune_entries(es, min)) <= num_pairs(es),
        forall|i: int| 0 <= i < prune_entries(es, min).len() ==> exists|j: int| 0 <= j < es.len() && (#[trigger] prune_entries(es, min)[i]).0 == es[j].0,
    decreases es.len(),
{
    if es.len() > 0 {
        let d = es.drop_last();
        assert(entries_wf(d, clen)) by {
            assert forall|p: int| 0 <= p < d.len() implies (#[trigger] d[p]).0.len() == clen && distinct_tokens(d[p].1) by {
                assert(d[p] == es[p]);
            }
            assert forall|p: int, q: int| 0 <= p < q < d.len() implies (#[trigger] d[p]).0 != (#[trigger] d[q]).0 by {
                assert(d[p] == es[p] && d[q] == es[q]);
            }
        }
        lemma_prune_entries(d, min, clen);
        let last = es.last();
        assert(last == es[es.len() - 1]);
        lemma_keep_counts(last.1, min);
        let pd = prune_entries(d, min);
        let pe = prune_entries(es, min);
        let kept = keep_counts(last.1, min);
        assert forall|i: int| 0 <= i < pe.len() implies exists|j: int| 0 <= j < es.len() && (#[trigger] pe[i]).0 == es[j].0 by {
            if i < pd.len() {
                assert(pe[i] == pd[i]);
                let j = choose|j: int| 0 <= j < d.len() && pd[i].0 == d[j].0;
                assert(es[j] == d[j]);
            } else {
                assert(pe[i].0 == es[es.len() - 1].0);
            }
        }
        lemma_prune_push(d, last, min);
        assert(es =~= d.push(last));
        if kept.len() > 0 {
            assert forall|p: int| 0 <= p < pe.len() implies (#[trigger] pe[p]).0.len() == clen && distinct_tokens(pe[p].1) by {
                if p < pd.len() {
                    assert(pe[p] == pd[p]);
                }
            }
            assert forall|p: int, q: int| 0 <= p < q < pe.len() implies (#[trigger] pe[p]).0 != (#[trigger] pe[q]).0 by {
                if q == pd.len() {
                    assert(pe[p] == pd[p]);
                    let j = choose|j: int| 0 <= j < d.len() && pd[p].0 == d[j].0;
                    assert(d[j] == es[j]);
                } else {
                    assert(pe[p] == pd[p] && pe[q] == pd[q]);
                }
            }
        }
    }
}

proof fn lemma_entries_view_push(v: Seq<(Vec<u16>, Vec<(u16, u32)>)>, e: (Vec<u16>, Vec<(u16, u32)>))
    ensures
        entries_view(v.push(e)) == entries_view(v).push(entry_view(e)),
{
    assert(entries_view(v.push(e)) =~= entries_view(v).push(entry_view(e)));
}

proof fn lemma_entries_view_update(v: Seq<(Vec<u16>, Vec<(u16, u32)>)>, i: int, e: (Vec<u16>, Vec<(u16, u32)>))
    requires
        0 <= i < v.len(),
    ensures
        entries_view(v.update(i, e)) == entries_view(v).update(i, entry_view(e)),
{
    assert(entries_view(v.update(i, e)) =~= entries_view(v).update(i, entry_view(e)));
}

/// Whether two token sequences are equal.
fn tokens_equal(a: &[u16], b: &[u16]) -> (r: bool)
    ensures
        r == (a@ == b@),
{
    if a.len() != b.len() {
        return false;
    }
    let n = a.len();
    let mut i: usize = 0;
    while i < n
        invariant
            n == a@.len(),
            n == b@.len(),
            0 <= i <= n,
            forall|j: int| 0 <= j < i ==> a@[j] == b@[j],
        decreases n - i,
    {
        if a[i] != b[i] {
            return false;
        }
        i = i + 1;
    }
    assert(a@ =~= b@);
    true
}

/// Position of a context among exec entries, if any.
pub fn find_context(entries: &Vec<(Vec<u16>, Vec<(u16, u32)>)>, ctx: &[u16]) -> (r: Option<usize>)
    ensures
        r matches Some(i) ==> i == ctx_find(entries_view(entries@), ctx@),
        r is None ==> ctx_find(entries_view(entries@), ctx@) == -1,
{
    let ghost ev = entries_view(entries@);
    let mut i: usize = entries.len();
    assert(ev.take(i as int) =~= ev);
    while i > 0
        invariant
            0 <= i <= entries@.len(),
            ev == entries_view(entries@),
            ctx_find(ev, ctx@) == ctx_find(ev.take(i as int), ctx@),
        decreases i,
    {
        proof {
            assert(ev.take(i as int).drop_last() =~= ev.take(i - 1));
            assert(ev.take(i as int).last() == entry_view(entries@[i - 1]));
        }
        if tokens_equal(entries[i - 1].0.as_slice(), ctx) {
            return Some(i - 1);
        }
        i = i - 1;
    }
    None
}

/// Position of a token among a context's counts, if any.
pub fn find_token(ns: &Vec<(u16, u32)>, tok: u16) -> (r: Option<usize>)
    ensures
        r matches Some(j) ==> j == tok_find(ns@, tok),
        r is None ==> tok_find(ns@, tok) == -1,
{
    let mut j: usize = ns.len();
    assert(ns@.take(j as int) =~= ns@);
    while j > 0
        invariant
            0 <= j <= ns@.len(),
            tok_find(ns@, tok) == tok_find(ns@.take(j as int), tok),
        decreases j,
    {
        proof {
            assert(ns@.take(j as int).drop_last() =~= ns@.take(j - 1));
        }
        if ns[j - 1].0 == tok {
            return Some(j - 1);
        }
        j = j - 1;
    }
    None
}

/// The counts of a context that are at least `min`, in order.
fn keep_counts_exec(ns: &Vec<(u16, u32)>, min: u32) -> (kept: Vec<(u16, u32)>)
    ensures
        kept@ == keep_counts(ns@, min),
{
    let mut kept: Vec<(u16, u32)> = Vec::new();
    let mut j: usize = 0;
    while j < ns.len()
        invariant
            0 <= j <= ns@.len(),
            kept@ == keep_counts(ns@.take(j as int), min),
        decreases ns@.len() - j,
    {
        proof {
            assert(ns@.take(j + 1).drop_last() =~= ns@.take(j as int));
            assert(ns@.take(j + 1).last() == ns@[j as int]);
        }
        if ns[j].1 >= min {
            kept.push(ns[j]);
        }
        j = j + 1;
    }
    assert(ns@.take(ns@.len() as int) =~= ns@);
    kept
}

impl CountTable {
    /// Whether the table is well formed (see [`table_wf`]).
    pub open spec fn wf(&self) -> bool {
        table_wf(self@)
    }

    /// Create a new count table for the given n-gram order.
    ///
    /// `order` must be >= 2 (bigram minimum).
    /// `max_entries` limits memory usage (0 = unlimited).
    pub fn new(order: u8, max_entries: u64) -> (t: Self)
        requires
            order >= 2,
        ensures
            t.wf(),
            t@ == (TableView { order, entries: Seq::empty(), total: 0, max_entries }),
    {
        let t = CountTable { order, entries: Vec::new(), total_entries: 0, max_entries };
        assert(entries_view(t.entries@) =~= Seq::<(Seq<u16>, NextCounts)>::empty());
        t
    }

    /// The n-gram order of this table.
    pub fn order(&self) -> (o: u8)
        ensures
            o == self@.order,
    {
        self.order
    }

    /// Context length = order - 1 (number of preceding tokens needed).
    pub fn context_len(&self) -> (n: usize)
        requires
            self.wf(),
        ensures
            n == self@.order - 1,
    {
        (self.order - 1) as usize
    }

    /// Total number of unique (context, next_token) associations.
    pub fn total_entries(&self) -> (n: u64)
        ensures
            n == self@.total,
    {
        self.total_entries
    }

    /// Number of unique contexts stored.
    pub fn num_contexts(&self) -> (n: usize)
        ensures
            n == self@.entries.len(),
    {
        self.entries.len()
    }

    /// Prune all associations with count below `min_count`.
    pub fn prune(&mut self, min_count: u32)
        requires
            old(self).wf(),
        ensures
            final(self).wf(),
            final(self)@ == prune_spec(old(self)@, min_count),
    {
        let ghost es = self@.entries;
        let ghost clen = (self.order - 1) as nat;
        proof {
            lemma_prune_entries(es, min_count, clen);
        }
        let mut kept_entries: Vec<(Vec<u16>, Vec<(u16, u32)>)> = Vec::new();
        let mut removed: u64 = 0;
        let n = self.entries.len();
        let mut i: usize = 0;
        while i < n
            invariant
                n == self.entries@.len(),
                es == entries_view(self.entries@),
                table_wf(self@),
                0 <= i <= n,
                entries_view(kept_entries@) == prune_entries(es.take(i as int), min_count),
                removed as nat + num_pairs(prune_entries(es.take(i as int), min_count)) == num_pairs(es.take(i as int)),
                num_pairs(es.take(i as int)) <= num_pairs(es),
            decreases n - i,
        {
            let ghost pre = es.take(i as int);
            let ghost post = es.take(i + 1);
            proof {
                assert(post =~= pre.push(es[i as int]));
                assert(es[i as int] == entry_view(self.entries@[i as int]));
                lemma_keep_counts_len(es[i as int].1, min_count);
                lemma_prune_push(pre, es[i as int], min_count);
                lemma_num_pairs_take(es, (i + 1) as int);
            }
            let kept = keep_counts_exec(&self.entries[i].1, min_count);
            let dropped = (self.entries[i].1.len() - kept.len()) as u64;
            removed = removed + dropped;
            if kept.len() > 0 {
                let ctx = vstd::slice::slice_to_vec(self.entries[i].0.as_slice());
                let ghost before = kept_entries@;
                kept_entries.push((ctx, kept));
                proof {
                    lemma_entries_view_push(before, (ctx, kept));
                }
            }
            i = i + 1;
        }
        proof {
            assert(es.take(n as int) =~= es);
        }
        self.entries = kept_entries;
        self.total_entries = self.total_entries - removed;
    }

    /// Evict the lowest-count entries to stay within budget.
    fn evict_lowest(&mut self)
        requires
            old(self).wf(),
        ensures
            final(self).wf(),
            final(self)@ == evict_spec(old(self)@),
    {
        self.prune(2);
        let mut threshold: u32 = 3;
        while self.max_entries > 0 && self.total_entries > self.max_entries && threshold < 100
            invariant
                self.wf(),
                3 <= threshold <= 100,
                evict_spec(old(self)@) == evict_from(self@, threshold),
            decreases 100 - threshold,
        {
            self.prune(threshold);
            threshold = threshold + 1;
        }
    }

    /// Record an observation: `next_token` followed `context`.
    ///
    /// `context` must have exactly `self.context_len()` elements.
    pub fn update(&mut self, context: &[u16], next_token: u16)
        requires
            old(self).wf(),
            context@.len() == old(self)@.order - 1,
            old(self)@.total < u64::MAX,
        ensures
            final(self).wf(),
            final(self)@ == update_spec(old(self)@, context@, next_token),
    {
        let ghost es = self@.entries;
        let ghost clen = (self.order - 1) as nat;
        proof {
            lemma_record_pairs(es, context@, next_token, clen);
            lemma_ctx_find(es, context@);
        }
        match find_context(&self.entries, context) {
            Some(i) => {
                let (ctx, mut ns) = self.entries.remove(i);
                let ghost removed_view = self.entries@;
                proof {
                    assert(es[i as int] == entry_view((ctx, ns)));
                    lemma_tok_find(ns@, next_token);
                }
                match find_token(&ns, next_token) {
                    Some(j) => {
                        let c = ns[j].1;
                        if c == 0 {
                            self.total_entries = self.total_entries + 1;
                        }
                        ns.set(j, (next_token, c.saturating_add(1)));
                    },
                    None => {
                        self.total_entries = self.total_entries + 1;
                        ns.push((next_token, 1));
                    },
                }
                let ghost nsv = ns@;
                self.entries.insert(i, (ctx, ns));
                proof {
                    assert(self.entries@ =~= old(self).entries@.update(i as int, (ctx, ns)));
                    lemma_entries_view_update(old(self).entries@, i as int, (ctx, ns));
                    assert(nsv == bump(es[i as int].1, next_token));
                }
            },
            None => {
                self.total_entries = self.total_entries + 1;
                let ctx = vstd::slice::slice_to_vec(context);
                let mut ns: Vec<(u16, u32)> = Vec::new();
                ns.push((next_token, 1));
                let ghost before = self.entries@;
                self.entries.push((ctx, ns));
                proof {
                    lemma_entries_view_push(before, (ctx, ns));
                    assert(ns@ =~= seq![(next_token, 1u32)]);
                }
            },
        }
        if self.max_entries > 0 && self.total_entries > self.max_entries {
            self.evict_lowest();
        }
    }
}

/// Puts `ns` under context `ctx` among exec entries (see [`put_entry`]).
fn put_entry_exec(entries: &mut Vec<(Vec<u16>, Vec<(u16, u32)>)>, ctx: Vec<u16>, ns: Vec<(u16, u32)>)
    ensures
        entries_view(final(entries)@) == put_entry(entries_view(old(entries)@), ctx@, ns@),
{
    proof {
        lemma_ctx_find(entries_view(entries@), ctx@);
    }
    match find_context(entries, ctx.as_slice()) {
        Some(i) => {
            let ghost before = entries@;
            let ghost e = (ctx, ns);
            entries.set(i, (ctx, ns));
            proof {
                lemma_entries_view_update(before, i as int, e);
            }
        },
        None => {
            let ghost before = entries@;
            let ghost e = (ctx, ns);
            entries.push((ctx, ns));
            proof {
                lemma_entries_view_push(before, e);
            }
        },
    }
}

impl CountTable {
    /// Serialize this count table to bytes.
    pub fn to_bytes(&self) -> (buf: Vec<u8>)
        ensures
            buf@ == table_bytes(self@),
    {
        let mut buf: Vec<u8> = Vec::new();
        buf.push(self.order);
        let n = self.entries.len();
        push_u64(&mut buf, n as u64);
        let ghost es = self@.entries;
        let ghost head = buf@;
        let mut i: usize = 0;
        assert(es.take(0) =~= Seq::<(Seq<u16>, NextCounts)>::empty());
        assert(head + blocks_bytes(es.take(0)) =~= head);
        while i < n
            invariant
                n == self.entries@.len(),
                es == entries_view(self.entries@),
                0 <= i <= n,
                head == seq![self.order] + vstd::bytes::spec_u64_to_le_bytes(n as u64),
                buf@ == head + blocks_bytes(es.take(i as int)),
            decreases n - i,
        {
            push_block(&mut buf, self.entries[i].0.as_slice(), self.entries[i].1.as_slice());
            proof {
                assert(es[i as int] == entry_view(self.entries@[i as int]));
                lemma_blocks_bytes_push(es.take(i as int), es[i as int]);
                assert(es.take(i + 1) =~= es.take(i as int).push(es[i as int]));
                assert(buf@ =~= head + blocks_bytes(es.take(i + 1)));
            }
            i = i + 1;
        }
        assert(es.take(n as int) =~= es);
        buf
    }

    /// Deserialize a count table from bytes; on success also returns the
    /// number of bytes consumed. The table read has no eviction budget, and
    /// its counter is the number of (token, count) pairs read.
    ///
    /// The first byte is the order; an order below 2 is not accepted where the
    /// data holds the 9 bytes of order and context count.
    pub fn from_bytes(data: &[u8]) -> (r: Result<(Self, usize), BrainError>)
        requires
            data@.len() >= 9 ==> data@[0] >= 2,
        ensures
            match r {
                Ok((t, used)) => t.wf() && parse_table(data@) == Ok::<(TableView, nat), BrainError>((t@, used as nat)),
                Err(e) => parse_table(data@) == Err::<(TableView, nat), BrainError>(e),
            },
    {
        let dlen = data.len();
        if dlen < 9 {
            return Err(BrainError::TruncatedData);
        }
        let order = data[0];
        let num_contexts = read_u64(data, 1);
        let clen = (order - 1) as usize;
        let mut table = CountTable::new(order, 0);
        let ghost d9 = data@.skip(9);
        let ghost mut bs: Entries = Seq::empty();
        let mut pos: usize = 9;
        let mut k: u64 = 0;
        assert(fold_blocks(bs) =~= Seq::<(Seq<u16>, NextCounts)>::empty());
        proof {
            match parse_blocks(d9, clen as nat, num_contexts as nat) {
                Some((rest, m)) => {
                    assert(bs + rest =~= rest);
                },
                None => {},
            }
        }
        while k < num_contexts
            invariant
                dlen == data@.len(),
                9 <= pos <= dlen,
                0 <= k <= num_contexts,
                order == data@[0],
                order >= 2,
                clen == order - 1,
                num_contexts == u64_at(data@, 1),
                d9 == data@.skip(9),
                parse_blocks(d9, clen as nat, num_contexts as nat) == prepend_blocks(
                    bs,
                    (pos - 9) as nat,
                    parse_blocks(data@.skip(pos as int), clen as nat, (num_contexts - k) as nat),
                ),
                table.wf(),
                table@ == (TableView { order, entries: fold_blocks(bs), total: num_pairs(bs) as u64, max_entries: 0 }),
                num_pairs(bs) <= pos,
            decreases num_contexts - k,
        {
            match read_block(data, pos, clen) {
                None => {
                    return Err(BrainError::TruncatedData);
                },
                Some((ctx, raw, n)) => {
                    let ghost b = (ctx@, raw@);
                    let ghost old_bs = bs;
                    proof {
                        lemma_fold_pairs(raw@);
                        lemma_put_entry(fold_blocks(bs), ctx@, fold_pairs(raw@), clen as nat);
                        lemma_num_pairs_push(bs, b);
                        lemma_prepend_blocks_push(
                            bs,
                            b,
                            (pos - 9) as nat,
                            n as nat,
                            parse_blocks(data@.skip(pos + n), clen as nat, (num_contexts - k - 1) as nat),
                        );
                        assert(data@.skip(pos as int).skip(n as int) =~= data@.skip(pos + n));
                        bs = bs.push(b);
                        assert(bs.drop_last() =~= old_bs);
                    }
                    let ns = fold_pairs_exec(&raw);
                    self::put_entry_exec(&mut table.entries, ctx, ns);
                    table.total_entries = table.total_entries + raw.len() as u64;
                    pos = pos + n;
                    k = k + 1;
                },
            }
        }
        proof {
            assert(bs + Seq::<(Seq<u16>, NextCounts)>::empty() =~= bs);
        }
        Ok((table, pos))
    }
}

/// `ns` with its pairs reordered by count, highest first (pairs of equal
/// count keep their order).
fn sort_by_count_desc(ns: &Vec<(u16, u32)>) -> (out: Vec<(u16, u32)>)
    ensures
        out@.len() == ns@.len(),
        forall|x: (u16, u32)| out@.contains(x) <==> ns@.contains(x),
        sorted_desc(out@),
{
    let mut out: Vec<(u16, u32)> = Vec::new();
    let n = ns.len();
    let mut j: usize = 0;
    while j < n
        invariant
            n == ns@.len(),
            0 <= j <= n,
            out@.len() == j,
            sorted_desc(out@),
            forall|k: int| 0 <= k < j ==> out@.contains(#[trigger] ns@[k]),
            forall|i: int| 0 <= i < out@.len() ==> exists|k: int| 0 <= k < j && (#[trigger] out@[i]) == ns@[k],
        decreases n - j,
    {
        let x = ns[j];
        let mut p: usize = 0;
        while p < out.len() && out[p].1 >= x.1
            invariant
                0 <= p <= out@.len(),
                forall|i: int| 0 <= i < p ==> (#[trigger] out@[i]).1 >= x.1,
            decreases out@.len() - p,
        {
            p = p + 1;
        }
        let ghost before = out@;
        proof {
            before.insert_ensures(p as int, x);
        }
        out.insert(p, x);
        proof {
            assert(forall|i: int| p <= i < before.len() ==> out@[i + 1] == before[i]);
            assert forall|a: int, b: int| 0 <= a < b < out@.len() implies (#[trigger] out@[a]).1 >= (#[trigger] out@[b]).1 by {
                if b < p {
                    assert(out@[a] == before[a] && out@[b] == before[b]);
                } else if b == p {
                    assert(out@[a] == before[a]);
                } else if a == p {
                    assert(out@[b] == before[b - 1]);
                    assert(before[p as int].1 < x.1);
                    if b - 1 > p {
                        assert(before[p as int].1 >= before[b - 1].1);
                    }
                } else if a < p {
                    assert(out@[a] == before[a] && out@[b] == before[b - 1]);
                } else {
                    assert(out@[a] == before[a - 1] && out@[b] == before[b - 1]);
                }
            }
            assert forall|k: int| 0 <= k < j + 1 implies out@.contains(#[trigger] ns@[k]) by {
                if k == j {
                    assert(out@[p as int] == ns@[k]);
                } else {
                    assert(before.contains(ns@[k]));
                    let i = choose|i: int| 0 <= i < before.len() && before[i] == ns@[k];
                    if i < p {
                        assert(out@[i] == before[i]);
                    } else {
                        assert(out@[i + 1] == before[i]);
                    }
                }
            }
            assert forall|i: int| 0 <= i < out@.len() implies exists|k: int| 0 <= k < j + 1 && (#[trigger] out@[i]) == ns@[k] by {
                if i < p {
                    assert(out@[i] == before[i]);
                    assert(exists|k: int| 0 <= k < j && before[i] == ns@[k]);
                } else if i == p {
                    assert(out@[i] == ns@[j as int]);
                } else {
                    assert(out@[i] == before[i - 1]);
                    assert(exists|k: int| 0 <= k < j && before[i - 1] == ns@[k]);
                }
            }
        }
        j = j + 1;
    }
    proof {
        assert forall|x: (u16, u32)| out@.contains(x) <==> ns@.contains(x) by {
            if out@.contains(x) {
                let i = choose|i: int| 0 <= i < out@.len() && out@[i] == x;
                assert(exists|k: int| 0 <= k < n && out@[i] == ns@[k]);
            }
            if ns@.contains(x) {
                let k = choose|k: int| 0 <= k < ns@.len() && ns@[k] == x;
                assert(out@.contains(ns@[k]));
            }
        }
    }
    out
}

impl CountTable {
    /// The (next token, count) pairs observed after `context`, highest count
    /// first; none when the context does not have the table's context
    /// length, is not held, or all its counts are zero. Each count divided by
    /// their sum is the next token's probability.
    pub fn ranked_counts(&self, context: &[u16]) -> (r: Vec<(u16, u32)>)
        requires
            self.wf(),
        ensures
            all_zero(lookup_counts(self@, context@)) ==> r@.len() == 0,
            !all_zero(lookup_counts(self@, context@)) ==> {
                &&& r@.len() == lookup_counts(self@, context@).len()
                &&& forall|x: (u16, u32)| r@.contains(x) <==> lookup_counts(self@, context@).contains(x)
                &&& sorted_desc(r@)
            },
    {
        if context.len() != self.context_len() {
            return Vec::new();
        }
        proof {
            lemma_ctx_find(self@.entries, context@);
        }
        match find_context(&self.entries, context) {
            None => Vec::new(),
            Some(i) => {
                let ns = &self.entries[i].1;
                assert(ns@ == lookup_counts(self@, context@));
                let mut j: usize = 0;
                while j < ns.len()
                    invariant
                        0 <= j <= ns@.len(),
                        ns@ == lookup_counts(self@, context@),
                        forall|k: int| 0 <= k < j ==> (#[trigger] ns@[k]).1 == 0,
                    decreases ns@.len() - j,
                {
                    if ns[j].1 != 0 {
                        assert(!all_zero(ns@));
                        return sort_by_count_desc(ns);
                    }
                    j = j + 1;
                }
                Vec::new()
            },
        }
    }
}

/// Pruning keeps a table well formed, its order and budget, and never raises
/// its counter.
pub proof fn lemma_prune_spec(t: TableView, min: u32)
    requires
        table_wf(t),
    ensures
        table_wf(prune_spec(t, min)),
        prune_spec(t, min).total <= t.total,
        prune_spec(t, min).order == t.order,
        prune_spec(t, min).max_entries == t.max_entries,
{
    lemma_prune_entries(t.entries, min, (t.order - 1) as nat);
}

/// Eviction keeps a table well formed, its order and budget, and never
/// raises its counter.
pub proof fn lemma_evict_from(t: TableView, th: u32)
    requires
        table_wf(t),
    ensures
        table_wf(evict_from(t, th)),
        evict_from(t, th).total <= t.total,
        evict_from(t, th).order == t.order,
        evict_from(t, th).max_entries == t.max_entries,
    decreases 100 - th,
{
    if over_budget(t) && th < 100 {
        lemma_prune_spec(t, th);
        lemma_evict_from(prune_spec(t, th), (th + 1) as u32);
    }
}

/// One observation keeps a table well formed, its order and budget, and
/// raises its counter by at most one.
pub proof fn lemma_update_spec(t: TableView, ctx: Seq<u16>, tok: u16)
    requires
        table_wf(t),
        ctx.len() + 1 == t.order,
        t.total < u64::MAX,
    ensures
        table_wf(update_spec(t, ctx, tok)),
        update_spec(t, ctx, tok).total <= t.total + 1,
        update_spec(t, ctx, tok).order == t.order,
        update_spec(t, ctx, tok).max_entries == t.max_entries,
{
    lemma_record_pairs(t.entries, ctx, tok, (t.order - 1) as nat);
    let t1 = observe(t, ctx, tok);
    assert(table_wf(t1));
    if over_budget(t1) {
        lemma_prune_spec(t1, 2);
        lemma_evict_from(prune_spec(t1, 2), 3);
    }
}

/// The count held for `tok` in a context's counts (its last occurrence).
pub open spec fn tok_count(ns: NextCounts, tok: u16) -> Option<u32> {
    if tok_find(ns, tok) >= 0 {
        Some(ns[tok_find(ns, tok)].1)
    } else {
        None
    }
}

/// A count kept by pruning at `min`: itself when at least `min`, none otherwise.
pub open spec fn kept_count(c: Option<u32>, min: u32) -> Option<u32> {
    match c {
        Some(x) => if x >= min {
            Some(x)
        } else {
            None
        },
        None => None,
    }
}

/// Finding a context only looks at the contexts.
proof fn lemma_ctx_find_same_contexts(a: Entries, b: Entries, ctx: Seq<u16>)
    requires
        a.len() == b.len(),
        forall|j: int| 0 <= j < a.len() ==> (#[trigger] a[j]).0 == b[j].0,
    ensures
        ctx_find(a, ctx) == ctx_find(b, ctx),
    decreases a.len(),
{
    if a.len() > 0 {
        assert(a.last().0 == b.last().0);
        let (da, db) = (a.drop_last(), b.drop_last());
        assert forall|j: int| 0 <= j < da.len() implies (#[trigger] da[j]).0 == db[j].0 by {
            assert(da[j] == a[j] && db[j] == b[j]);
        }
        lemma_ctx_find_same_contexts(da, db, ctx);
    }
}

/// Finding a token only looks at the tokens.
proof fn lemma_tok_find_same_tokens(a: NextCounts, b: NextCounts, tok: u16)
    requires
        a.len() == b.len(),
        forall|j: int| 0 <= j < a.len() ==> (#[trigger] a[j]).0 == b[j].0,
    ensures
        tok_find(a, tok) == tok_find(b, tok),
    decreases a.len(),
{
    if a.len() > 0 {
        assert(a.last().0 == b.last().0);
        let (da, db) = (a.drop_last(), b.drop_last());
        assert forall|j: int| 0 <= j < da.len() implies (#[trigger] da[j]).0 == db[j].0 by {
            assert(da[j] == a[j] && db[j] == b[j]);
        }
        lemma_tok_find_same_tokens(da, db, tok);
    }
}

/// Recording an observation of `tok` after `ctx` raises that pair's count by
/// one (saturating at `u32::MAX`; to 1 when the pair was not held) and leaves
/// the count of every other pair as it was.
pub proof fn lemma_record_counts(es: Entries, ctx: Seq<u16>, tok: u16, ctx2: Seq<u16>, tok2: u16)
    ensures
        count_of(record(es, ctx, tok), ctx, tok) == Some(
            match count_of(es, ctx, tok) {
                Some(c) => sat_inc(c),
                None => 1u32,
            },
        ),
        (ctx2 != ctx || tok2 != tok) ==> count_of(record(es, ctx, tok), ctx2, tok2) == count_of(es, ctx2, tok2),
{
    lemma_ctx_find(es, ctx);
    lemma_ctx_find(es, ctx2);
    let i = ctx_find(es, ctx);
    let r = record(es, ctx, tok);
    if i >= 0 {
        let ns = es[i].1;
        let b = bump(ns, tok);
        lemma_tok_find(ns, tok);
        lemma_tok_find(ns, tok2);
        let j = tok_find(ns, tok);
        lemma_ctx_find_same_contexts(r, es, ctx);
        lemma_ctx_find_same_contexts(r, es, ctx2);
        if j >= 0 {
            lemma_tok_find_same_tokens(b, ns, tok);
            lemma_tok_find_same_tokens(b, ns, tok2);
        } else {
            assert(b.drop_last() =~= ns);
        }
        if ctx2 == ctx && tok2 != tok {
            assert(tok_find(b, tok2) == tok_find(ns, tok2));
        }
    } else {
        assert(r.drop_last() =~= es);
        let k = seq![(tok, 1u32)];
        assert(k.drop_last() =~= Seq::<(u16, u32)>::empty());
        if ctx2 == ctx {
            assert(tok_find(k, tok2) == if tok2 == tok { 0int } else { tok_find(k.drop_last(), tok2) });
        }
    }
}

/// Observing `tok` after `ctx` when that does not put the table over its
/// budget (so nothing is evicted) raises that pair's count by one
/// (saturating; to 1 when the pair was not held) and leaves every other
/// pair's count as it was.
pub proof fn lemma_update_counts(t: TableView, ctx: Seq<u16>, tok: u16, ctx2: Seq<u16>, tok2: u16)
    requires
        !over_budget(observe(t, ctx, tok)),
    ensures
        count_of(update_spec(t, ctx, tok).entries, ctx, tok) == Some(
            match count_of(t.entries, ctx, tok) {
                Some(c) => sat_inc(c),
                None => 1u32,
            },
        ),
        (ctx2 != ctx || tok2 != tok) ==> count_of(update_spec(t, ctx, tok).entries, ctx2, tok2) == count_of(
            t.entries,
            ctx2,
            tok2,
        ),
{
    lemma_record_counts(t.entries, ctx, tok, ctx2, tok2);
}

/// Keeping the counts of at least `min` keeps exactly those counts, when the
/// tokens are distinct.
proof fn lemma_keep_counts_tok(ns: NextCounts, min: u32, tok: u16)
    requires
        distinct_tokens(ns),
    ensures
        tok_count(keep_counts(ns, min), tok) == kept_count(tok_count(ns, tok), min),
    decreases ns.len(),
{
    if ns.len() > 0 {
        let d = ns.drop_last();
        assert forall|p: int, q: int| 0 <= p < q < d.len() implies (#[trigger] d[p]).0 != (#[trigger] d[q]).0 by {
            assert(d[p] == ns[p] && d[q] == ns[q]);
        }
        lemma_keep_counts_tok(d, min, tok);
        let kd = keep_counts(d, min);
        let last = ns.last();
        assert(last == ns[ns.len() - 1]);
        lemma_tok_find(d, tok);
        lemma_tok_find(kd, tok);
        if tok_find(d, tok) >= 0 {
            assert(ns[tok_find(d, tok)] == d[tok_find(d, tok)]);
        }
        if last.1 >= min {
            assert(keep_counts(ns, min).drop_last() =~= kd);
            if tok_find(kd, tok) >= 0 {
                assert(kd.push(last)[tok_find(kd, tok)] == kd[tok_find(kd, tok)]);
            }
        }
        if last.0 == tok {
            if tok_find(d, tok) >= 0 {
                let q = tok_find(d, tok);
                assert(ns[q].0 != ns[ns.len() - 1].0);
            }
        }
    }
}

/// Pruning at `min` keeps exactly the pairs whose count is at least `min`,
/// each with its count.
pub proof fn lemma_prune_counts(es: Entries, min: u32, clen: nat, ctx: Seq<u16>, tok: u16)
    requires
        entries_wf(es, clen),
    ensures
        count_of(prune_entries(es, min), ctx, tok) == kept_count(count_of(es, ctx, tok), min),
    decreases es.len(),
{
    if es.len() > 0 {
        let d = es.drop_last();
        assert(entries_wf(d, clen)) by {
            assert forall|p: int| 0 <= p < d.len() implies (#[trigger] d[p]).0.len() == clen && distinct_tokens(d[p].1) by {
                assert(d[p] == es[p]);
            }
            assert forall|p: int, q: int| 0 <= p < q < d.len() implies (#[trigger] d[p]).0 != (#[trigger] d[q]).0 by {
                assert(d[p] == es[p] && d[q] == es[q]);
            }
        }
        lemma_prune_counts(d, min, clen, ctx, tok);
        let last = es.last();
        assert(last == es[es.len() - 1]);
        let pd = prune_entries(d, min);
        let pe = prune_entries(es, min);
        let kept = keep_counts(last.1, min);
        lemma_prune_push(d, last, min);
        assert(es =~= d.push(last));
        lemma_prune_entries(d, min, clen);
        lemma_ctx_find(pd, ctx);
        lemma_ctx_find(d, ctx);
        lemma_ctx_find(es, ctx);
        if ctx_find(d, ctx) >= 0 {
            let q = ctx_find(d, ctx);
            assert(es[q] == d[q]);
        }
        if kept.len() > 0 {
            assert(pe.drop_last() =~= pd);
            if ctx_find(pd, ctx) >= 0 {
                let q = ctx_find(pd, ctx);
                assert(pe[q] == pd[q]);
            }
        }
        if last.0 == ctx {
            lemma_keep_counts_tok(last.1, min, tok);
            if ctx_find(d, ctx) >= 0 {
                let q = ctx_find(d, ctx);
                assert(es[q].0 != es[es.len() - 1].0);
            }
            if ctx_find(pd, ctx) >= 0 {
                let q = ctx_find(pd, ctx);
                let j = choose|j: int| 0 <= j < d.len() && pd[q].0 == d[j].0;
                assert(d[j] == es[j]);
                assert(es[j].0 != es[es.len() - 1].0);
            }
            if kept.len() == 0 {
                assert(tok_count(kept, tok) is None);
            } else {
                assert(pe[pe.len() - 1] == (last.0, kept));
            }
        }
    }
}

proof fn lemma_keep_counts_len(ns: NextCounts, min: u32)
    ensures
        keep_counts(ns, min).len() <= ns.len(),
    decreases ns.len(),
{
    if ns.len() > 0 {
        lemma_keep_counts_len(ns.drop_last(), min);
    }
}

/// Pruning entries with one more entry at the end.
proof fn lemma_prune_push(pre: Entries, e: (Seq<u16>, NextCounts), min: u32)
    ensures
        num_pairs(pre.push(e)) == num_pairs(pre) + e.1.len(),
        keep_counts(e.1, min).len() == 0 ==> prune_entries(pre.push(e), min) == prune_entries(pre, min),
        keep_counts(e.1, min).len() > 0 ==> prune_entries(pre.push(e), min) == prune_entries(pre, min).push((e.0, keep_counts(e.1, min))),
        num_pairs(prune_entries(pre, min).push((e.0, keep_counts(e.1, min)))) == num_pairs(prune_entries(pre, min)) + keep_counts(e.1, min).len(),
{
    assert(pre.push(e).drop_last() =~= pre);
    assert(prune_entries(pre, min).push((e.0, keep_counts(e.1, min))).drop_last() =~= prune_entries(pre, min));
}

proof fn lemma_num_pairs_take(es: Entries, i: int)
    requires
        0 <= i <= es.len(),
    ensures
        num_pairs(es.take(i)) <= num_pairs(es),
    decreases es.len() - i,
{
    if i < es.len() {
        assert(es.take(i + 1).drop_last() =~= es.take(i));
        lemma_num_pairs_take(es, i + 1);
    } else {
        assert(es.take(i) =~= es);
    }
}

} // verus!
