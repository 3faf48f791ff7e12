//! Laws of count tables built by creation, updates and pruning: the counter
//! is the number of associations held, every count is positive, pruning is
//! idempotent, and eviction brings a table within its budget.

use vstd::prelude::*;
use super::codec::{lemma_table_roundtrip, parse_table, table_bytes};
use super::error::BrainError;
use super::ngram::{feed, restored, train_table};
use super::count_table::{
    count_of, ctx_find, evict_from, keep_counts, lemma_ctx_find, lemma_tok_find, lemma_update_counts,
    lemma_update_spec, num_pairs, observe, over_budget, prune_entries, prune_spec, record, sat_inc, table_wf,
    tok_find, update_spec, Entries, NextCounts, TableView,
};

verus! {

/// Every count of a context's counts is at least `m`.
pub open spec fn counts_at_least(ns: NextCounts, m: u32) -> bool {
    forall|j: int| 0 <= j < ns.len() ==> (#[trigger] ns[j]).1 >= m
}

/// Every context holds at least one count, and every count is at least `m`.
pub open spec fn entries_at_least(es: Entries, m: u32) -> bool {
    forall|i: int| 0 <= i < es.len() ==> (#[trigger] es[i]).1.len() > 0 && counts_at_least(es[i].1, m)
}

/// A table as creation, updates and pruning leave it: well formed, its
/// counter the number of associations held, no context without counts, and
/// every count positive.
pub open spec fn exact_table(t: TableView) -> bool {
    &&& table_wf(t)
    &&& t.total == num_pairs(t.entries)
    &&& entries_at_least(t.entries, 1)
}

proof fn lemma_keep_counts_at_least(ns: NextCounts, m: u32, k: u32)
    ensures
        counts_at_least(keep_counts(ns, m), m),
        counts_at_least(ns, k) ==> counts_at_least(keep_counts(ns, m), k),
        counts_at_least(ns, m) ==> keep_counts(ns, m) == ns,
    decreases ns.len(),
{
    if ns.len() > 0 {
        let d = ns.drop_last();
        lemma_keep_counts_at_least(d, m, k);
        assert(counts_at_least(ns, k) ==> counts_at_least(d, k)) by {
            if counts_at_least(ns, k) {
                assert forall|j: int| 0 <= j < d.len() implies (#[trigger] d[j]).1 >= k by {
                    assert(d[j] == ns[j]);
                }
            }
        }
        assert(counts_at_least(ns, m) ==> counts_at_least(d, m)) by {
            if counts_at_least(ns, m) {
                assert forall|j: int| 0 <= j < d.len() implies (#[trigger] d[j]).1 >= m by {
                    assert(d[j] == ns[j]);
                }
            }
        }
        assert(ns.last() == ns[ns.len() - 1]);
        let kd = keep_counts(d, m);
        if ns.last().1 >= m {
            let kn = kd.push(ns.last());
            assert forall|j: int| 0 <= j < kn.len() implies (#[trigger] kn[j]).1 >= m by {
                if j < kd.len() {
                    assert(kn[j] == kd[j]);
                }
            }
            if counts_at_least(ns, k) {
                assert forall|j: int| 0 <= j < kn.len() implies (#[trigger] kn[j]).1 >= k by {
                    if j < kd.len() {
                        assert(kn[j] == kd[j]);
                    }
                }
            }
            if counts_at_least(ns, m) {
                assert(kn =~= ns);
            }
        }
    }
}

proof fn lemma_prune_entries_at_least(es: Entries, m: u32, k: u32)
    ensures
        entries_at_least(prune_entries(es, m), m),
        entries_at_least(es, k) ==> entries_at_least(prune_entries(es, m), k),
        entries_at_least(es, m) ==> prune_entries(es, m) == es,
    decreases es.len(),
{
    if es.len() > 0 {
        let d = es.drop_last();
        lemma_prune_entries_at_least(d, m, k);
        let last = es.last();
        assert(last == es[es.len() - 1]);
        assert(entries_at_least(es, k) ==> entries_at_least(d, k)) by {
            if entries_at_least(es, k) {
                assert forall|i: int| 0 <= i < d.len() implies (#[trigger] d[i]).1.len() > 0 && counts_at_least(d[i].1, k) by {
                    assert(d[i] == es[i]);
                }
            }
        }
        assert(entries_at_least(es, m) ==> entries_at_least(d, m)) by {
            if entries_at_least(es, m) {
                assert forall|i: int| 0 <= i < d.len() implies (#[trigger] d[i]).1.len() > 0 && counts_at_least(d[i].1, m) by {
                    assert(d[i] == es[i]);
                }
            }
        }
        lemma_keep_counts_at_least(last.1, m, k);
        let pd = prune_entries(d, m);
        let kept = keep_counts(last.1, m);
        if kept.len() > 0 {
            let pe = pd.push((last.0, kept));
            assert(prune_entries(es, m) == pe);
            assert forall|i: int| 0 <= i < pe.len() implies (#[trigger] pe[i]).1.len() > 0 && counts_at_least(pe[i].1, m) by {
                if i < pd.len() {
                    assert(pe[i] == pd[i]);
                }
            }
            if entries_at_least(es, k) {
                assert forall|i: int| 0 <= i < pe.len() implies (#[trigger] pe[i]).1.len() > 0 && counts_at_least(pe[i].1, k) by {
                    if i < pd.len() {
                        assert(pe[i] == pd[i]);
                    }
                }
            }
            if entries_at_least(es, m) {
                assert(pe =~= es);
            }
        } else {
            if entries_at_least(es, m) {
                assert(last.1.len() > 0 && counts_at_least(last.1, m));
            }
        }
    }
}

/// Pruning is idempotent, and leaves no context without counts and no count
/// below the threshold.
pub proof fn lemma_prune_idempotent(t: TableView, m: u32)
    ensures
        prune_spec(prune_spec(t, m), m) == prune_spec(t, m),
        entries_at_least(prune_spec(t, m).entries, m),
{
    lemma_prune_entries_at_least(t.entries, m, m);
    lemma_prune_entries_at_least(prune_entries(t.entries, m), m, m);
}

/// A new table (order at least two, no entries, counter zero) is exact.
pub proof fn lemma_new_table_exact(order: u8, max_entries: u64)
    requires
        order >= 2,
    ensures
        exact_table(TableView { order, entries: Seq::empty(), total: 0, max_entries }),
{
}

/// Pruning keeps a table exact; on an exact table, pruning at 0 changes
/// nothing.
pub proof fn lemma_prune_exact(t: TableView, m: u32)
    requires
        exact_table(t),
    ensures
        exact_table(prune_spec(t, m)),
        prune_spec(t, 0) == t,
{
    super::count_table::lemma_prune_spec(t, m);
    lemma_prune_entries_at_least(t.entries, m, 1);
    lemma_prune_entries_at_least(t.entries, 0, 1);
}

proof fn lemma_counts_positive(es: Entries, ctx: Seq<u16>, tok: u16)
    requires
        entries_at_least(es, 1),
    ensures
        count_of(es, ctx, tok) matches Some(c) ==> c >= 1,
{
    lemma_ctx_find(es, ctx);
    let i = ctx_find(es, ctx);
    if i >= 0 {
        lemma_tok_find(es[i].1, tok);
        let j = tok_find(es[i].1, tok);
        if j >= 0 {
            assert(counts_at_least(es[i].1, 1));
            assert(es[i].1[j].1 >= 1);
        }
    }
}

proof fn lemma_record_at_least(es: Entries, ctx: Seq<u16>, tok: u16)
    requires
        entries_at_least(es, 1),
    ensures
        entries_at_least(record(es, ctx, tok), 1),
        record(es, ctx, tok).len() == es.len() + if ctx_find(es, ctx) < 0 { 1int } else { 0int },
{
    lemma_ctx_find(es, ctx);
    let i = ctx_find(es, ctx);
    let r = record(es, ctx, tok);
    if i >= 0 {
        let ns = es[i].1;
        lemma_tok_find(ns, tok);
        let j = tok_find(ns, tok);
        let b = if j >= 0 { ns.update(j, (tok, sat_inc(ns[j].1))) } else { ns.push((tok, 1)) };
        assert(counts_at_least(ns, 1));
        assert forall|q: int| 0 <= q < b.len() implies (#[trigger] b[q]).1 >= 1 by {
            if j >= 0 {
                if q != j {
                    assert(b[q] == ns[q]);
                }
            } else if q < ns.len() {
                assert(b[q] == ns[q]);
            }
        }
        assert forall|p: int| 0 <= p < r.len() implies (#[trigger] r[p]).1.len() > 0 && counts_at_least(r[p].1, 1) by {
            if p != i {
                assert(r[p] == es[p]);
            }
        }
    } else {
        let k = seq![(tok, 1u32)];
        assert forall|p: int| 0 <= p < r.len() implies (#[trigger] r[p]).1.len() > 0 && counts_at_least(r[p].1, 1) by {
            if p < es.len() {
                assert(r[p] == es[p]);
            } else {
                assert(r[p].1 == k);
                assert forall|q: int| 0 <= q < k.len() implies (#[trigger] k[q]).1 >= 1 by {}
            }
        }
    }
}

/// One update keeps a table exact. Without a budget (0, nothing is ever
/// evicted) the update is exactly the observation: the pair's count rises
/// by one (saturating; to 1 for a new pair), every other count stays, the
/// counter rises by one exactly when the pair is new, and the number of
/// contexts rises by one exactly when the context is new.
pub proof fn lemma_update_exact(t: TableView, ctx: Seq<u16>, tok: u16, ctx2: Seq<u16>, tok2: u16)
    requires
        exact_table(t),
        ctx.len() + 1 == t.order,
        t.total < u64::MAX,
    ensures
        exact_table(update_spec(t, ctx, tok)),
        t.max_entries == 0 ==> {
            let u = update_spec(t, ctx, tok);
            &&& count_of(u.entries, ctx, tok) == Some(
                match count_of(t.entries, ctx, tok) {
                    Some(c) => sat_inc(c),
                    None => 1u32,
                },
            )
            &&& ((ctx2 != ctx || tok2 != tok) ==> count_of(u.entries, ctx2, tok2) == count_of(t.entries, ctx2, tok2))
            &&& u.total == t.total + if count_of(t.entries, ctx, tok) is None { 1int } else { 0int }
            &&& u.entries.len() == t.entries.len() + if ctx_find(t.entries, ctx) < 0 { 1int } else { 0int }
        },
{
    lemma_update_spec(t, ctx, tok);
    lemma_counts_positive(t.entries, ctx, tok);
    lemma_record_at_least(t.entries, ctx, tok);
    super::count_table::lemma_record_pairs(t.entries, ctx, tok, (t.order - 1) as nat);
    let t1 = observe(t, ctx, tok);
    assert(exact_table(t1));
    if over_budget(t1) {
        lemma_prune_exact(t1, 2);
        lemma_evict_from_exact(prune_spec(t1, 2), 3);
    } else {
        lemma_update_counts(t, ctx, tok, ctx2, tok2);
    }
}

proof fn lemma_evict_from_exact(t: TableView, th: u32)
    requires
        exact_table(t),
    ensures
        exact_table(evict_from(t, th)),
    decreases 100 - th,
{
    if over_budget(t) && th < 100 {
        lemma_prune_exact(t, th);
        lemma_evict_from_exact(prune_spec(t, th), (th + 1) as u32);
    }
}

proof fn lemma_evict_from_bound(t: TableView, th: u32)
    requires
        3 <= th <= 100,
        entries_at_least(t.entries, (th - 1) as u32),
    ensures
        !over_budget(evict_from(t, th)) || entries_at_least(evict_from(t, th).entries, 99),
    decreases 100 - th,
{
    if over_budget(t) && th < 100 {
        lemma_prune_entries_at_least(t.entries, th, th);
        lemma_evict_from_bound(prune_spec(t, th), (th + 1) as u32);
    }
}

/// After an update of a table with a budget, the table is within its budget,
/// or every count it still holds is at least 99 (eviction prunes at 2, 3,
/// ..., 99 while over budget).
pub proof fn lemma_update_within_budget(t: TableView, ctx: Seq<u16>, tok: u16)
    requires
        t.max_entries > 0,
    ensures
        update_spec(t, ctx, tok).total <= t.max_entries || entries_at_least(update_spec(t, ctx, tok).entries, 99),
{
    let t1 = observe(t, ctx, tok);
    if over_budget(t1) {
        let p = prune_spec(t1, 2);
        lemma_prune_entries_at_least(t1.entries, 2, 2);
        lemma_evict_from_bound(p, 3);
        assert(evict_from(p, 3).max_entries == t.max_entries) by {
            lemma_evict_keeps_budget(p, 3);
        }
    }
}

proof fn lemma_evict_keeps_budget(t: TableView, th: u32)
    ensures
        evict_from(t, th).max_entries == t.max_entries,
    decreases 100 - th,
{
    if over_budget(t) && th < 100 {
        lemma_evict_keeps_budget(prune_spec(t, th), (th + 1) as u32);
    }
}

/// An exact table (as creation, updates and pruning leave it) reads back from
/// its bytes, whatever follows them, as the same table (order, entries,
/// counter) with no eviction budget, consuming exactly its bytes.
pub proof fn lemma_exact_table_roundtrip(t: TableView, rest: Seq<u8>)
    requires
        exact_table(t),
        t.entries.len() <= u64::MAX,
    ensures
        parse_table(table_bytes(t) + rest) == Ok::<(TableView, nat), BrainError>(
            (TableView { max_entries: 0, ..t }, table_bytes(t).len()),
        ),
{
    lemma_table_roundtrip(t, rest);
}

proof fn lemma_feed_exact(t: TableView, tokens: Seq<u16>, order: nat, j: nat)
    requires
        exact_table(t),
        t.order == order,
        j + order <= tokens.len() + 1,
        t.total + tokens.len() < u64::MAX,
    ensures
        exact_table(feed(t, tokens, order, j)),
        feed(t, tokens, order, j).order == t.order,
        feed(t, tokens, order, j).total <= t.total + j,
    decreases j,
{
    if j > 0 {
        let w = j - 1;
        lemma_feed_exact(t, tokens, order, (j - 1) as nat);
        let f = feed(t, tokens, order, (j - 1) as nat);
        let ctx = tokens.subrange(w, w + order - 1);
        lemma_update_exact(f, ctx, tokens[w + order - 1], ctx, tokens[w + order - 1]);
        lemma_update_spec(f, ctx, tokens[w + order - 1]);
    }
}

/// Training a table on a token sequence keeps it exact.
pub proof fn lemma_train_table_exact(t: TableView, tokens: Seq<u16>, order: nat)
    requires
        exact_table(t),
        t.order == order,
        t.total + tokens.len() < u64::MAX,
    ensures
        exact_table(train_table(t, tokens, order)),
{
    if tokens.len() >= order {
        lemma_feed_exact(t, tokens, order, (tokens.len() - order + 1) as nat);
    }
}

/// An exact table is restored from its bytes as itself, with no eviction
/// budget: the brain read back from a brain's bytes has the same counters
/// wherever its tables are exact.
pub proof fn lemma_exact_restored(t: TableView)
    requires
        exact_table(t),
    ensures
        restored(t) == (TableView { max_entries: 0, ..t }),
{
}

/// A call on a count table: an update (context, next token) or a prune at a
/// threshold.
pub enum TableOp {
    Update(Seq<u16>, u16),
    Prune(u32),
}

/// A table after a sequence of calls, in order.
pub open spec fn apply_table_ops(t: TableView, ops: Seq<TableOp>) -> TableView
    decreases ops.len(),
{
    if ops.len() == 0 {
        t
    } else {
        let u = apply_table_ops(t, ops.drop_last());
        match ops.last() {
            TableOp::Update(ctx, tok) => update_spec(u, ctx, tok),
            TableOp::Prune(m) => prune_spec(u, m),
        }
    }
}

/// Every update among the calls gives a context of the table's context
/// length.
pub open spec fn ops_fit(order: u8, ops: Seq<TableOp>) -> bool {
    forall|i: int| 0 <= i < ops.len() ==> match #[trigger] ops[i] {
        TableOp::Update(ctx, _) => ctx.len() + 1 == order,
        TableOp::Prune(_) => true,
    }
}

/// Any sequence of updates and prunes keeps a table exact (its counter the
/// number of associations held, every count positive, no context without
/// counts), when every update's context has the table's context length and
/// the counter cannot overflow; so a table built by `new`, `update` and
/// `prune` is always exact.
pub proof fn lemma_table_ops_exact(t: TableView, ops: Seq<TableOp>)
    requires
        exact_table(t),
        ops_fit(t.order, ops),
        t.total + ops.len() < u64::MAX,
    ensures
        exact_table(apply_table_ops(t, ops)),
        apply_table_ops(t, ops).order == t.order,
        apply_table_ops(t, ops).total <= t.total + ops.len(),
    decreases ops.len(),
{
    if ops.len() > 0 {
        let d = ops.drop_last();
        assert(ops_fit(t.order, d)) by {
            assert forall|i: int| 0 <= i < d.len() implies match #[trigger] d[i] {
                TableOp::Update(ctx, _) => ctx.len() + 1 == t.order,
                TableOp::Prune(_) => true,
            } by {
                assert(d[i] == ops[i]);
            }
        }
        lemma_table_ops_exact(t, d);
        let u = apply_table_ops(t, d);
        assert(ops.last() == ops[ops.len() - 1]);
        match ops.last() {
            TableOp::Update(ctx, tok) => {
                lemma_update_exact(u, ctx, tok, ctx, tok);
                lemma_update_spec(u, ctx, tok);
            },
            TableOp::Prune(m) => {
                lemma_prune_exact(u, m);
                super::count_table::lemma_prune_spec(u, m);
            },
        }
    }
}

} // verus!
