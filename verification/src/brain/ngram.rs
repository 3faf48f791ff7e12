//! The n-gram brain: count tables for bigrams through 5-grams, trained
//! together on token sequences, with interpolation weights for prediction.

use vstd::prelude::*;
use vstd::bytes::spec_u64_to_le_bytes;
use crate::bytes::{lemma_u64_roundtrip, push_all, push_u64, read_u64, u64_at};
use super::codec::{lemma_table_roundtrip, parse_table, table_bytes};
use super::count_table::{
    all_zero, lemma_update_spec, lookup_counts, num_pairs, prune_spec, table_wf, update_spec,
    CountTable, TableView,
};
use super::error::BrainError;

verus! {

/// A brain as plain values.
pub struct BrainView {
    /// The count tables, lowest order first
    pub tables: Seq<TableView>,
    /// The interpolation weight of each table, as the bits of an IEEE-754
    /// double
    pub weight_bits: Seq<u64>,
    /// Total tokens seen during training
    pub tokens_trained: u64,
}

/// Bits of the default interpolation weights 0.05, 0.15, 0.30 and 0.50
/// (bigram to 5-gram).
pub open spec fn default_weight_bits() -> Seq<u64> {
    seq![0x3FA999999999999Au64, 0x3FC3333333333333u64, 0x3FD3333333333333u64, 0x3FE0000000000000u64]
}

/// A well-formed brain: every table well formed, one weight per table, and
/// at most 255 tables.
pub open spec fn brain_wf(b: BrainView) -> bool {
    &&& forall|i: int| 0 <= i < b.tables.len() ==> table_wf(#[trigger] b.tables[i])
    &&& b.weight_bits.len() == b.tables.len()
    &&& b.tables.len() <= 255
}

/// A table after the observations of every window of `order` tokens among
/// the first `j` windows of `tokens`: each window's last token following the
/// tokens before it.
pub open spec fn feed(t: TableView, tokens: Seq<u16>, order: nat, j: nat) -> TableView
    decreases j,
{
    if j == 0 {
        t
    } else {
        let w = j - 1;
        update_spec(feed(t, tokens, order, (j - 1) as nat), tokens.subrange(w, w + order - 1), tokens[w + order - 1])
    }
}

/// A table after training on `tokens` with windows of `order` tokens (no
/// change when there are fewer tokens than that).
pub open spec fn train_table(t: TableView, tokens: Seq<u16>, order: nat) -> TableView {
    if tokens.len() < order {
        t
    } else {
        feed(t, tokens, order, (tokens.len() - order + 1) as nat)
    }
}

/// The sum of the tables' counters.
pub open spec fn sum_totals(ts: Seq<TableView>) -> nat
    decreases ts.len(),
{
    if ts.len() == 0 {
        0
    } else {
        sum_totals(ts.drop_last()) + ts.last().total as nat
    }
}

/// The tables' view.
pub open spec fn tables_view(ts: Seq<CountTable>) -> Seq<TableView> {
    ts.map_values(|t: CountTable| t@)
}

/// The full n-gram brain holding multiple count tables.
///
/// Combines predictions from bigram through 5-gram tables using
/// interpolation weights (higher-order n-grams get more weight).
#[derive(Debug, Clone)]
pub struct NgramBrain {
    /// Count tables for each n-gram order (indices 0..4 -> 2-gram..5-gram)
    tables: Vec<CountTable>,
    /// Interpolation weight of each order, as the bits of an IEEE-754 double
    weight_bits: Vec<u64>,
    /// Total tokens seen during training
    tokens_trained: u64,
}

impl View for NgramBrain {
    type V = BrainView;

    closed spec fn view(&self) -> BrainView {
        BrainView {
            tables: tables_view(self.tables@),
            weight_bits: self.weight_bits@,
            tokens_trained: self.tokens_trained,
        }
    }
}

/// Trains one table on every window of `order` tokens.
fn feed_table(table: &mut CountTable, tokens: &[u16], order: usize)
    requires
        old(table).wf(),
        old(table)@.order == order,
        old(table)@.total + tokens@.len() < u64::MAX,
    ensures
        final(table).wf(),
        final(table)@ == train_table(old(table)@, tokens@, order as nat),
        final(table)@.order == old(table)@.order,
{
    if tokens.len() < order {
        return;
    }
    let tlen = tokens.len();
    let nw = tlen - order + 1;
    let ghost t0 = table@;
    let mut w: usize = 0;
    while w < nw
        invariant
            tlen == tokens@.len(),
            nw == tokens@.len() - order + 1,
            2 <= order <= tokens@.len(),
            0 <= w <= nw,
            table.wf(),
            table@ == feed(t0, tokens@, order as nat, w as nat),
            table@.order == order,
            t0.total + tokens@.len() < u64::MAX,
            table@.total <= t0.total + w,
        decreases nw - w,
    {
        let ctx = vstd::slice::slice_subrange(tokens, w, w + order - 1);
        let next = tokens[w + order - 1];
        proof {
            lemma_update_spec(table@, ctx@, next);
        }
        table.update(ctx, next);
        w = w + 1;
    }
}

impl NgramBrain {
    /// Whether the brain is well formed (see [`brain_wf`]).
    pub open spec fn wf(&self) -> bool {
        brain_wf(self@)
    }

    /// Create a new brain with tables for 2-gram through 5-gram.
    ///
    /// `max_entries_per_table` limits memory per table (0 = unlimited).
    pub fn new(max_entries_per_table: u64) -> (b: Self)
        ensures
            b.wf(),
            b@.tables.len() == 4,
            forall|i: int| 0 <= i < 4 ==> #[trigger] b@.tables[i] == (TableView {
                order: (i + 2) as u8,
                entries: Seq::empty(),
                total: 0,
                max_entries: max_entries_per_table,
            }),
            b@.weight_bits == default_weight_bits(),
            b@.tokens_trained == 0,
    {
        let mut tables: Vec<CountTable> = Vec::new();
        let mut order: u8 = 2;
        while order <= 5
            invariant
                2 <= order <= 6,
                tables@.len() == order - 2,
                forall|i: int| 0 <= i < tables@.len() ==> (#[trigger] tables@[i]).wf() && tables@[i]@ == (TableView {
                    order: (i + 2) as u8,
                    entries: Seq::empty(),
                    total: 0,
                    max_entries: max_entries_per_table,
                }),
            decreases 6 - order,
        {
            tables.push(CountTable::new(order, max_entries_per_table));
            order = order + 1;
        }
        let mut weight_bits: Vec<u64> = Vec::new();
        weight_bits.push(0x3FA999999999999Au64);
        weight_bits.push(0x3FC3333333333333u64);
        weight_bits.push(0x3FD3333333333333u64);
        weight_bits.push(0x3FE0000000000000u64);
        let b = NgramBrain { tables, weight_bits, tokens_trained: 0 };
        assert(b@.weight_bits =~= default_weight_bits());
        assert forall|i: int| 0 <= i < b@.tables.len() implies table_wf(#[trigger] b@.tables[i]) by {
            assert(b@.tables[i] == b.tables@[i]@);
        }
        b
    }

    /// Train on a sequence of token IDs.
    ///
    /// Feeds sliding windows of tokens to each count table: the table at
    /// index `i` sees every window of `i + 2` tokens.
    pub fn train_sequence(&mut self, tokens: &[u16])
        requires
            old(self).wf(),
            forall|i: int| 0 <= i < old(self)@.tables.len() ==> (#[trigger] old(self)@.tables[i]).order == i + 2,
            forall|i: int| 0 <= i < old(self)@.tables.len() ==> (#[trigger] old(self)@.tables[i]).total + tokens@.len() < u64::MAX,
            old(self)@.tokens_trained + tokens@.len() <= u64::MAX,
        ensures
            final(self).wf(),
            final(self)@.tables.len() == old(self)@.tables.len(),
            forall|i: int| 0 <= i < old(self)@.tables.len() ==> #[trigger] final(self)@.tables[i] == train_table(
                old(self)@.tables[i],
                tokens@,
                (i + 2) as nat,
            ),
            final(self)@.weight_bits == old(self)@.weight_bits,
            final(self)@.tokens_trained == old(self)@.tokens_trained + tokens@.len(),
    {
        let n = self.tables.len();
        let ghost old_tables = self@.tables;
        proof {
            assert forall|j: int| 0 <= j < n implies (#[trigger] self.tables@[j]).wf() by {
                assert(self@.tables[j] == self.tables@[j]@);
            }
        }
        let mut i: usize = 0;
        while i < n
            invariant
                n == self.tables@.len(),
                n == old_tables.len(),
                n <= 255,
                0 <= i <= n,
                self.weight_bits@ == old(self)@.weight_bits,
                self.tokens_trained == old(self)@.tokens_trained,
                old_tables == old(self)@.tables,
                forall|j: int| 0 <= j < n ==> (#[trigger] old_tables[j]).order == j + 2,
                forall|j: int| 0 <= j < n ==> (#[trigger] old_tables[j]).total + tokens@.len() < u64::MAX,
                forall|j: int| 0 <= j < n ==> table_wf(#[trigger] old_tables[j]),
                forall|j: int| 0 <= j < n ==> (#[trigger] self.tables@[j]).wf(),
                forall|j: int| 0 <= j < i ==> (#[trigger] self.tables@[j])@ == train_table(old_tables[j], tokens@, (j + 2) as nat),
                forall|j: int| i <= j < n ==> (#[trigger] self.tables@[j])@ == old_tables[j],
            decreases n - i,
        {
            proof {
                assert(self.tables@[i as int]@ == old_tables[i as int]);
            }
            feed_table(&mut self.tables[i], tokens, i + 2);
            i = i + 1;
        }
        self.tokens_trained = self.tokens_trained + tokens.len() as u64;
        proof {
            assert forall|j: int| 0 <= j < self@.tables.len() implies table_wf(#[trigger] self@.tables[j]) by {
                assert(self@.tables[j] == self.tables@[j]@);
            }
            assert forall|j: int| 0 <= j < n implies #[trigger] self@.tables[j] == train_table(old_tables[j], tokens@, (j + 2) as nat) by {
                assert(self@.tables[j] == self.tables@[j]@);
            }
        }
    }

    /// Total associations across all tables.
    pub fn total_associations(&self) -> (n: u64)
        requires
            sum_totals(self@.tables) <= u64::MAX,
        ensures
            n == sum_totals(self@.tables),
    {
        let ghost ts = self@.tables;
        let mut sum: u64 = 0;
        let mut i: usize = 0;
        while i < self.tables.len()
            invariant
                0 <= i <= self.tables@.len(),
                ts == tables_view(self.tables@),
                sum_totals(ts) <= u64::MAX,
                sum == sum_totals(ts.take(i as int)),
            decreases self.tables@.len() - i,
        {
            proof {
                assert(ts.take(i + 1).drop_last() =~= ts.take(i as int));
                lemma_sum_totals_take(ts, i + 1);
            }
            sum = sum + self.tables[i].total_entries();
            i = i + 1;
        }
        assert(ts.take(ts.len() as int) =~= ts);
        sum
    }

    /// Total tokens seen during training.
    pub fn tokens_trained(&self) -> (n: u64)
        ensures
            n == self@.tokens_trained,
    {
        self.tokens_trained
    }

    /// Prune all tables, removing associations below `min_count`.
    pub fn prune_all(&mut self, min_count: u32)
        requires
            old(self).wf(),
        ensures
            final(self).wf(),
            final(self)@.tables.len() == old(self)@.tables.len(),
            forall|i: int| 0 <= i < old(self)@.tables.len() ==> #[trigger] final(self)@.tables[i] == prune_spec(
                old(self)@.tables[i],
                min_count,
            ),
            final(self)@.weight_bits == old(self)@.weight_bits,
            final(self)@.tokens_trained == old(self)@.tokens_trained,
    {
        let n = self.tables.len();
        let ghost old_tables = self@.tables;
        proof {
            assert forall|j: int| 0 <= j < n implies (#[trigger] self.tables@[j]).wf() by {
                assert(self@.tables[j] == self.tables@[j]@);
            }
        }
        let mut i: usize = 0;
        while i < n
            invariant
                n == self.tables@.len(),
                n == old_tables.len(),
                n <= 255,
                0 <= i <= n,
                self.weight_bits@ == old(self)@.weight_bits,
                self.tokens_trained == old(self)@.tokens_trained,
                old_tables == old(self)@.tables,
                forall|j: int| 0 <= j < n ==> table_wf(#[trigger] old_tables[j]),
                forall|j: int| 0 <= j < n ==> (#[trigger] self.tables@[j]).wf(),
                forall|j: int| 0 <= j < i ==> (#[trigger] self.tables@[j])@ == prune_spec(old_tables[j], min_count),
                forall|j: int| i <= j < n ==> (#[trigger] self.tables@[j])@ == old_tables[j],
            decreases n - i,
        {
            proof {
                assert(self.tables@[i as int]@ == old_tables[i as int]);
            }
            self.tables[i].prune(min_count);
            i = i + 1;
        }
        proof {
            assert forall|j: int| 0 <= j < self@.tables.len() implies table_wf(#[trigger] self@.tables[j]) by {
                assert(self@.tables[j] == self.tables@[j]@);
            }
            assert forall|j: int| 0 <= j < n implies #[trigger] self@.tables[j] == prune_spec(old_tables[j], min_count) by {
                assert(self@.tables[j] == self.tables@[j]@);
            }
        }
    }

    /// Access the individual count tables.
    pub fn tables(&self) -> (ts: &[CountTable])
        ensures
            tables_view(ts@) == self@.tables,
    {
        self.tables.as_slice()
    }

    /// The interpolation weights, one per table, as the bits of IEEE-754
    /// doubles.
    pub fn weight_bits(&self) -> (ws: &[u64])
        ensures
            ws@ == self@.weight_bits,
    {
        self.weight_bits.as_slice()
    }
}

impl NgramBrain {
    /// Serialize the entire brain to bytes.
    pub fn to_bytes(&self) -> (buf: Vec<u8>)
        ensures
            buf@ == brain_bytes(self@),
    {
        let mut buf: Vec<u8> = Vec::new();
        let nt = self.tables.len();
        buf.push(nt as u8);
        let ghost ws = self@.weight_bits;
        let nw = self.weight_bits.len();
        let mut i: usize = 0;
        assert(ws.take(0) =~= Seq::<u64>::empty());
        assert(seq![nt as u8] + weights_bytes(ws.take(0)) =~= seq![nt as u8]);
        while i < nw
            invariant
                nw == ws.len(),
                ws == self.weight_bits@,
                0 <= i <= nw,
                buf@ == seq![nt as u8] + weights_bytes(ws.take(i as int)),
            decreases nw - i,
        {
            push_u64(&mut buf, self.weight_bits[i]);
            proof {
                assert(ws.take(i + 1).drop_last() =~= ws.take(i as int));
                assert(ws.take(i + 1).last() == ws[i as int]);
                assert(buf@ =~= seq![nt as u8] + weights_bytes(ws.take(i + 1)));
            }
            i = i + 1;
        }
        assert(ws.take(nw as int) =~= ws);
        push_u64(&mut buf, self.tokens_trained);
        let ghost head = buf@;
        let ghost ts = self@.tables;
        let mut k: usize = 0;
        assert(ts.take(0) =~= Seq::<TableView>::empty());
        assert(head + sections_bytes(ts.take(0)) =~= head);
        while k < nt
            invariant
                nt == self.tables@.len(),
                ts == tables_view(self.tables@),
                0 <= k <= nt,
                buf@ == head + sections_bytes(ts.take(k as int)),
            decreases nt - k,
        {
            let tb = self.tables[k].to_bytes();
            push_u64(&mut buf, tb.len() as u64);
            push_all(&mut buf, tb.as_slice());
            proof {
                assert(ts[k as int] == self.tables@[k as int]@);
                lemma_sections_bytes_push(ts.take(k as int), ts[k as int]);
                assert(ts.take(k + 1) =~= ts.take(k as int).push(ts[k as int]));
                assert(buf@ =~= head + sections_bytes(ts.take(k + 1)));
            }
            k = k + 1;
        }
        assert(ts.take(nt as int) =~= ts);
        buf
    }

    /// Deserialize a brain from bytes; on success also returns the number of
    /// bytes consumed.
    ///
    /// Every stored table reached must start with an order of at least 2
    /// (see [`brain_accepted`]; [`NgramBrain::accepts`] tells).
    pub fn from_bytes(data: &[u8]) -> (r: Result<(Self, usize), BrainError>)
        requires
            brain_accepted(data@),
        ensures
            match r {
                Ok((b, used)) => b.wf() && parse_brain(data@) == Ok::<(BrainView, nat), BrainError>((b@, used as nat)),
                Err(e) => parse_brain(data@) == Err::<(BrainView, nat), BrainError>(e),
            },
    {
        match Self::read_brain(data) {
            Some(r) => r,
            None => Err(BrainError::TruncatedData),
        }
    }

    /// Whether every stored table that reading a brain from `data` reaches
    /// starts with an order of at least 2, so that [`NgramBrain::from_bytes`]
    /// accepts `data`.
    pub fn accepts(data: &[u8]) -> (b: bool)
        ensures
            b == brain_accepted(data@),
    {
        Self::read_brain(data).is_some()
    }

    /// Reads a brain: None when a stored table reached has an order below 2,
    /// the result of reading otherwise.
    fn read_brain(data: &[u8]) -> (r: Option<Result<(Self, usize), BrainError>>)
        ensures
            r is None <==> !brain_accepted(data@),
            r matches Some(Ok((b, used))) ==> b.wf() && parse_brain(data@) == Ok::<(BrainView, nat), BrainError>(
                (b@, used as nat),
            ),
            r matches Some(Err(e)) ==> parse_brain(data@) == Err::<(BrainView, nat), BrainError>(e),
    {
        let dlen = data.len();
        if dlen < 1 {
            return Some(Err(BrainError::TruncatedData));
        }
        let nt = data[0] as usize;
        if dlen < 9 + 8 * nt {
            return Some(Err(BrainError::TruncatedData));
        }
        let mut weight_bits: Vec<u64> = Vec::new();
        let mut i: usize = 0;
        while i < nt
            invariant
                dlen == data@.len(),
                nt == data@[0],
                9 + 8 * nt <= dlen,
                0 <= i <= nt,
                weight_bits@ == weights_at(data@, 1, i as nat),
            decreases nt - i,
        {
            let w = read_u64(data, 1 + 8 * i);
            weight_bits.push(w);
            i = i + 1;
            assert(weight_bits@ =~= weights_at(data@, 1, i as nat));
        }
        let tokens_trained = read_u64(data, 1 + 8 * nt);
        let start = 9 + 8 * nt;
        let ghost d0 = data@.skip(start as int);
        let mut pos: usize = start;
        let mut tables: Vec<CountTable> = Vec::new();
        let mut k: usize = 0;
        proof {
            match parse_tables(d0, nt as nat) {
                Ok((rest, m)) => {
                    assert(tables_view(tables@) + rest =~= rest);
                },
                Err(e) => {},
            }
        }
        while k < nt
            invariant
                dlen == data@.len(),
                nt == data@[0],
                start == 9 + 8 * nt,
                start <= pos <= dlen,
                0 <= k <= nt,
                d0 == data@.skip(start as int),
                parse_tables(d0, nt as nat) == prepend_tables(
                    tables_view(tables@),
                    (pos - start) as nat,
                    parse_tables(data@.skip(pos as int), (nt - k) as nat),
                ),
                brain_accepted(data@) == tables_accepted(data@.skip(pos as int), (nt - k) as nat),
                tables@.len() == k,
                forall|j: int| 0 <= j < k ==> (#[trigger] tables@[j]).wf(),
            decreases nt - k,
        {
            let ghost rest = data@.skip(pos as int);
            if dlen - pos < 8 {
                return Some(Err(BrainError::TruncatedData));
            }
            let size = read_u64(data, pos);
            proof {
                assert(rest.subrange(0, 8) =~= data@.subrange(pos as int, pos + 8));
            }
            if size > (dlen - pos - 8) as u64 {
                return Some(Err(BrainError::TruncatedData));
            }
            let sz = size as usize;
            let section = vstd::slice::slice_subrange(data, pos + 8, pos + 8 + sz);
            proof {
                assert(section@ =~= rest.subrange(8, 8 + sz));
            }
            if sz >= 9 && section[0] < 2 {
                return None;
            }
            match CountTable::from_bytes(section) {
                Err(e) => {
                    return Some(Err(e));
                },
                Ok((t, _used)) => {
                    let ghost before = tables@;
                    proof {
                        lemma_prepend_tables_push(
                            tables_view(before),
                            t@,
                            (pos - start) as nat,
                            (8 + sz) as nat,
                            parse_tables(data@.skip(pos + 8 + sz), (nt - k - 1) as nat),
                        );
                        assert(rest.skip(8 + sz) =~= data@.skip(pos + 8 + sz));
                    }
                    tables.push(t);
                    proof {
                        assert(tables_view(tables@) =~= tables_view(before).push(t@));
                    }
                    pos = pos + 8 + sz;
                    k = k + 1;
                },
            }
        }
        let b = NgramBrain { tables, weight_bits, tokens_trained };
        proof {
            assert(tables_view(b.tables@) + Seq::<TableView>::empty() =~= tables_view(b.tables@));
            assert forall|j: int| 0 <= j < b@.tables.len() implies table_wf(#[trigger] b@.tables[j]) by {
                assert(b@.tables[j] == b.tables@[j]@);
            }
        }
        Some(Ok((b, pos)))
    }
}

/// Whether a table predicts `target` after `context`: its context length
/// fits in `context`, and the counts it holds after the last tokens of
/// `context` are not all zero and include `target`.
pub open spec fn table_predicts(t: TableView, context: Seq<u16>, target: u16) -> bool {
    let n = t.order - 1;
    &&& 0 <= n <= context.len()
    &&& !all_zero(lookup_counts(t, context.subrange(context.len() - n, context.len() as int)))
    &&& exists|j: int|
        0 <= j < lookup_counts(t, context.subrange(context.len() - n, context.len() as int)).len()
            && (#[trigger] lookup_counts(t, context.subrange(context.len() - n, context.len() as int))[j]).0
            == target
}

/// Whether the brain gives `target` a non-zero probability after `context`:
/// some table predicts it.
pub open spec fn predicts(b: BrainView, context: Seq<u16>, target: u16) -> bool {
    exists|i: int| 0 <= i < b.tables.len() && table_predicts(#[trigger] b.tables[i], context, target)
}

/// Among the positions from 4 up to `n` of `tokens`, how many tokens the
/// brain predicts after the 4 tokens before them.
pub open spec fn covered_upto(b: BrainView, tokens: Seq<u16>, n: int) -> nat
    decreases n,
{
    if n <= 4 {
        0
    } else if predicts(b, tokens.subrange(n - 5, n - 1), tokens[n - 1]) {
        covered_upto(b, tokens, n - 1) + 1
    } else {
        covered_upto(b, tokens, n - 1)
    }
}

impl NgramBrain {
    /// Whether the brain gives `target` a non-zero probability after
    /// `context` (see [`predicts`]).
    pub fn predicts_token(&self, context: &[u16], target: u16) -> (r: bool)
        requires
            self.wf(),
        ensures
            r == predicts(self@, context@, target),
    {
        let n = self.tables.len();
        let mut i: usize = 0;
        while i < n
            invariant
                n == self.tables@.len(),
                brain_wf(self@),
                0 <= i <= n,
                forall|k: int| 0 <= k < i ==> !table_predicts(#[trigger] self@.tables[k], context@, target),
            decreases n - i,
        {
            let table = &self.tables[i];
            assert(self@.tables[i as int] == table@);
            assert(table.wf());
            let clen = table.context_len();
            if clen <= context.len() {
                let ctx = vstd::slice::slice_subrange(context, context.len() - clen, context.len());
                let ranked = table.ranked_counts(ctx);
                let ghost ns = lookup_counts(table@, ctx@);
                let mut j: usize = 0;
                #[verifier::loop_isolation(false)]
                while j < ranked.len()
                    invariant
                        0 <= j <= ranked@.len(),
                        forall|q: int| 0 <= q < j ==> (#[trigger] ranked@[q]).0 != target,
                    decreases ranked@.len() - j,
                {
                    if ranked[j].0 == target {
                        proof {
                            assert(ranked@.contains(ranked@[j as int]));
                            assert(ns.contains(ranked@[j as int]));
                            let q = choose|q: int| 0 <= q < ns.len() && ns[q] == ranked@[j as int];
                            assert(ns[q].0 == target);
                            assert(table_predicts(self@.tables[i as int], context@, target));
                        }
                        return true;
                    }
                    j = j + 1;
                }
                proof {
                    if table_predicts(self@.tables[i as int], context@, target) {
                        let q = choose|q: int| 0 <= q < ns.len() && (#[trigger] ns[q]).0 == target;
                        assert(ns.contains(ns[q]));
                        assert(ranked@.contains(ns[q]));
                        let p = choose|p: int| 0 <= p < ranked@.len() && ranked@[p] == ns[q];
                        assert(ranked@[p].0 == target);
                    }
                }
            }
            i = i + 1;
        }
        false
    }

    /// Counts, over the positions from the fifth token on, the tokens the
    /// brain predicts after the 4 tokens before them: (covered, total), or
    /// (0, 0) for fewer than 5 tokens. Their ratio is the coverage score.
    pub fn coverage_counts(&self, tokens: &[u16]) -> (r: (u64, u64))
        requires
            self.wf(),
        ensures
            tokens@.len() < 5 ==> r == (0u64, 0u64),
            tokens@.len() >= 5 ==> r.0 == covered_upto(self@, tokens@, tokens@.len() as int) && r.1 == tokens@.len()
                - 4,
    {
        let n = tokens.len();
        if n < 5 {
            return (0, 0);
        }
        let mut covered: u64 = 0;
        let mut total: u64 = 0;
        let mut i: usize = 4;
        while i < n
            invariant
                n == tokens@.len(),
                brain_wf(self@),
                4 <= i <= n,
                covered == covered_upto(self@, tokens@, i as int),
                covered <= i,
                total == i - 4,
            decreases n - i,
        {
            let context = vstd::slice::slice_subrange(tokens, i - 4, i);
            if self.predicts_token(context, tokens[i]) {
                covered = covered + 1;
            }
            total = total + 1;
            i = i + 1;
        }
        (covered, total)
    }
}

proof fn lemma_sum_totals_take(ts: Seq<TableView>, i: int)
    requires
        0 <= i <= ts.len(),
    ensures
        sum_totals(ts.take(i)) <= sum_totals(ts),
    decreases ts.len() - i,
{
    if i < ts.len() {
        assert(ts.take(i + 1).drop_last() =~= ts.take(i));
        lemma_sum_totals_take(ts, i + 1);
    } else {
        assert(ts.take(i) =~= ts);
    }
}

/// Serialized weights: each as a 64-bit little-endian number.
pub open spec fn weights_bytes(ws: Seq<u64>) -> Seq<u8>
    decreases ws.len(),
{
    if ws.len() == 0 {
        seq![]
    } else {
        weights_bytes(ws.drop_last()) + spec_u64_to_le_bytes(ws.last())
    }
}

/// One table as stored in a brain: its byte length (64 bits, little-endian)
/// then its bytes.
pub open spec fn section_bytes(t: TableView) -> Seq<u8> {
    spec_u64_to_le_bytes(table_bytes(t).len() as u64) + table_bytes(t)
}

/// Stored tables, back to back in order.
pub open spec fn sections_bytes(ts: Seq<TableView>) -> Seq<u8>
    decreases ts.len(),
{
    if ts.len() == 0 {
        seq![]
    } else {
        section_bytes(ts[0]) + sections_bytes(ts.drop_first())
    }
}

/// Serialized brain: the number of tables (one byte), every weight, the
/// tokens trained (64 bits, little-endian), then every table.
pub open spec fn brain_bytes(b: BrainView) -> Seq<u8> {
    seq![b.tables.len() as u8] + weights_bytes(b.weight_bits) + spec_u64_to_le_bytes(b.tokens_trained)
        + sections_bytes(b.tables)
}

/// `n` weights stored from byte `p` of `d`.
pub open spec fn weights_at(d: Seq<u8>, p: int, n: nat) -> Seq<u64> {
    Seq::new(n, |i: int| u64_at(d, p + 8 * i))
}

/// `k` stored tables read from the front of `d`, and the bytes they take; the
/// first error met otherwise.
pub open spec fn parse_tables(d: Seq<u8>, k: nat) -> Result<(Seq<TableView>, nat), BrainError>
    decreases k,
{
    if k == 0 {
        Ok((seq![], 0))
    } else if d.len() < 8 || d.len() - 8 < u64_at(d, 0) {
        Err(BrainError::TruncatedData)
    } else {
        let n = u64_at(d, 0) as int;
        match parse_table(d.subrange(8, 8 + n)) {
            Err(e) => Err(e),
            Ok((t, _)) => match parse_tables(d.skip(8 + n), (k - 1) as nat) {
                Err(e) => Err(e),
                Ok((ts, used)) => Ok((seq![t] + ts, (8 + n + used) as nat)),
            },
        }
    }
}

/// Whether every stored table that reading `k` tables from `d` reaches
/// starts with an order of at least 2 (where it holds the 9 bytes of order
/// and context count).
pub open spec fn tables_accepted(d: Seq<u8>, k: nat) -> bool
    decreases k,
{
    if k == 0 || d.len() < 8 || d.len() - 8 < u64_at(d, 0) {
        true
    } else {
        let n = u64_at(d, 0) as int;
        let sec = d.subrange(8, 8 + n);
        &&& (sec.len() >= 9 ==> sec[0] >= 2)
        &&& (parse_table(sec) is Ok ==> tables_accepted(d.skip(8 + n), (k - 1) as nat))
    }
}

/// Parses a serialized brain from the front of `d`: the brain and the bytes
/// consumed, or the first error met.
pub open spec fn parse_brain(d: Seq<u8>) -> Result<(BrainView, nat), BrainError> {
    if d.len() < 1 || d.len() < 9 + 8 * d[0] {
        Err(BrainError::TruncatedData)
    } else {
        let nt = d[0] as nat;
        match parse_tables(d.skip(9 + 8 * nt as int), nt) {
            Err(e) => Err(e),
            Ok((ts, used)) => Ok(
                (
                    BrainView { tables: ts, weight_bits: weights_at(d, 1, nt), tokens_trained: u64_at(d, 1 + 8 * nt as int) },
                    9 + 8 * nt + used,
                ),
            ),
        }
    }
}

/// Whether every stored table that reading a brain from `d` reaches starts
/// with an order of at least 2 (see [`tables_accepted`]).
pub open spec fn brain_accepted(d: Seq<u8>) -> bool {
    d.len() >= 1 && d.len() >= 9 + 8 * d[0] ==> tables_accepted(d.skip(9 + 8 * d[0]), d[0] as nat)
}

/// A table as it reads back from its bytes: same order and entries, its
/// counter the number of associations, no eviction budget.
pub open spec fn restored(t: TableView) -> TableView {
    TableView { order: t.order, entries: t.entries, total: num_pairs(t.entries) as u64, max_entries: 0 }
}

/// Puts already-read tables and their byte count in front of a parse result.
pub open spec fn prepend_tables(
    ts: Seq<TableView>,
    used: nat,
    r: Result<(Seq<TableView>, nat), BrainError>,
) -> Result<(Seq<TableView>, nat), BrainError> {
    match r {
        Ok((rest, n)) => Ok((ts + rest, used + n)),
        Err(e) => Err(e),
    }
}

proof fn lemma_prepend_tables_push(
    ts: Seq<TableView>,
    t: TableView,
    used: nat,
    step: nat,
    r: Result<(Seq<TableView>, nat), BrainError>,
)
    ensures
        prepend_tables(ts, used, prepend_tables(seq![t], step, r)) == prepend_tables(ts.push(t), used + step, r),
{
    match r {
        Ok((rest, n)) => {
            assert(ts + (seq![t] + rest) =~= ts.push(t) + rest);
        },
        Err(e) => {},
    }
}

proof fn lemma_sections_bytes_push(ts: Seq<TableView>, t: TableView)
    ensures
        sections_bytes(ts.push(t)) == sections_bytes(ts) + section_bytes(t),
    decreases ts.len(),
{
    if ts.len() == 0 {
        assert(ts.push(t).drop_first() =~= Seq::<TableView>::empty());
        assert(ts.push(t)[0] == t);
        assert(sections_bytes(ts.push(t).drop_first()) =~= Seq::<u8>::empty());
        assert(sections_bytes(ts.push(t)) =~= section_bytes(t));
        assert(sections_bytes(ts) =~= Seq::<u8>::empty());
    } else {
        assert(ts.push(t).drop_first() =~= ts.drop_first().push(t));
        lemma_sections_bytes_push(ts.drop_first(), t);
        assert(ts.push(t)[0] == ts[0]);
        assert(sections_bytes(ts.push(t)) =~= sections_bytes(ts) + section_bytes(t));
    }
}

/// Whether a table's serialized form fits the 64-bit length fields.
pub open spec fn table_fits(t: TableView) -> bool {
    t.entries.len() <= u64::MAX && table_bytes(t).len() <= u64::MAX
}

/// Stored tables read back as the tables restored, and every order read is
/// accepted.
proof fn lemma_parse_tables_of_bytes(ts: Seq<TableView>, rest: Seq<u8>)
    requires
        forall|i: int| 0 <= i < ts.len() ==> table_wf(#[trigger] ts[i]) && table_fits(ts[i]),
    ensures
        parse_tables(sections_bytes(ts) + rest, ts.len()) == Ok::<(Seq<TableView>, nat), BrainError>(
            (ts.map_values(|t: TableView| restored(t)), sections_bytes(ts).len()),
        ),
        tables_accepted(sections_bytes(ts) + rest, ts.len()),
    decreases ts.len(),
{
    if ts.len() > 0 {
        let t = ts[0];
        let tail = ts.drop_first();
        assert forall|i: int| 0 <= i < tail.len() implies table_wf(#[trigger] tail[i]) && table_fits(tail[i]) by {
            assert(tail[i] == ts[i + 1]);
        }
        lemma_parse_tables_of_bytes(tail, rest);
        assert(table_wf(ts[0]) && table_fits(ts[0]));
        let tb = table_bytes(t);
        lemma_table_roundtrip(t, Seq::empty());
        assert(tb + Seq::<u8>::empty() =~= tb);
        let hdr = spec_u64_to_le_bytes(tb.len() as u64);
        lemma_u64_roundtrip(tb.len() as u64);
        let x = sections_bytes(ts) + rest;
        assert(x =~= hdr + tb + (sections_bytes(tail) + rest));
        assert(x.subrange(0, 8) =~= hdr);
        let n = tb.len() as int;
        assert(x.subrange(8, 8 + n) =~= tb);
        assert(x.skip(8 + n) =~= sections_bytes(tail) + rest);
        assert(tb[0] == t.order);
        assert(seq![restored(t)] + tail.map_values(|t: TableView| restored(t)) =~= ts.map_values(
            |t: TableView| restored(t),
        ));
    } else {
        assert(ts.map_values(|t: TableView| restored(t)) =~= Seq::<TableView>::empty());
    }
}

/// Serializing a well-formed brain and parsing the bytes back, whatever
/// follows them, gives the same weights and tokens trained and every table
/// restored (same order and entries, its counter the number of associations,
/// no eviction budget), consumes exactly the serialized bytes, and every
/// order read is accepted.
pub proof fn lemma_brain_roundtrip(b: BrainView, rest: Seq<u8>)
    requires
        brain_wf(b),
        forall|i: int| 0 <= i < b.tables.len() ==> table_fits(#[trigger] b.tables[i]),
    ensures
        parse_brain(brain_bytes(b) + rest) == Ok::<(BrainView, nat), BrainError>(
            (
                BrainView {
                    tables: b.tables.map_values(|t: TableView| restored(t)),
                    weight_bits: b.weight_bits,
                    tokens_trained: b.tokens_trained,
                },
                brain_bytes(b).len(),
            ),
        ),
        brain_accepted(brain_bytes(b) + rest),
{
    let nt = b.tables.len() as int;
    lemma_parse_tables_of_bytes(b.tables, rest);
    lemma_weights_bytes(b.weight_bits, spec_u64_to_le_bytes(b.tokens_trained) + sections_bytes(b.tables) + rest);
    lemma_u64_roundtrip(b.tokens_trained);
    let x = brain_bytes(b) + rest;
    let wb = weights_bytes(b.weight_bits);
    assert(x =~= seq![b.tables.len() as u8] + (wb + (spec_u64_to_le_bytes(b.tokens_trained) + sections_bytes(b.tables) + rest)));
    assert(x[0] == nt);
    assert(x.subrange(1 + 8 * nt, 9 + 8 * nt) =~= spec_u64_to_le_bytes(b.tokens_trained));
    assert(x.skip(9 + 8 * nt) =~= sections_bytes(b.tables) + rest);
    assert(weights_at(x, 1, nt as nat) =~= b.weight_bits) by {
        assert forall|i: int| 0 <= i < nt implies #[trigger] weights_at(x, 1, nt as nat)[i] == b.weight_bits[i] by {
            let y = wb + (spec_u64_to_le_bytes(b.tokens_trained) + sections_bytes(b.tables) + rest);
            assert(x.subrange(1 + 8 * i, 1 + 8 * i + 8) =~= y.subrange(8 * i, 8 * i + 8));
            assert(weights_at(y, 0, nt as nat)[i] == b.weight_bits[i]);
        }
    }
}

/// A weight list's bytes are eight per weight and read back as the weights.
proof fn lemma_weights_bytes(ws: Seq<u64>, rest: Seq<u8>)
    ensures
        weights_bytes(ws).len() == 8 * ws.len(),
        weights_at(weights_bytes(ws) + rest, 0, ws.len()) == ws,
    decreases ws.len(),
{
    if ws.len() > 0 {
        let d = ws.drop_last();
        let enc = spec_u64_to_le_bytes(ws.last());
        lemma_u64_roundtrip(ws.last());
        lemma_weights_bytes(d, enc + rest);
        let x = weights_bytes(ws) + rest;
        assert(x =~= weights_bytes(d) + (enc + rest));
        let n = d.len() as int;
        assert(x.subrange(8 * n, 8 * n + 8) =~= enc);
        assert forall|i: int| 0 <= i < ws.len() implies #[trigger] weights_at(x, 0, ws.len())[i] == ws[i] by {
            if i < n {
                assert(weights_at(x, 0, d.len())[i] == d[i]);
            }
        }
        assert(weights_at(x, 0, ws.len()) =~= ws);
    } else {
        assert(weights_at(weights_bytes(ws) + rest, 0, ws.len()) =~= ws);
    }
}

} // verus!
