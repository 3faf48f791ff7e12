//! An in-memory text index: documents by id, searched by the number of query
//! words each contains.

use vstd::prelude::*;
use crate::text::{
    chars_of, contains_chars, has_substring, split_whitespace_chars, str_eq, to_lowercase, unicode_lowercase, ws_split,
};

verus! {

/// The indexed documents as (id, text) pairs, in order.
pub type Docs = Seq<(Seq<char>, Seq<char>)>;

/// The documents whose id is not `id`, in order.
pub open spec fn docs_without(ds: Docs, id: Seq<char>) -> Docs
    decreases ds.len(),
{
    if ds.len() == 0 {
        seq![]
    } else if ds.last().0 == id {
        docs_without(ds.drop_last(), id)
    } else {
        docs_without(ds.drop_last(), id).push(ds.last())
    }
}

/// How many of `terms` occur in `text` (a term listed twice counts twice).
pub open spec fn term_hits(text: Seq<char>, terms: Seq<Seq<char>>) -> nat
    decreases terms.len(),
{
    if terms.len() == 0 {
        0
    } else if has_substring(text, terms.last()) {
        term_hits(text, terms.drop_last()) + 1
    } else {
        term_hits(text, terms.drop_last())
    }
}

/// The query words: the lowercase query split at whitespace.
pub open spec fn query_terms(query: Seq<char>) -> Seq<Seq<char>> {
    ws_split(unicode_lowercase(query))
}

/// How many query words a document's lowercase text contains.
pub open spec fn doc_hits(d: (Seq<char>, Seq<char>), terms: Seq<Seq<char>>) -> nat {
    term_hits(unicode_lowercase(d.1), terms)
}

/// The (id, hits) of the documents with exactly `k` hits, in document order.
pub open spec fn hits_with(ds: Docs, terms: Seq<Seq<char>>, k: nat) -> Seq<(Seq<char>, nat)>
    decreases ds.len(),
{
    if ds.len() == 0 {
        seq![]
    } else if doc_hits(ds.last(), terms) == k {
        hits_with(ds.drop_last(), terms, k).push((ds.last().0, k))
    } else {
        hits_with(ds.drop_last(), terms, k)
    }
}

/// The documents with between 1 and `k` hits: most hits first, documents
/// with equally many hits in document order.
pub open spec fn ranked_from(ds: Docs, terms: Seq<Seq<char>>, k: nat) -> Seq<(Seq<char>, nat)>
    decreases k,
{
    if k == 0 {
        seq![]
    } else {
        hits_with(ds, terms, k) + ranked_from(ds, terms, (k - 1) as nat)
    }
}

/// The search ranking of a query: every document containing at least one
/// query word, most words first, ties in document order.
pub open spec fn ranking(ds: Docs, query: Seq<char>) -> Seq<(Seq<char>, nat)> {
    ranked_from(ds, query_terms(query), query_terms(query).len())
}

/// Simple in-memory index for testing and small-scale use: naive substring
/// matching of query words.
#[derive(Debug)]
pub struct InMemoryIndex {
    documents: Vec<(String, String)>,
}

/// The documents' view.
pub open spec fn docs_view(v: Seq<(String, String)>) -> Docs {
    v.map_values(|d: (String, String)| (d.0@, d.1@))
}

impl View for InMemoryIndex {
    type V = Docs;

    closed spec fn view(&self) -> Docs {
        docs_view(self.documents@)
    }
}

impl Default for InMemoryIndex {
    fn default() -> (ix: Self)
        ensures
            ix@ == Seq::<(Seq<char>, Seq<char>)>::empty(),
    {
        let ix = InMemoryIndex { documents: Vec::new() };
        assert(docs_view(ix.documents@) =~= Seq::<(Seq<char>, Seq<char>)>::empty());
        ix
    }
}

/// How many of `terms` occur in `text`.
fn count_hits(text: &[char], terms: &Vec<Vec<char>>) -> (n: usize)
    ensures
        n == term_hits(text@, terms@.map_values(|w: Vec<char>| w@)),
{
    let ghost ts = terms@.map_values(|w: Vec<char>| w@);
    let mut n: usize = 0;
    let mut k: usize = 0;
    assert(ts.take(0) =~= Seq::<Seq<char>>::empty());
    while k < terms.len()
        invariant
            ts == terms@.map_values(|w: Vec<char>| w@),
            0 <= k <= terms@.len(),
            n == term_hits(text@, ts.take(k as int)),
            n <= k,
        decreases terms@.len() - k,
    {
        proof {
            assert(ts.take(k + 1).drop_last() =~= ts.take(k as int));
            assert(ts.take(k + 1).last() == terms@[k as int]@);
        }
        if contains_chars(text, terms[k].as_slice()) {
            n = n + 1;
        }
        k = k + 1;
    }
    assert(ts.take(terms@.len() as int) =~= ts);
    n
}

impl InMemoryIndex {
    /// Drops every document whose id is `id`.
    fn drop_id(&mut self, id: &str)
        ensures
            final(self)@ == docs_without(old(self)@, id@),
    {
        let ghost s0 = self@;
        let ghost mut j: int = 0;
        let mut i: usize = 0;
        assert(s0.take(0) =~= Seq::<(Seq<char>, Seq<char>)>::empty());
        assert(self@ =~= docs_without(s0.take(0), id@) + s0.skip(0));
        while i < self.documents.len()
            invariant
                0 <= j <= s0.len(),
                self@ == docs_without(s0.take(j), id@) + s0.skip(j),
                i == docs_without(s0.take(j), id@).len(),
                self.documents@.len() == i + s0.len() - j,
            decreases self.documents@.len() - i,
        {
            let ghost before = self@;
            let ghost raw_before = self.documents@;
            let ghost w = docs_without(s0.take(j), id@);
            assert(before[i as int] == s0[j]);
            assert(s0.take(j + 1).drop_last() =~= s0.take(j));
            assert(s0.take(j + 1).last() == s0[j]);
            assert(s0.skip(j) =~= seq![s0[j]] + s0.skip(j + 1));
            if str_eq(self.documents[i].0.as_str(), id) {
                let _removed = self.documents.remove(i);
                proof {
                    assert(before =~= w + (seq![s0[j]] + s0.skip(j + 1)));
                    assert(self.documents@ =~= raw_before.remove(i as int));
                    assert(self@ =~= before.remove(i as int));
                    assert(before.remove(i as int) =~= w + s0.skip(j + 1));
                    assert(self@ =~= docs_without(s0.take(j + 1), id@) + s0.skip(j + 1));
                    j = j + 1;
                }
            } else {
                i = i + 1;
                proof {
                    assert(self@ =~= docs_without(s0.take(j + 1), id@) + s0.skip(j + 1));
                    j = j + 1;
                }
            }
        }
        assert(s0.take(j) =~= s0);
        assert(self@ =~= docs_without(s0, id@));
    }

    /// Index a document with the given ID and text content, replacing any
    /// document with the same ID.
    pub fn index(&mut self, id: &str, text: &str)
        ensures
            final(self)@ == docs_without(old(self)@, id@).push((id@, text@)),
    {
        self.drop_id(id);
        let ghost before = self.documents@;
        let entry = (id.to_string(), text.to_string());
        self.documents.push(entry);
        assert(self@ =~= docs_without(old(self)@, id@).push((id@, text@)));
    }

    /// Remove a document from the index.
    pub fn remove(&mut self, id: &str)
        ensures
            final(self)@ == docs_without(old(self)@, id@),
    {
        self.drop_id(id);
    }

    /// Number of documents in the index.
    pub fn len(&self) -> (n: usize)
        ensures
            n == self@.len(),
    {
        self.documents.len()
    }

    /// Whether the index is empty.
    pub fn is_empty(&self) -> (b: bool)
        ensures
            b == (self@.len() == 0),
    {
        self.documents.len() == 0
    }

    /// Search for documents matching the query: the first `top_k` of the
    /// ranking (see [`ranking`]) as (id, number of query words contained),
    /// and the number of query words. A document's relevance score is its
    /// number of words over the number of query words (over 1 when there is
    /// none).
    pub fn search_hits(&self, query: &str, top_k: usize) -> (r: (Vec<(String, usize)>, usize))
        ensures
            r.0@.map_values(|x: (String, usize)| (x.0@, x.1 as nat)) == ranking(self@, query@).take(
                if top_k < ranking(self@, query@).len() {
                    top_k as int
                } else {
                    ranking(self@, query@).len() as int
                },
            ),
            r.1 == query_terms(query@).len(),
    {
        let lower = to_lowercase(query);
        let qchars = chars_of(lower.as_str());
        let terms = split_whitespace_chars(qchars.as_slice());
        let ghost ts = terms@.map_values(|w: Vec<char>| w@);
        let ghost ds = self@;
        let nd = self.documents.len();
        let mut hits: Vec<usize> = Vec::new();
        let mut d: usize = 0;
        while d < nd
            invariant
                nd == self.documents@.len(),
                ds == self@,
                ts == terms@.map_values(|w: Vec<char>| w@),
                ts == query_terms(query@),
                0 <= d <= nd,
                hits@.len() == d,
                forall|q: int| 0 <= q < d ==> #[trigger] hits@[q] == doc_hits(ds[q], ts),
                forall|q: int| 0 <= q < d ==> #[trigger] hits@[q] <= ts.len(),
            decreases nd - d,
        {
            let text_lower = to_lowercase(self.documents[d].1.as_str());
            let tchars = chars_of(text_lower.as_str());
            let h = count_hits(tchars.as_slice(), &terms);
            proof {
                assert(ds[d as int].1 == self.documents@[d as int].1@);
                lemma_term_hits_le(unicode_lowercase(ds[d as int].1), ts);
            }
            hits.push(h);
            d = d + 1;
        }
        let nterms = terms.len();
        let mut out: Vec<(String, usize)> = Vec::new();
        let mut k: usize = nterms;
        let ghost mut done: Seq<(Seq<char>, nat)> = Seq::empty();
        while k > 0
            invariant
                nd == self.documents@.len(),
                ds == self@,
                ts == query_terms(query@),
                nterms == ts.len(),
                0 <= k <= nterms,
                hits@.len() == nd,
                forall|q: int| 0 <= q < nd ==> #[trigger] hits@[q] == doc_hits(ds[q], ts),
                out@.map_values(|x: (String, usize)| (x.0@, x.1 as nat)) + ranked_from(ds, ts, k as nat)
                    == ranked_from(ds, ts, nterms as nat),
            decreases k,
        {
            let mut q: usize = 0;
            let ghost start = out@.map_values(|x: (String, usize)| (x.0@, x.1 as nat));
            assert(ds.take(0) =~= Seq::<(Seq<char>, Seq<char>)>::empty());
            assert(start + hits_with(ds.take(0), ts, k as nat) =~= start);
            while q < nd
                invariant
                    nd == self.documents@.len(),
                    ds == self@,
                    0 <= q <= nd,
                    hits@.len() == nd,
                    forall|p: int| 0 <= p < nd ==> #[trigger] hits@[p] == doc_hits(ds[p], ts),
                    out@.map_values(|x: (String, usize)| (x.0@, x.1 as nat)) == start + hits_with(ds.take(q as int), ts, k as nat),
                decreases nd - q,
            {
                proof {
                    assert(ds.take(q + 1).drop_last() =~= ds.take(q as int));
                    assert(ds.take(q + 1).last() == ds[q as int]);
                }
                if hits[q] == k {
                    let ghost before = out@;
                    let id = self.documents[q].0.clone();
                    out.push((id, k));
                    proof {
                        assert(ds[q as int].0 == self.documents@[q as int].0@);
                        assert(out@.map_values(|x: (String, usize)| (x.0@, x.1 as nat)) =~= before.map_values(
                            |x: (String, usize)| (x.0@, x.1 as nat),
                        ).push((ds[q as int].0, k as nat)));
                    }
                }
                q = q + 1;
            }
            proof {
                assert(ds.take(nd as int) =~= ds);
                assert(ranked_from(ds, ts, k as nat) == hits_with(ds, ts, k as nat) + ranked_from(ds, ts, (k - 1) as nat));
                assert(start + (hits_with(ds, ts, k as nat) + ranked_from(ds, ts, (k - 1) as nat)) =~= (start
                    + hits_with(ds, ts, k as nat)) + ranked_from(ds, ts, (k - 1) as nat));
            }
            k = k - 1;
        }
        let ghost full = out@.map_values(|x: (String, usize)| (x.0@, x.1 as nat));
        assert(full + ranked_from(ds, ts, 0) =~= full);
        let ghost before_trunc = out@;
        out.truncate(top_k);
        proof {
            assert(out@.map_values(|x: (String, usize)| (x.0@, x.1 as nat)) =~= full.take(
                if top_k < full.len() {
                    top_k as int
                } else {
                    full.len() as int
                },
            ));
        }
        (out, nterms)
    }
}

proof fn lemma_term_hits_le(text: Seq<char>, terms: Seq<Seq<char>>)
    ensures
        term_hits(text, terms) <= terms.len(),
    decreases terms.len(),
{
    if terms.len() > 0 {
        lemma_term_hits_le(text, terms.drop_last());
    }
}

/// No two documents share an id.
pub open spec fn ids_distinct(ds: Docs) -> bool {
    forall|i: int, j: int| 0 <= i < j < ds.len() ==> (#[trigger] ds[i]).0 != (#[trigger] ds[j]).0
}

proof fn lemma_docs_without(ds: Docs, id: Seq<char>)
    ensures
        forall|i: int| 0 <= i < docs_without(ds, id).len() ==> (#[trigger] docs_without(ds, id)[i]).0 != id,
        forall|i: int| 0 <= i < docs_without(ds, id).len() ==> exists|j: int| 0 <= j < ds.len() && #[trigger] docs_without(ds, id)[i] == ds[j],
        ids_distinct(ds) ==> ids_distinct(docs_without(ds, id)),
    decreases ds.len(),
{
    if ds.len() > 0 {
        let d = ds.drop_last();
        lemma_docs_without(d, id);
        let r = docs_without(ds, id);
        let rd = docs_without(d, id);
        assert forall|i: int| 0 <= i < r.len() implies exists|j: int| 0 <= j < ds.len() && #[trigger] r[i] == ds[j] by {
            if i < rd.len() {
                assert(r[i] == rd[i]);
                let j = choose|j: int| 0 <= j < d.len() && rd[i] == d[j];
                assert(d[j] == ds[j]);
            } else {
                assert(r[i] == ds[ds.len() - 1]);
            }
        }
        if ids_distinct(ds) {
            assert(ids_distinct(d)) by {
                assert forall|i: int, j: int| 0 <= i < j < d.len() implies (#[trigger] d[i]).0 != (#[trigger] d[j]).0 by {
                    assert(d[i] == ds[i] && d[j] == ds[j]);
                }
            }
            if ds.last().0 != id {
                assert forall|a: int, b: int| 0 <= a < b < r.len() implies (#[trigger] r[a]).0 != (#[trigger] r[b]).0 by {
                    if b < rd.len() {
                        assert(r[a] == rd[a] && r[b] == rd[b]);
                    } else {
                        assert(r[b] == ds[ds.len() - 1]);
                        assert(r[a] == rd[a]);
                        let j = choose|j: int| 0 <= j < d.len() && rd[a] == d[j];
                        assert(d[j] == ds[j]);
                    }
                }
            }
        }
    }
}

/// Indexing and removing keep document ids distinct.
pub proof fn lemma_index_ids_distinct(ds: Docs, id: Seq<char>, text: Seq<char>)
    requires
        ids_distinct(ds),
    ensures
        ids_distinct(docs_without(ds, id)),
        ids_distinct(docs_without(ds, id).push((id, text))),
{
    lemma_docs_without(ds, id);
    let r = docs_without(ds, id);
    let p = r.push((id, text));
    assert forall|a: int, b: int| 0 <= a < b < p.len() implies (#[trigger] p[a]).0 != (#[trigger] p[b]).0 by {
        if b < r.len() {
            assert(p[a] == r[a] && p[b] == r[b]);
        } else {
            assert(p[a] == r[a]);
        }
    }
}

proof fn lemma_hits_with(ds: Docs, terms: Seq<Seq<char>>, k: nat)
    ensures
        forall|i: int| 0 <= i < hits_with(ds, terms, k).len() ==> (#[trigger] hits_with(ds, terms, k)[i]).1 == k,
        forall|i: int| 0 <= i < hits_with(ds, terms, k).len() ==> exists|j: int| 0 <= j < ds.len() && ds[j].0 == (#[trigger] hits_with(ds, terms, k)[i]).0 && doc_hits(ds[j], terms) == k,
        forall|j: int| 0 <= j < ds.len() && doc_hits(#[trigger] ds[j], terms) == k ==> exists|i: int| 0 <= i < hits_with(ds, terms, k).len() && (#[trigger] hits_with(ds, terms, k)[i]).0 == ds[j].0,
        ids_distinct(ds) ==> forall|a: int, b: int| 0 <= a < b < hits_with(ds, terms, k).len() ==> (#[trigger] hits_with(ds, terms, k)[a]).0 != (#[trigger] hits_with(ds, terms, k)[b]).0,
    decreases ds.len(),
{
    if ds.len() > 0 {
        let d = ds.drop_last();
        lemma_hits_with(d, terms, k);
        let r = hits_with(ds, terms, k);
        let rd = hits_with(d, terms, k);
        let last = ds.last();
        assert(last == ds[ds.len() - 1]);
        assert forall|i: int| 0 <= i < r.len() implies (#[trigger] r[i]).1 == k by {
            if i < rd.len() {
                assert(r[i] == rd[i]);
            }
        }
        assert forall|i: int| 0 <= i < r.len() implies exists|j: int| 0 <= j < ds.len() && ds[j].0 == (#[trigger] r[i]).0 && doc_hits(ds[j], terms) == k by {
            if i < rd.len() {
                assert(r[i] == rd[i]);
                let j = choose|j: int| 0 <= j < d.len() && d[j].0 == rd[i].0 && doc_hits(d[j], terms) == k;
                assert(d[j] == ds[j]);
            } else {
                assert(ds[ds.len() - 1].0 == r[i].0);
            }
        }
        assert forall|j: int| 0 <= j < ds.len() && doc_hits(#[trigger] ds[j], terms) == k implies exists|i: int| 0 <= i < r.len() && (#[trigger] r[i]).0 == ds[j].0 by {
            if j < d.len() {
                assert(d[j] == ds[j]);
                assert(doc_hits(d[j], terms) == k);
                let i = choose|i: int| 0 <= i < rd.len() && (#[trigger] rd[i]).0 == d[j].0;
                assert(r[i] == rd[i]);
            } else {
                assert(r[r.len() - 1].0 == ds[j].0);
            }
        }
        if ids_distinct(ds) {
            assert(ids_distinct(d)) by {
                assert forall|i: int, j: int| 0 <= i < j < d.len() implies (#[trigger] d[i]).0 != (#[trigger] d[j]).0 by {
                    assert(d[i] == ds[i] && d[j] == ds[j]);
                }
            }
            assert forall|a: int, b: int| 0 <= a < b < r.len() implies (#[trigger] r[a]).0 != (#[trigger] r[b]).0 by {
                if b < rd.len() {
                    assert(r[a] == rd[a] && r[b] == rd[b]);
                } else {
                    assert(r[a] == rd[a]);
                    let j = choose|j: int| 0 <= j < d.len() && d[j].0 == rd[a].0 && doc_hits(d[j], terms) == k;
                    assert(d[j] == ds[j]);
                }
            }
        }
    }
}

proof fn lemma_ranked_from_hits(ds: Docs, terms: Seq<Seq<char>>, k: nat)
    ensures
        forall|i: int| 0 <= i < ranked_from(ds, terms, k).len() ==> 1 <= (#[trigger] ranked_from(ds, terms, k)[i]).1 <= k,
        forall|a: int, b: int| 0 <= a < b < ranked_from(ds, terms, k).len() ==> (#[trigger] ranked_from(ds, terms, k)[a]).1 >= (#[trigger] ranked_from(ds, terms, k)[b]).1,
    decreases k,
{
    if k > 0 {
        let km = (k - 1) as nat;
        lemma_ranked_from_hits(ds, terms, km);
        lemma_hits_with(ds, terms, k);
        let h = hits_with(ds, terms, k);
        let rr = ranked_from(ds, terms, km);
        let r = ranked_from(ds, terms, k);
        assert(r == h + rr);
        assert forall|i: int| 0 <= i < r.len() implies 1 <= (#[trigger] r[i]).1 <= k by {
            if i < h.len() {
                assert(r[i] == h[i]);
            } else {
                assert(r[i] == rr[i - h.len()]);
            }
        }
        assert forall|a: int, b: int| 0 <= a < b < r.len() implies (#[trigger] r[a]).1 >= (#[trigger] r[b]).1 by {
            if b < h.len() {
                assert(r[a] == h[a] && r[b] == h[b]);
            } else if a < h.len() {
                assert(r[a] == h[a] && r[b] == rr[b - h.len()]);
            } else {
                assert(r[a] == rr[a - h.len()] && r[b] == rr[b - h.len()]);
            }
        }
    }
}

proof fn lemma_ranked_from_sound(ds: Docs, terms: Seq<Seq<char>>, k: nat)
    ensures
        forall|i: int| 0 <= i < ranked_from(ds, terms, k).len() ==> exists|j: int| 0 <= j < ds.len() && ds[j].0 == (#[trigger] ranked_from(ds, terms, k)[i]).0 && doc_hits(ds[j], terms) == ranked_from(ds, terms, k)[i].1,
    decreases k,
{
    if k > 0 {
        let km = (k - 1) as nat;
        lemma_ranked_from_sound(ds, terms, km);
        lemma_hits_with(ds, terms, k);
        let h = hits_with(ds, terms, k);
        let rr = ranked_from(ds, terms, km);
        let r = ranked_from(ds, terms, k);
        assert(r == h + rr);
        assert forall|i: int| 0 <= i < r.len() implies exists|j: int| 0 <= j < ds.len() && ds[j].0 == (#[trigger] r[i]).0 && doc_hits(ds[j], terms) == r[i].1 by {
            if i < h.len() {
                assert(r[i] == h[i]);
                assert(h[i].1 == k);
            } else {
                assert(r[i] == rr[i - h.len()]);
            }
        }
    }
}

proof fn lemma_ranked_from_complete(ds: Docs, terms: Seq<Seq<char>>, k: nat)
    ensures
        forall|j: int| 0 <= j < ds.len() && 1 <= doc_hits(#[trigger] ds[j], terms) <= k ==> exists|i: int| 0 <= i < ranked_from(ds, terms, k).len() && (#[trigger] ranked_from(ds, terms, k)[i]).0 == ds[j].0 && ranked_from(ds, terms, k)[i].1 == doc_hits(ds[j], terms),
    decreases k,
{
    if k > 0 {
        let km = (k - 1) as nat;
        lemma_ranked_from_complete(ds, terms, km);
        lemma_hits_with(ds, terms, k);
        let h = hits_with(ds, terms, k);
        let rr = ranked_from(ds, terms, km);
        let r = ranked_from(ds, terms, k);
        assert(r == h + rr);
        assert forall|j: int| 0 <= j < ds.len() && 1 <= doc_hits(#[trigger] ds[j], terms) <= k implies exists|i: int| 0 <= i < r.len() && (#[trigger] r[i]).0 == ds[j].0 && r[i].1 == doc_hits(ds[j], terms) by {
            if doc_hits(ds[j], terms) == k {
                let i = choose|i: int| 0 <= i < h.len() && (#[trigger] h[i]).0 == ds[j].0;
                assert(r[i] == h[i]);
                assert(h[i].1 == k);
            } else {
                let i = choose|i: int| 0 <= i < rr.len() && (#[trigger] rr[i]).0 == ds[j].0 && rr[i].1 == doc_hits(ds[j], terms);
                assert(r[i + h.len()] == rr[i]);
            }
        }
    }
}

proof fn lemma_ranked_from_distinct(ds: Docs, terms: Seq<Seq<char>>, k: nat)
    requires
        ids_distinct(ds),
    ensures
        forall|a: int, b: int| 0 <= a < b < ranked_from(ds, terms, k).len() ==> (#[trigger] ranked_from(ds, terms, k)[a]).0 != (#[trigger] ranked_from(ds, terms, k)[b]).0,
    decreases k,
{
    if k > 0 {
        let km = (k - 1) as nat;
        lemma_ranked_from_distinct(ds, terms, km);
        lemma_ranked_from_sound(ds, terms, km);
        lemma_hits_with(ds, terms, k);
        let h = hits_with(ds, terms, k);
        let rr = ranked_from(ds, terms, km);
        let r = ranked_from(ds, terms, k);
        assert(r == h + rr);
        assert forall|a: int, b: int| 0 <= a < b < r.len() implies (#[trigger] r[a]).0 != (#[trigger] r[b]).0 by {
            if b < h.len() {
                assert(r[a] == h[a] && r[b] == h[b]);
            } else if a < h.len() {
                assert(r[a] == h[a] && r[b] == rr[b - h.len()]);
                lemma_ranked_from_hits(ds, terms, km);
                let ja = choose|j: int| 0 <= j < ds.len() && ds[j].0 == h[a].0 && doc_hits(ds[j], terms) == k;
                let jb = choose|j: int| 0 <= j < ds.len() && ds[j].0 == rr[b - h.len()].0 && doc_hits(ds[j], terms) == rr[b - h.len()].1;
                assert(rr[b - h.len()].1 <= km);
                if ds[ja].0 == ds[jb].0 {
                    assert(ja != jb);
                    if ja < jb {
                        assert(ds[ja].0 != ds[jb].0);
                    } else {
                        assert(ds[jb].0 != ds[ja].0);
                    }
                }
            } else {
                assert(r[a] == rr[a - h.len()] && r[b] == rr[b - h.len()]);
            }
        }
    }
}

/// What a search ranks: the documents containing at least one query word,
/// each as (id, number of query words it contains), most words first; every
/// such document is ranked; and with distinct document ids (which indexing
/// keeps) no id is ranked twice. So the first `m` results are top scoring:
/// a matching document left out has no more words than any result kept.
pub proof fn lemma_search_ranking(ds: Docs, query: Seq<char>, m: int)
    ensures
        ({
            let r = ranking(ds, query);
            let terms = query_terms(query);
            &&& forall|a: int, b: int| 0 <= a < b < r.len() ==> (#[trigger] r[a]).1 >= (#[trigger] r[b]).1
            &&& forall|i: int| 0 <= i < r.len() ==> (#[trigger] r[i]).1 >= 1 && exists|j: int| 0 <= j < ds.len() && ds[j].0 == r[i].0 && doc_hits(ds[j], terms) == r[i].1
            &&& forall|j: int| 0 <= j < ds.len() && doc_hits(#[trigger] ds[j], terms) >= 1 ==> exists|i: int| 0 <= i < r.len() && r[i].0 == ds[j].0 && r[i].1 == doc_hits(ds[j], terms)
            &&& ids_distinct(ds) ==> forall|a: int, b: int| 0 <= a < b < r.len() ==> (#[trigger] r[a]).0 != (#[trigger] r[b]).0
            &&& forall|i: int, j: int| 0 <= i < m <= r.len() && 0 <= j < ds.len() && doc_hits(#[trigger] ds[j], terms) >= 1
                && (forall|q: int| 0 <= q < m ==> r[q].0 != ds[j].0) ==> (#[trigger] r[i]).1 >= doc_hits(ds[j], terms)
        }),
{
    let terms = query_terms(query);
    let r = ranking(ds, query);
    lemma_ranked_from_hits(ds, terms, terms.len());
    lemma_ranked_from_sound(ds, terms, terms.len());
    lemma_ranked_from_complete(ds, terms, terms.len());
    if ids_distinct(ds) {
        lemma_ranked_from_distinct(ds, terms, terms.len());
    }
    assert forall|j: int| 0 <= j < ds.len() && doc_hits(#[trigger] ds[j], terms) >= 1 implies exists|i: int| 0 <= i < r.len() && r[i].0 == ds[j].0 && r[i].1 == doc_hits(ds[j], terms) by {
        lemma_term_hits_le(unicode_lowercase(ds[j].1), terms);
    }
    assert forall|i: int, j: int| 0 <= i < m <= r.len() && 0 <= j < ds.len() && doc_hits(#[trigger] ds[j], terms) >= 1
        && (forall|q: int| 0 <= q < m ==> r[q].0 != ds[j].0) implies (#[trigger] r[i]).1 >= doc_hits(ds[j], terms) by {
        lemma_term_hits_le(unicode_lowercase(ds[j].1), terms);
        let p = choose|p: int| 0 <= p < r.len() && (#[trigger] r[p]).0 == ds[j].0 && r[p].1 == doc_hits(ds[j], terms);
        if p < m {
            assert(r[p].0 != ds[j].0);
        }
        if i < p {
            assert(r[i].1 >= r[p].1);
        }
    }
}

} // verus!
