//! Snippet storage for retrieval: the storage trait and an in-memory store.

use vstd::prelude::*;
use crate::text::str_eq;
use crate::tokenizer::vocab::strings_view;

verus! {

/// A snippet's fields as plain values.
pub struct SnippetView {
    pub id: Seq<char>,
    pub content: Seq<char>,
    pub source: Option<Seq<char>>,
    pub language: Option<Seq<char>>,
}

/// The characters of an optional string.
pub open spec fn opt_view(s: Option<String>) -> Option<Seq<char>> {
    match s {
        Some(x) => Some(x@),
        None => None,
    }
}

/// A code/text snippet stored in the RAG system.
#[derive(Debug, Clone)]
pub struct Snippet {
    /// Unique identifier
    pub id: String,
    /// The text content
    pub content: String,
    /// Source file path (if applicable)
    pub source: Option<String>,
    /// Language (e.g., "python", "rust", "javascript")
    pub language: Option<String>,
}

impl View for Snippet {
    type V = SnippetView;

    open spec fn view(&self) -> SnippetView {
        SnippetView {
            id: self.id@,
            content: self.content@,
            source: opt_view(self.source),
            language: opt_view(self.language),
        }
    }
}

/// The views of a list of snippets.
pub open spec fn snippets_view(s: Seq<Snippet>) -> Seq<SnippetView> {
    s.map_values(|x: Snippet| x@)
}

/// The views of a list of snippet references.
pub open spec fn snippet_refs_view(s: Seq<&Snippet>) -> Seq<SnippetView> {
    s.map_values(|x: &Snippet| x@)
}

/// The snippets whose id is not `id`, in order.
pub open spec fn without_id(s: Seq<SnippetView>, id: Seq<char>) -> Seq<SnippetView>
    decreases s.len(),
{
    if s.len() == 0 {
        seq![]
    } else if s.last().id == id {
        without_id(s.drop_last(), id)
    } else {
        without_id(s.drop_last(), id).push(s.last())
    }
}

/// The snippets after storing `x`: any snippet with its id dropped, then `x`
/// at the end.
pub open spec fn put_spec(s: Seq<SnippetView>, x: SnippetView) -> Seq<SnippetView> {
    without_id(s, x.id).push(x)
}

/// Position of the first snippet with id `id`, or -1.
pub open spec fn find_id(s: Seq<SnippetView>, id: Seq<char>) -> int
    decreases s.len(),
{
    if s.len() == 0 {
        -1
    } else if s[0].id == id {
        0
    } else {
        let r = find_id(s.drop_first(), id);
        if r < 0 {
            -1
        } else {
            r + 1
        }
    }
}

/// The snippets whose id is among `ids`, in stored order.
pub open spec fn with_ids(s: Seq<SnippetView>, ids: Seq<Seq<char>>) -> Seq<SnippetView>
    decreases s.len(),
{
    if s.len() == 0 {
        seq![]
    } else if ids.contains(s.last().id) {
        with_ids(s.drop_last(), ids).push(s.last())
    } else {
        with_ids(s.drop_last(), ids)
    }
}

/// Trait for persistent snippet storage, over the snippets it holds in order.
pub trait SnippetStore: Send + Sync {
    /// The stored snippets, in order.
    spec fn stored(&self) -> Seq<SnippetView>;

    /// Store a snippet. Overwrites if the ID already exists.
    fn put(&mut self, snippet: Snippet)
        ensures
            final(self).stored() == put_spec(old(self).stored(), snippet@),
    ;

    /// Retrieve a snippet by ID (the first stored with it).
    fn get(&self, id: &str) -> (r: Option<&Snippet>)
        ensures
            find_id(self.stored(), id@) < 0 ==> r is None,
            find_id(self.stored(), id@) >= 0 ==> (r matches Some(x) && x@ == self.stored()[find_id(
                self.stored(),
                id@,
            )]),
    ;

    /// Retrieve multiple snippets by their IDs (in stored order).
    fn get_many(&self, ids: &[String]) -> (r: Vec<&Snippet>)
        ensures
            snippet_refs_view(r@) == with_ids(self.stored(), strings_view(ids@)),
    ;

    /// Remove a snippet by ID.
    fn remove(&mut self, id: &str)
        ensures
            final(self).stored() == without_id(old(self).stored(), id@),
    ;

    /// Number of stored snippets.
    fn len(&self) -> (n: usize)
        ensures
            n == self.stored().len(),
    ;

    /// Whether the store is empty.
    fn is_empty(&self) -> (b: bool)
        ensures
            b == (self.stored().len() == 0),
    {
        self.len() == 0
    }
}

/// The snippets found for a ranked list of (id, value) pairs, in rank
/// order: each id the store holds gives its snippet (the first stored with
/// that id) with the id's value; ids it does not hold are skipped.
pub open spec fn found_in_order<T>(s: Seq<SnippetView>, ranked: Seq<(Seq<char>, T)>) -> Seq<(SnippetView, T)>
    decreases ranked.len(),
{
    if ranked.len() == 0 {
        seq![]
    } else {
        let rest = found_in_order(s, ranked.drop_last());
        let id = ranked.last().0;
        if find_id(s, id) >= 0 {
            rest.push((s[find_id(s, id)], ranked.last().1))
        } else {
            rest
        }
    }
}

/// The stored snippets for ranked search results (see [`found_in_order`]):
/// the rank order is kept, each with its result's value, and ids the store
/// lacks are dropped.
pub fn fetch_ranked<'a, S: SnippetStore, T: Copy>(store: &'a S, ranked: &[(String, T)]) -> (r: Vec<(&'a Snippet, T)>)
    ensures
        r@.map_values(|x: (&Snippet, T)| (x.0@, x.1)) == found_in_order(
            store.stored(),
            ranked@.map_values(|x: (String, T)| (x.0@, x.1)),
        ),
{
    let ghost rv = ranked@.map_values(|x: (String, T)| (x.0@, x.1));
    let mut out: Vec<(&'a Snippet, T)> = Vec::new();
    let mut i: usize = 0;
    while i < ranked.len()
        invariant
            0 <= i <= ranked@.len(),
            rv == ranked@.map_values(|x: (String, T)| (x.0@, x.1)),
            out@.map_values(|x: (&Snippet, T)| (x.0@, x.1)) == found_in_order(store.stored(), rv.take(i as int)),
        decreases ranked@.len() - i,
    {
        proof {
            assert(rv.take(i + 1).drop_last() =~= rv.take(i as int));
            assert(rv.take(i + 1).last() == rv[i as int]);
        }
        let ghost before = out@;
        match store.get(ranked[i].0.as_str()) {
            Some(x) => {
                out.push((x, ranked[i].1));
                assert(out@.map_values(|x: (&Snippet, T)| (x.0@, x.1)) =~= before.map_values(
                    |x: (&Snippet, T)| (x.0@, x.1),
                ).push((x@, ranked@[i as int].1)));
            },
            None => {},
        }
        i = i + 1;
    }
    assert(rv.take(ranked@.len() as int) =~= rv);
    out
}

/// Simple in-memory snippet store.
#[derive(Debug)]
pub struct InMemoryStore {
    snippets: Vec<Snippet>,
}

impl Default for InMemoryStore {
    fn default() -> (s: Self)
        ensures
            s.stored() == Seq::<SnippetView>::empty(),
    {
        let s = InMemoryStore { snippets: Vec::new() };
        assert(snippets_view(s.snippets@) =~= Seq::<SnippetView>::empty());
        s
    }
}

impl InMemoryStore {
    /// Drops every snippet whose id is `id`.
    fn drop_id(&mut self, id: &str)
        ensures
            snippets_view(final(self).snippets@) == without_id(snippets_view(old(self).snippets@), id@),
    {
        let ghost s0 = snippets_view(self.snippets@);
        let ghost mut j: int = 0;
        let mut i: usize = 0;
        assert(s0.take(0) =~= Seq::<SnippetView>::empty());
        assert(snippets_view(self.snippets@) =~= without_id(s0.take(0), id@) + s0.skip(0));
        while i < self.snippets.len()
            invariant
                0 <= j <= s0.len(),
                snippets_view(self.snippets@) == without_id(s0.take(j), id@) + s0.skip(j),
                i == without_id(s0.take(j), id@).len(),
                self.snippets@.len() == i + s0.len() - j,
            decreases self.snippets@.len() - i,
        {
            let ghost before = snippets_view(self.snippets@);
            assert(before[i as int] == s0[j]);
            assert(s0.take(j + 1).drop_last() =~= s0.take(j));
            assert(s0.take(j + 1).last() == s0[j]);
            let ghost w = without_id(s0.take(j), id@);
            let ghost raw_before = self.snippets@;
            assert(s0.skip(j) =~= seq![s0[j]] + s0.skip(j + 1));
            if str_eq(self.snippets[i].id.as_str(), id) {
                let _removed = self.snippets.remove(i);
                proof {
                    assert(before =~= w + (seq![s0[j]] + s0.skip(j + 1)));
                    assert(self.snippets@ =~= raw_before.remove(i as int));
                    assert(snippets_view(self.snippets@) =~= before.remove(i as int));
                    assert(before.remove(i as int) =~= w + s0.skip(j + 1));
                    assert(snippets_view(self.snippets@) =~= without_id(s0.take(j + 1), id@) + s0.skip(j + 1));
                    j = j + 1;
                }
            } else {
                i = i + 1;
                proof {
                    assert(snippets_view(self.snippets@) =~= without_id(s0.take(j + 1), id@) + s0.skip(j + 1));
                    j = j + 1;
                }
            }
        }
        assert(s0.take(j) =~= s0);
        assert(snippets_view(self.snippets@) =~= without_id(s0, id@));
    }

    /// Whether `id` is among `ids`.
    fn id_listed(ids: &[String], id: &str) -> (r: bool)
        ensures
            r == strings_view(ids@).contains(id@),
    {
        let mut k: usize = 0;
        while k < ids.len()
            invariant
                0 <= k <= ids@.len(),
                forall|q: int| 0 <= q < k ==> ids@[q]@ != id@,
            decreases ids@.len() - k,
        {
            if str_eq(ids[k].as_str(), id) {
                assert(strings_view(ids@)[k as int] == id@);
                return true;
            }
            k = k + 1;
        }
        proof {
            if strings_view(ids@).contains(id@) {
                let q = choose|q: int| 0 <= q < strings_view(ids@).len() && strings_view(ids@)[q] == id@;
                assert(ids@[q]@ == id@);
            }
        }
        false
    }
}

impl SnippetStore for InMemoryStore {
    closed spec fn stored(&self) -> Seq<SnippetView> {
        snippets_view(self.snippets@)
    }

    fn put(&mut self, snippet: Snippet) {
        self.drop_id(snippet.id.as_str());
        let ghost before = self.snippets@;
        self.snippets.push(snippet);
        assert(snippets_view(self.snippets@) =~= snippets_view(before).push(snippet@));
    }

    fn get(&self, id: &str) -> (r: Option<&Snippet>) {
        let ghost s = self.stored();
        let mut i: usize = 0;
        assert(s.skip(0) =~= s);
        while i < self.snippets.len()
            invariant
                s == snippets_view(self.snippets@),
                0 <= i <= s.len(),
                forall|q: int| 0 <= q < i ==> (#[trigger] s[q]).id != id@,
                find_id(s, id@) == if find_id(s.skip(i as int), id@) < 0 {
                    -1
                } else {
                    find_id(s.skip(i as int), id@) + i
                },
            decreases s.len() - i,
        {
            proof {
                assert(s.skip(i as int).drop_first() =~= s.skip(i + 1));
                assert(s.skip(i as int)[0] == s[i as int]);
            }
            if str_eq(self.snippets[i].id.as_str(), id) {
                return Some(&self.snippets[i]);
            }
            i = i + 1;
        }
        None
    }

    fn get_many(&self, ids: &[String]) -> (r: Vec<&Snippet>) {
        let ghost s = self.stored();
        let ghost iv = strings_view(ids@);
        let mut out: Vec<&Snippet> = Vec::new();
        let mut i: usize = 0;
        assert(s.take(0) =~= Seq::<SnippetView>::empty());
        assert(snippet_refs_view(out@) =~= Seq::<SnippetView>::empty());
        while i < self.snippets.len()
            invariant
                s == snippets_view(self.snippets@),
                iv == strings_view(ids@),
                0 <= i <= s.len(),
                snippet_refs_view(out@) == with_ids(s.take(i as int), iv),
            decreases s.len() - i,
        {
            proof {
                assert(s.take(i + 1).drop_last() =~= s.take(i as int));
                assert(s.take(i + 1).last() == s[i as int]);
            }
            if Self::id_listed(ids, self.snippets[i].id.as_str()) {
                let ghost before = out@;
                out.push(&self.snippets[i]);
                assert(snippet_refs_view(out@) =~= snippet_refs_view(before).push(s[i as int]));
            }
            i = i + 1;
        }
        assert(s.take(s.len() as int) =~= s);
        out
    }

    fn remove(&mut self, id: &str) {
        self.drop_id(id);
    }

    fn len(&self) -> (n: usize) {
        self.snippets.len()
    }
}

/// No snippet left by dropping an id has that id.
proof fn lemma_without_id_drops(s: Seq<SnippetView>, id: Seq<char>)
    ensures
        forall|i: int| 0 <= i < without_id(s, id).len() ==> (#[trigger] without_id(s, id)[i]).id != id,
    decreases s.len(),
{
    if s.len() > 0 {
        lemma_without_id_drops(s.drop_last(), id);
        let w = without_id(s.drop_last(), id);
        if s.last().id != id {
            assert forall|i: int| 0 <= i < without_id(s, id).len() implies (#[trigger] without_id(s, id)[i]).id != id by {
                if i < w.len() {
                    assert(without_id(s, id)[i] == w[i]);
                }
            }
        }
    }
}

/// Finding an id that no snippet has gives -1; otherwise the first snippet
/// that has it.
proof fn lemma_find_id(s: Seq<SnippetView>, id: Seq<char>)
    ensures
        -1 <= find_id(s, id) < s.len(),
        find_id(s, id) >= 0 ==> s[find_id(s, id)].id == id,
        (forall|i: int| 0 <= i < s.len() ==> (#[trigger] s[i]).id != id) <==> find_id(s, id) == -1,
        find_id(s, id) >= 0 ==> forall|i: int| 0 <= i < find_id(s, id) ==> (#[trigger] s[i]).id != id,
    decreases s.len(),
{
    if s.len() > 0 {
        let t = s.drop_first();
        lemma_find_id(t, id);
        assert forall|i: int| 0 <= i < t.len() implies t[i] == s[i + 1] by {}
        if find_id(s, id) == -1 {
            assert(s[0].id != id);
            assert forall|i: int| 0 <= i < s.len() implies (#[trigger] s[i]).id != id by {
                if i > 0 {
                    assert(s[i] == t[i - 1]);
                }
            }
        }
        if (forall|i: int| 0 <= i < s.len() ==> (#[trigger] s[i]).id != id) {
            assert(s[0].id != id);
            assert forall|i: int| 0 <= i < t.len() implies (#[trigger] t[i]).id != id by {
                assert(t[i] == s[i + 1]);
            }
        }
        if find_id(s, id) > 0 {
            assert forall|i: int| 0 <= i < find_id(s, id) implies (#[trigger] s[i]).id != id by {
                if i > 0 {
                    assert(s[i] == t[i - 1]);
                }
            }
        }
    }
}

/// Storing a snippet then getting its id gives that snippet back, and the
/// store holds no other snippet with its id.
pub proof fn lemma_get_after_put(s: Seq<SnippetView>, x: SnippetView)
    ensures
        find_id(put_spec(s, x), x.id) == put_spec(s, x).len() - 1,
        put_spec(s, x)[find_id(put_spec(s, x), x.id)] == x,
        forall|i: int| 0 <= i < put_spec(s, x).len() - 1 ==> (#[trigger] put_spec(s, x)[i]).id != x.id,
{
    let p = put_spec(s, x);
    let w = without_id(s, x.id);
    lemma_without_id_drops(s, x.id);
    lemma_find_id(p, x.id);
    assert forall|i: int| 0 <= i < p.len() - 1 implies (#[trigger] p[i]).id != x.id by {
        assert(p[i] == w[i]);
    }
    assert(p[p.len() - 1].id == x.id);
    let f = find_id(p, x.id);
    assert(f >= 0);
    if f < p.len() - 1 {
        assert(p[f] == w[f]);
        assert(p[f].id != x.id);
    }
}

/// After removing an id, getting it finds nothing.
pub proof fn lemma_get_after_remove(s: Seq<SnippetView>, id: Seq<char>)
    ensures
        find_id(without_id(s, id), id) == -1,
{
    lemma_without_id_drops(s, id);
    lemma_find_id(without_id(s, id), id);
}

/// No two stored snippets share an id.
pub open spec fn snippet_ids_distinct(s: Seq<SnippetView>) -> bool {
    forall|i: int, j: int| 0 <= i < j < s.len() ==> (#[trigger] s[i]).id != (#[trigger] s[j]).id
}

proof fn lemma_without_id_len(s: Seq<SnippetView>, id: Seq<char>)
    requires
        snippet_ids_distinct(s),
    ensures
        without_id(s, id).len() == s.len() - if find_id(s, id) >= 0 { 1int } else { 0int },
        snippet_ids_distinct(without_id(s, id)),
        forall|i: int| 0 <= i < without_id(s, id).len() ==> exists|j: int| 0 <= j < s.len() && #[trigger] without_id(s, id)[i] == s[j],
    decreases s.len(),
{
    lemma_find_id(s, id);
    if s.len() > 0 {
        let d = s.drop_last();
        assert(snippet_ids_distinct(d)) by {
            assert forall|i: int, j: int| 0 <= i < j < d.len() implies (#[trigger] d[i]).id != (#[trigger] d[j]).id by {
                assert(d[i] == s[i] && d[j] == s[j]);
            }
        }
        lemma_without_id_len(d, id);
        lemma_find_id(d, id);
        let w = without_id(s, id);
        let wd = without_id(d, id);
        assert(s.last() == s[s.len() - 1]);
        if s.last().id == id {
            if find_id(d, id) >= 0 {
                let q = find_id(d, id);
                assert(d[q] == s[q]);
            }
            assert forall|i: int| 0 <= i < d.len() implies (#[trigger] d[i]).id != id by {
                assert(d[i] == s[i]);
            }
        } else {
            if find_id(d, id) >= 0 {
                let q = find_id(d, id);
                assert(d[q] == s[q]);
            } else {
                assert forall|i: int| 0 <= i < s.len() implies (#[trigger] s[i]).id != id by {
                    if i < d.len() {
                        assert(d[i] == s[i]);
                    }
                }
            }
            assert forall|i: int| 0 <= i < w.len() implies exists|j: int| 0 <= j < s.len() && #[trigger] w[i] == s[j] by {
                if i < wd.len() {
                    assert(w[i] == wd[i]);
                    let j = choose|j: int| 0 <= j < d.len() && wd[i] == d[j];
                    assert(d[j] == s[j]);
                } else {
                    assert(w[i] == s[s.len() - 1]);
                }
            }
            assert forall|a: int, b: int| 0 <= a < b < w.len() implies (#[trigger] w[a]).id != (#[trigger] w[b]).id by {
                if b < wd.len() {
                    assert(w[a] == wd[a] && w[b] == wd[b]);
                } else {
                    assert(w[a] == wd[a]);
                    let j = choose|j: int| 0 <= j < d.len() && wd[a] == d[j];
                    assert(d[j] == s[j]);
                }
            }
        }
        if s.last().id == id {
            assert forall|i: int| 0 <= i < w.len() implies exists|j: int| 0 <= j < s.len() && #[trigger] w[i] == s[j] by {
                let j = choose|j: int| 0 <= j < d.len() && wd[i] == d[j];
                assert(d[j] == s[j]);
            }
        }
    }
}

/// With distinct ids (which storing keeps), storing a snippet grows the
/// store by one exactly when no stored snippet had its id, and otherwise
/// keeps its size.
pub proof fn lemma_put_len(s: Seq<SnippetView>, x: SnippetView)
    requires
        snippet_ids_distinct(s),
    ensures
        put_spec(s, x).len() == s.len() + if find_id(s, x.id) >= 0 { 0int } else { 1int },
        snippet_ids_distinct(put_spec(s, x)),
        snippet_ids_distinct(without_id(s, x.id)),
{
    lemma_without_id_len(s, x.id);
    lemma_without_id_drops(s, x.id);
    let w = without_id(s, x.id);
    let p = w.push(x);
    assert forall|a: int, b: int| 0 <= a < b < p.len() implies (#[trigger] p[a]).id != (#[trigger] p[b]).id by {
        if b < w.len() {
            assert(p[a] == w[a] && p[b] == w[b]);
        } else {
            assert(p[a] == w[a]);
        }
    }
}

} // verus!
