use sllm_core::rag::store::fetch_ranked;
use sllm_core::rag::{InMemoryIndex, InMemoryStore, Snippet, SnippetStore};

#[test]
fn test_remove() {
    let mut index = InMemoryIndex::default();
    index.index("1", "hello world");
    assert_eq!(index.len(), 1);
    index.remove("1");
    assert_eq!(index.len(), 0);
}

#[test]
fn test_in_memory_store() {
    let mut store = InMemoryStore::default();

    store.put(Snippet {
        id: "1".to_string(),
        content: "def hello(): pass".to_string(),
        source: Some("main.py".to_string()),
        language: Some("python".to_string()),
    });

    assert_eq!(store.len(), 1);
    assert_eq!(store.get("1").unwrap().content, "def hello(): pass");

    store.remove("1");
    assert!(store.is_empty());
}

fn snippet(id: &str, content: &str) -> Snippet {
    Snippet { id: id.to_string(), content: content.to_string(), source: None, language: None }
}

#[test]
fn store_put_overwrites_same_id() {
    let mut store = InMemoryStore::default();
    store.put(snippet("a", "one"));
    store.put(snippet("b", "two"));
    store.put(snippet("a", "three"));
    assert_eq!(store.len(), 2);
    assert_eq!(store.get("a").unwrap().content, "three");
    assert!(store.get("c").is_none());
    let many = store.get_many(&["a".to_string(), "b".to_string(), "z".to_string()]);
    // stored order: b, then the new a
    assert_eq!(many.len(), 2);
    assert_eq!(many[0].id, "b");
    assert_eq!(many[1].id, "a");
}

#[test]
fn test_in_memory_index() {
    let mut index = InMemoryIndex::default();
    index.index("1", "def fibonacci(n): return n");
    index.index("2", "fn main() { println!(\"hello\"); }");
    index.index("3", "function fibonacci(n) { return n; }");

    let (results, terms) = index.search_hits("fibonacci", 10);
    assert_eq!(terms, 1);
    assert_eq!(results.len(), 2);
    assert_eq!(results[0].0, "1");
    assert_eq!(results[1].0, "3");

    let (results, terms) = index.search_hits("main println", 10);
    assert_eq!(terms, 2);
    assert_eq!(results.len(), 1);
    assert_eq!(results[0], ("2".to_string(), 2));
}

#[test]
fn index_search_orders_by_hits_then_top_k() {
    let mut index = InMemoryIndex::default();
    index.index("a", "Alpha only");
    index.index("b", "alpha and BETA");
    index.index("c", "nothing here");
    let (results, _) = index.search_hits("ALPHA beta", 10);
    assert_eq!(results, vec![("b".to_string(), 2), ("a".to_string(), 1)]);
    let (top, _) = index.search_hits("alpha beta", 1);
    assert_eq!(top, vec![("b".to_string(), 2)]);
    let (none, terms) = index.search_hits("   ", 5);
    assert!(none.is_empty());
    assert_eq!(terms, 0);
}

#[test]
fn index_reindex_replaces_document() {
    let mut index = InMemoryIndex::default();
    index.index("1", "old text");
    index.index("1", "new text");
    assert_eq!(index.len(), 1);
    assert!(index.search_hits("old", 5).0.is_empty());
    assert!(!index.is_empty());
}

#[test]
fn index_search_is_sorted_with_distinct_ids() {
    let mut index = InMemoryIndex::default();
    index.index("x", "alpha beta gamma");
    index.index("y", "beta");
    index.index("x", "alpha beta");
    index.index("z", "gamma alpha beta");
    let (results, terms) = index.search_hits("alpha beta gamma", 10);
    assert_eq!(terms, 3);
    for w in results.windows(2) {
        assert!(w[0].1 >= w[1].1);
    }
    let mut ids: Vec<&String> = results.iter().map(|r| &r.0).collect();
    ids.sort();
    ids.dedup();
    assert_eq!(ids.len(), results.len());
    assert_eq!(results[0], ("z".to_string(), 3));
    let (top, _) = index.search_hits("alpha beta gamma", 1);
    assert_eq!(top, vec![("z".to_string(), 3)]);
}

#[test]
fn fetch_ranked_keeps_rank_order_and_drops_missing() {
    let mut store = InMemoryStore::default();
    store.put(snippet("a", "one"));
    store.put(snippet("b", "two"));
    let ranked = vec![("b".to_string(), 3usize), ("zz".to_string(), 2), ("a".to_string(), 1)];
    let found = fetch_ranked(&store, &ranked);
    assert_eq!(found.len(), 2);
    assert_eq!((found[0].0.content.as_str(), found[0].1), ("two", 3));
    assert_eq!((found[1].0.content.as_str(), found[1].1), ("one", 1));
}

#[test]
fn store_put_grows_only_for_new_ids() {
    let mut store = InMemoryStore::default();
    store.put(snippet("a", "1"));
    assert_eq!(store.len(), 1);
    store.put(snippet("b", "2"));
    assert_eq!(store.len(), 2);
    store.put(snippet("a", "3"));
    assert_eq!(store.len(), 2);
}
