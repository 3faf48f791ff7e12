use sllm_core::tokenizer::{pre_tokenize, BpeTokenizer, BpeTrainer, SpecialToken, TokenizerError, Vocab, VocabError};
use sllm_core::tokenizer::bpe::apply_merge;

#[test]
fn test_pre_tokenize_basic() {
    let tokens = pre_tokenize("hello world");
    assert_eq!(tokens, vec!["hello", " ", "world"]);
}

#[test]
fn test_pre_tokenize_code() {
    let tokens = pre_tokenize("def foo(x):");
    assert!(tokens.contains(&"def".to_string()));
    assert!(tokens.contains(&"(".to_string()));
    assert!(tokens.contains(&")".to_string()));
    assert!(tokens.contains(&":".to_string()));
}

#[test]
fn test_pre_tokenize_indentation() {
    let tokens = pre_tokenize("    return x");
    assert_eq!(tokens[0], "    ");
}

#[test]
fn test_bpe_train_tiny() {
    let texts = vec!["the cat sat", "the cat mat", "the dog sat"];
    let trainer = BpeTrainer::new(30);
    let tokenizer = trainer.train(&texts);
    assert!(tokenizer.vocab().len() > 8);
    assert!(tokenizer.num_merges() > 0);
}

#[test]
fn test_encode_decode_roundtrip() {
    let texts = vec!["hello world", "the cat sat on the mat", "hello hello hello"];
    let trainer = BpeTrainer::new(50);
    let tokenizer = trainer.train(&texts);

    let input = "hello world";
    let encoded = tokenizer.encode(input);
    let decoded = tokenizer.decode(&encoded);
    assert_eq!(decoded, input);
}

#[test]
fn test_tokenizer_serialization_roundtrip() {
    let texts = vec!["abc def", "abc ghi"];
    let trainer = BpeTrainer::new(30);
    let tokenizer = trainer.train(&texts);

    let bytes = tokenizer.to_bytes();
    let (restored, consumed) = BpeTokenizer::from_bytes(&bytes).unwrap();
    assert_eq!(consumed, bytes.len());
    assert_eq!(restored.vocab().len(), tokenizer.vocab().len());
    assert_eq!(restored.num_merges(), tokenizer.num_merges());
}

#[test]
fn test_special_tokens_ids() {
    assert_eq!(SpecialToken::Pad.id(), 0);
    assert_eq!(SpecialToken::Unk.id(), 1);
    assert_eq!(SpecialToken::Tool.id(), 7);
    assert_eq!(SpecialToken::count(), 8);
}

#[test]
fn test_new_vocab_has_special_tokens() {
    let vocab = Vocab::new();
    assert_eq!(vocab.len(), 8);
    assert_eq!(vocab.id_to_token(0), Some("<PAD>"));
    assert_eq!(vocab.id_to_token(7), Some("<TOOL>"));
    assert!(vocab.is_empty());
}

#[test]
fn test_add_and_lookup() {
    let mut vocab = Vocab::new();
    let id = vocab.add_token("def");
    assert_eq!(id, 8);
    assert_eq!(vocab.token_to_id("def"), Some(8));
    assert_eq!(vocab.id_to_token(8), Some("def"));
}

#[test]
fn test_duplicate_add_returns_same_id() {
    let mut vocab = Vocab::new();
    let id1 = vocab.add_token("for");
    let id2 = vocab.add_token("for");
    assert_eq!(id1, id2);
}

#[test]
fn test_encode_unknown_returns_unk() {
    let vocab = Vocab::new();
    assert_eq!(vocab.encode_token("nonexistent"), SpecialToken::Unk.id());
}

#[test]
fn test_serialization_roundtrip() {
    let mut vocab = Vocab::new();
    vocab.add_token("def");
    vocab.add_token("return");
    vocab.add_token("if");

    let bytes = vocab.to_bytes();
    let (restored, consumed) = Vocab::from_bytes(&bytes).unwrap();

    assert_eq!(consumed, bytes.len());
    assert_eq!(restored.len(), vocab.len());
    assert_eq!(restored.token_to_id("def"), Some(8));
    assert_eq!(restored.token_to_id("return"), Some(9));
    assert_eq!(restored.id_to_token(0), Some("<PAD>"));
}

#[test]
fn special_token_strings() {
    assert_eq!(SpecialToken::Pad.as_str(), "<PAD>");
    assert_eq!(SpecialToken::Think.as_str(), "<THINK>");
    assert_eq!(SpecialToken::all().len(), 8);
    assert_eq!(SpecialToken::all()[3], SpecialToken::Eos);
    assert_eq!(Vocab::new().unk_id(), 1);
}

#[test]
fn vocab_from_bytes_errors() {
    assert_eq!(Vocab::from_bytes(&[1, 0]).err(), Some(VocabError::TruncatedData));
    // one token of length 2 whose bytes are not UTF-8
    assert_eq!(Vocab::from_bytes(&[1, 0, 0, 0, 2, 0, 0xff, 0xfe]).err(), Some(VocabError::InvalidUtf8));
    // one token announced, its length field missing
    assert_eq!(Vocab::from_bytes(&[1, 0, 0, 0, 2]).err(), Some(VocabError::TruncatedData));
}

#[test]
fn pre_tokenize_joins_runs() {
    assert_eq!(pre_tokenize("a  b\tc"), vec!["a", "  ", "b", "\t", "c"]);
    assert_eq!(pre_tokenize("x==y"), vec!["x", "=", "=", "y"]);
    assert!(pre_tokenize("").is_empty());
}

#[test]
fn apply_merge_joins_pairs() {
    let word: Vec<String> = vec!["a".into(), "b".into(), "a".into(), "b".into(), "c".into()];
    let merged = apply_merge(&word, "a", "b", "ab");
    assert_eq!(merged, vec!["ab", "ab", "c"]);
    let untouched = apply_merge(&word, "b", "c", "bc");
    assert_eq!(untouched, vec!["a", "b", "a", "bc"]);
}

#[test]
fn encode_decode_roundtrip_unseen_order() {
    let texts = vec!["abc cab", "bca"];
    let tokenizer = BpeTrainer::new(40).train(&texts);
    let text = "cab abc bca";
    assert_eq!(tokenizer.decode(&tokenizer.encode(text)), text);
}

#[test]
fn encode_unknown_characters_gives_unk() {
    let tokenizer = BpeTrainer::new(20).train(&["aaa"]);
    let ids = tokenizer.encode("z");
    assert_eq!(ids, vec![SpecialToken::Unk.id()]);
}

#[test]
fn tokenizer_from_bytes_errors() {
    assert!(matches!(BpeTokenizer::from_bytes(&[0, 0]), Err(TokenizerError::Vocab(VocabError::TruncatedData))));
    // an empty vocabulary, then no merge count
    assert!(matches!(BpeTokenizer::from_bytes(&[0, 0, 0, 0]), Err(TokenizerError::TruncatedData)));
}

#[test]
fn trained_tokenizer_facts() {
    let corpus = ["the cat sat", "the cat mat", "the dog sat"];
    let tok = BpeTrainer::new(30).train(&corpus);
    let chars: usize = corpus.iter().map(|s| s.chars().count()).sum();
    assert!(tok.num_merges() <= chars);
    for rule in tok.merge_rules() {
        assert_eq!(rule.merged, format!("{}{}", rule.left, rule.right));
        assert!(tok.vocab().token_to_id(&rule.merged).is_some());
    }
    for (i, s) in SpecialToken::all().iter().enumerate() {
        assert_eq!(tok.vocab().id_to_token(i as u16), Some(s.as_str()));
    }
    for c in "the cat sat mat dog".chars().filter(|c| !c.is_whitespace()) {
        assert!(tok.vocab().token_to_id(&c.to_string()).is_some());
    }
    for id in tok.encode("the zebra sat") {
        assert!((id as usize) < tok.vocab().len());
    }
}

#[test]
fn vocab_lookup_and_ids_are_inverse() {
    let mut vocab = Vocab::new();
    vocab.add_token("def");
    vocab.add_token("return");
    for id in 0..vocab.len() as u16 {
        let t = vocab.id_to_token(id).unwrap().to_string();
        assert_eq!(vocab.token_to_id(&t), Some(id));
    }
    assert_eq!(vocab.id_to_token(vocab.token_to_id("def").unwrap()), Some("def"));
}

#[test]
fn tokenizer_strict_prefixes_are_truncated() {
    let tok = BpeTrainer::new(30).train(&["abc def", "abc ghi"]);
    let bytes = tok.to_bytes();
    let vocab_len = tok.vocab().to_bytes().len();
    for k in 0..bytes.len() {
        let r = BpeTokenizer::from_bytes(&bytes[..k]);
        if k < vocab_len {
            assert!(matches!(r, Err(TokenizerError::Vocab(VocabError::TruncatedData))));
        } else {
            assert!(matches!(r, Err(TokenizerError::TruncatedData)));
        }
    }
}

#[test]
fn encoding_length_bounds() {
    let tok = BpeTrainer::new(40).train(&["the cat sat on the mat"]);
    assert!(tok.encode("").is_empty());
    for s in ["a", "the cat", "zzz qq", "   "] {
        let ids = tok.encode(s);
        assert!(!ids.is_empty());
        assert!(ids.len() <= s.chars().count());
    }
}

#[test]
fn training_with_a_small_target_merges_nothing() {
    // 8 special tokens plus the 3 distinct characters 'a', 'b', ' '
    let tok = BpeTrainer::new(11).train(&["ab ab ba"]);
    assert_eq!(tok.num_merges(), 0);
    let tok = BpeTrainer::new(40).train(&["ab ab ba"]);
    for rule in tok.merge_rules() {
        assert!(tok.vocab().token_to_id(&rule.left).is_some());
        assert!(tok.vocab().token_to_id(&rule.right).is_some());
    }
}
