use sllm_core::brain::NgramBrain;
use sllm_core::format::{BrainHeader, BrainReader, BrainWriter, FormatError};
use sllm_core::tokenizer::BpeTrainer;
use sllm_core::SLLM_VERSION;

fn sample_header() -> BrainHeader {
    BrainHeader {
        version: SLLM_VERSION,
        model_name: "test-model".to_string(),
        vocab_size: 16384,
        context_window: 128,
        ngram_orders: 5,
        total_associations: 1_000_000,
        training_tokens_seen: 50_000_000,
        created_at: 1717804800,
        data_checksum: 0xDEADBEEF,
        tokenizer_offset: 256,
        brain_offset: 4096,
    }
}

#[test]
fn test_header_roundtrip() {
    let header = sample_header();
    let bytes = header.to_bytes();
    let restored = BrainHeader::from_bytes(&bytes).unwrap();

    assert_eq!(restored.version, header.version);
    assert_eq!(restored.model_name, header.model_name);
    assert_eq!(restored.vocab_size, header.vocab_size);
    assert_eq!(restored.context_window, header.context_window);
    assert_eq!(restored.ngram_orders, header.ngram_orders);
    assert_eq!(restored.total_associations, header.total_associations);
    assert_eq!(restored.training_tokens_seen, header.training_tokens_seen);
    assert_eq!(restored.data_checksum, header.data_checksum);
    assert_eq!(restored.tokenizer_offset, header.tokenizer_offset);
    assert_eq!(restored.brain_offset, header.brain_offset);
}

#[test]
fn test_invalid_magic() {
    let bytes = b"NOPE";
    let result = BrainHeader::from_bytes(bytes);
    assert!(matches!(result, Err(FormatError::InvalidMagic)));
}

#[test]
fn test_truncated_data() {
    let bytes = b"SLLM\x01";
    let result = BrainHeader::from_bytes(bytes);
    assert!(matches!(result, Err(FormatError::TruncatedData)));
}

#[test]
fn header_sizes() {
    let header = sample_header();
    assert_eq!(BrainHeader::fixed_size(), 67);
    assert_eq!(header.actual_size(), 67 + 10);
    assert_eq!(header.to_bytes().len(), header.actual_size());
}

#[test]
fn header_newer_version_refused() {
    let mut header = sample_header();
    header.version = 2;
    let bytes = header.to_bytes();
    assert!(matches!(BrainHeader::from_bytes(&bytes), Err(FormatError::UnsupportedVersion(2))));
}

#[test]
fn header_bad_name_is_truncation() {
    let mut bytes = sample_header().to_bytes();
    bytes[14] = 0xff;
    assert!(matches!(BrainHeader::from_bytes(&bytes), Err(FormatError::TruncatedData)));
}

#[test]
fn test_write_then_read_roundtrip() {
    let trainer = BpeTrainer::new(25);
    let tokenizer = trainer.train(&["the cat sat on the mat", "the dog ran"]);
    let mut brain = NgramBrain::new(0);
    let tokens = tokenizer.encode("the cat sat on the mat");
    brain.train_sequence(&tokens);

    let data = BrainWriter::encode("roundtrip-test", &tokenizer, &brain, 1717804800);
    assert_eq!(&data[0..4], b"SLLM");
    assert!(BrainReader::accepts(&data));
    let (loaded, checksum) = BrainReader::parse(&data).unwrap();
    assert_eq!(loaded.header.model_name, "roundtrip-test");
    assert_eq!(loaded.header.vocab_size, tokenizer.vocab().len() as u32);
    assert_eq!(loaded.header.created_at, 1717804800);
    assert_eq!(checksum, loaded.header.data_checksum);
    assert_eq!(loaded.tokenizer.vocab().len(), tokenizer.vocab().len());
    assert_eq!(loaded.brain.total_associations(), brain.total_associations());
    assert_eq!(loaded.brain.tokens_trained(), brain.tokens_trained());
}

#[test]
fn encode_checksum_is_crc32_of_sections() {
    let tokenizer = BpeTrainer::new(20).train(&["hello world", "hello there"]);
    let mut brain = NgramBrain::new(0);
    brain.train_sequence(&tokenizer.encode("hello world"));
    let data = BrainWriter::encode("test-model", &tokenizer, &brain, 0);
    let header = BrainHeader::from_bytes(&data).unwrap();
    let start = header.tokenizer_offset as usize;
    assert_eq!(start, header.actual_size());
    assert_eq!(header.brain_offset as usize, start + tokenizer.to_bytes().len());
    assert_eq!(header.data_checksum, crc32_reference(&data[start..]));
    assert_ne!(header.data_checksum, 0);
}

fn crc32_reference(data: &[u8]) -> u32 {
    let mut crc = 0xFFFF_FFFFu32;
    for &b in data {
        crc ^= b as u32;
        for _ in 0..8 {
            let mask = (crc & 1).wrapping_neg();
            crc = (crc >> 1) ^ (0xEDB8_8320 & mask);
        }
    }
    !crc
}

#[test]
fn parse_reports_section_errors() {
    let mut header = sample_header();
    header.tokenizer_offset = header.actual_size() as u64;
    let mut data = header.to_bytes();
    data.extend_from_slice(&[0, 0]);
    assert!(matches!(BrainReader::parse(&data), Err(FormatError::Tokenizer(_))));
    let mut far = sample_header();
    far.tokenizer_offset = 10_000;
    assert!(!BrainReader::accepts(&far.to_bytes()));
}

#[test]
fn parse_checksum_matches_only_the_recorded_one() {
    let tokenizer = BpeTrainer::new(20).train(&["hello world", "hello there"]);
    let mut brain = NgramBrain::new(0);
    brain.train_sequence(&tokenizer.encode("hello world hello"));
    let data = BrainWriter::encode("checked", &tokenizer, &brain, 7);
    let (loaded, computed) = BrainReader::parse(&data).unwrap();
    assert!(loaded.checksum_matches(computed));
    assert!(!loaded.checksum_matches(computed ^ 1));
    assert_eq!(computed, crc32_reference(&data[loaded.header.tokenizer_offset as usize..]));
}
