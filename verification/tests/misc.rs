use sllm_core::brain::NgramBrain;
use sllm_core::training::{after_file, consolidate, FileStep};
use sllm_core::progress::{PhaseStatus, PhaseTracker, TrainingStatus};
use sllm_core::curriculum::{is_searched_dir, is_text_extension, is_training_extension, take_sample_lines, Curriculum};
use sllm_core::eval::{generation_is_sane, held_out_lines, prompt_set, prompts, PromptSet};
use sllm_core::serve::{default_max_tokens, default_top_k};

#[test]
fn test_generation_sanity_checks() {
    assert!(generation_is_sane("the cat sat on the mat"));
    assert!(!generation_is_sane(""));
    assert!(!generation_is_sane("   "));
    assert!(!generation_is_sane("aaaaaaaaaa"));
    assert!(!generation_is_sane("...."));
}

#[test]
fn generation_sanity_edges() {
    assert!(!generation_is_sane("ab"));
    assert!(generation_is_sane("  abc  "));
    // 8 of 10 characters equal to the first is still sane, 9 is not
    assert!(generation_is_sane("aaaaaaaabc"));
    assert!(!generation_is_sane("aaaaaaaaab"));
}

#[test]
fn curriculum_phases_follow_existing_dirs() {
    let c = Curriculum::from_data_dir(
        "data".to_string(),
        Some("data/twi".to_string()),
        Some("data/english".to_string()),
        None,
        None,
    );
    let names = c.phase_names();
    assert_eq!(names.len(), 3);
    assert!(names[0].contains("Twi"));
    assert_eq!(names[1], "English");
    assert_eq!(names[2], "Refinement (all data)");
    assert_eq!(c.phases[0].max_epochs, 3);
    assert_eq!(c.phases[2].prune_threshold, 2);
    assert!(!c.phases[2].include_in_tokenizer);
    assert_eq!(c.phases[2].data_path, "data");
}

#[test]
fn file_selection_rules() {
    assert!(is_text_extension("rs"));
    assert!(!is_text_extension("sql"));
    assert!(is_training_extension("sql"));
    assert!(!is_training_extension("png"));
    assert!(is_searched_dir("src"));
    assert!(!is_searched_dir(".git"));
    assert!(!is_searched_dir("node_modules"));
}

#[test]
fn request_defaults() {
    assert_eq!(default_max_tokens(), 128);
    assert_eq!(default_top_k(), 40);
}

#[test]
fn tokenizer_samples_from_lines() {
    let mut samples: Vec<String> = Vec::new();
    take_sample_lines("  first line  \r\nab\n\n   \nsecond one\nthird\n", &mut samples, 2);
    assert_eq!(samples, vec!["first line".to_string(), "second one".to_string()]);
    let mut more = vec!["kept".to_string()];
    take_sample_lines("abcd\nefgh", &mut more, 10);
    assert_eq!(more, vec!["kept", "abcd", "efgh"]);
    // a limit of zero takes nothing
    let mut none: Vec<String> = Vec::new();
    take_sample_lines("long enough\nagain long", &mut none, 0);
    assert!(none.is_empty());
    let mut abcd: Vec<String> = Vec::new();
    take_sample_lines("abcd", &mut abcd, 0);
    assert!(abcd.is_empty());
    // samples already over the limit are left as they are
    let mut full = vec!["one".to_string(), "two".to_string()];
    take_sample_lines("another line", &mut full, 1);
    assert_eq!(full, vec!["one", "two"]);
}

#[test]
fn held_out_lines_take_the_tail() {
    let content: String = (0..40).map(|i| format!("line {}\n", i)).collect();
    let held = held_out_lines(&content);
    // 40 lines: 5% is 2, at least 10 are held out
    assert_eq!(held.len(), 10);
    assert_eq!(held[0], "line 30");
    assert_eq!(held[9], "line 39");
    let blanks = held_out_lines("a\n  \nb\r\n");
    assert_eq!(blanks, vec!["a", "b"]);
}

#[test]
fn prompt_sets_follow_phase_names() {
    assert_eq!(prompt_set("Ashanti Twi \u{1F1EC}\u{1F1ED}"), PromptSet::Twi);
    assert_eq!(prompt_set("ENGLISH"), PromptSet::English);
    assert_eq!(prompt_set("Personal Code"), PromptSet::Code);
    assert_eq!(prompt_set("Refinement (all data)"), PromptSet::English);
    assert_eq!(prompts(PromptSet::Code)[0], "def fibonacci(");
    assert_eq!(prompts(PromptSet::English).len(), 4);
}

#[test]
fn test_phase_advancement() {
    let mut tracker = PhaseTracker::new(&["A", "B", "C"]);

    tracker.start_phase();
    assert_eq!(tracker.current_index(), 0);

    tracker.advance_phase();
    assert_eq!(tracker.current_index(), 1);
    assert_eq!(tracker.current_phase(), "B");
    assert_eq!(tracker.phase_status(0), Some(PhaseStatus::Completed));
}

#[test]
fn phase_tracker_runs_past_the_last_phase() {
    let mut tracker = PhaseTracker::new(&["A", "B"]);
    assert_eq!(tracker.status(), TrainingStatus::Tokenizing);
    assert_eq!(tracker.current_phase(), "A");
    assert_eq!(tracker.phase_status(0), Some(PhaseStatus::Pending));
    tracker.start_phase();
    assert_eq!(tracker.status(), TrainingStatus::Training);
    assert_eq!(tracker.phase_status(0), Some(PhaseStatus::Active));
    tracker.advance_phase();
    assert_eq!(tracker.phase_status(1), Some(PhaseStatus::Active));
    tracker.advance_phase();
    assert_eq!(tracker.current_index(), 2);
    assert_eq!(tracker.current_phase(), "B");
    assert_eq!(tracker.phase_status(1), Some(PhaseStatus::Completed));
    assert_eq!(tracker.phase_status(2), None);
    tracker.mark_converged();
    assert_eq!(tracker.status(), TrainingStatus::Converged);
    assert_eq!(tracker.total_phases(), 2);
}

#[test]
fn phase_tracker_without_phases() {
    let mut tracker = PhaseTracker::new(&[]);
    assert_eq!(tracker.current_phase(), "unknown");
    tracker.mark_converged();
    assert_eq!(tracker.status(), TrainingStatus::Converged);
    assert_eq!(tracker.phase_status(0), None);
}

#[test]
fn generation_sanity_counts_characters() {
    assert!(!generation_is_sane("ɛɛɛɛ"));
    assert!(!generation_is_sane("ɛɛɛɛɛk"));
    assert!(generation_is_sane("ɛkɔ"));
    // the alphabetic share is taken of the length in bytes
    assert!(!generation_is_sane("a\u{2014}\u{2014}\u{2014}\u{2014}\u{2014}\u{2014}\u{2014}\u{2014}\u{2014}"));
    assert!(!generation_is_sane("  1234  "));
    assert!(generation_is_sane("\u{3000}abc\u{a0}"));
    assert!(!generation_is_sane("\u{2003}ab\u{85}"));
}

#[test]
fn training_loop_steps() {
    assert_eq!(after_file(0, 4, 100), FileStep { train: false, checkpoint: false, files_processed: 1 });
    assert_eq!(after_file(99, 5, 100), FileStep { train: true, checkpoint: true, files_processed: 100 });
    assert_eq!(after_file(98, 7, 100).checkpoint, false);
    assert_eq!(after_file(9, 7, 0).checkpoint, false);
    assert_eq!(after_file(2, 7, 1).checkpoint, true);
}

#[test]
fn consolidation_prunes_only_with_a_threshold() {
    let mut brain = NgramBrain::new(0);
    brain.train_sequence(&[1, 2, 1, 2, 3]);
    let before = brain.to_bytes();
    consolidate(&mut brain, 0);
    assert_eq!(brain.to_bytes(), before);
    consolidate(&mut brain, 2);
    assert_eq!(brain.tables()[0].ranked_counts(&[1]), vec![(2, 2)]);
    assert_eq!(brain.tables()[0].total_entries(), 1);
}

#[test]
fn white_space_list_matches_std() {
    for u in 0u32..=0x10FFFF {
        if let Some(c) = char::from_u32(u) {
            assert_eq!(sllm_core::text::trim_chars(&[c]).is_empty(), c.is_whitespace(), "U+{:04X}", u);
        }
    }
}
