//! The training curriculum: which data to train on, in what order, and the
//! rules for picking training files.

use vstd::prelude::*;
use crate::text::{
    chars_of, lines_of, lines_spec, more_than_three_bytes, str_eq, string_from_chars, trim_chars, trim_spec, utf8_len,
};
use crate::tokenizer::vocab::{lemma_strings_view_push, strings_view};

verus! {

broadcast use vstd::string::group_string_axioms;

/// A phase's fields as plain values.
pub struct PhaseView {
    pub name: Seq<char>,
    pub data_path: Seq<char>,
    pub max_epochs: u32,
    pub prune_threshold: u32,
    pub include_in_tokenizer: bool,
}

/// A single training phase definition.
#[derive(Debug, Clone)]
pub struct Phase {
    /// Human-readable phase name
    pub name: String,
    /// Path to training data (file or directory)
    pub data_path: String,
    /// Maximum epochs for this phase (0 = until converged)
    pub max_epochs: u32,
    /// Prune threshold after this phase (0 = no pruning)
    pub prune_threshold: u32,
    /// Whether this phase contributes to tokenizer training
    pub include_in_tokenizer: bool,
}

impl View for Phase {
    type V = PhaseView;

    open spec fn view(&self) -> PhaseView {
        PhaseView {
            name: self.name@,
            data_path: self.data_path@,
            max_epochs: self.max_epochs,
            prune_threshold: self.prune_threshold,
            include_in_tokenizer: self.include_in_tokenizer,
        }
    }
}

/// The full training curriculum.
#[derive(Debug)]
pub struct Curriculum {
    /// Ordered list of training phases
    pub phases: Vec<Phase>,
}

/// The phases' view.
pub open spec fn phases_view(ps: Seq<Phase>) -> Seq<PhaseView> {
    ps.map_values(|p: Phase| p@)
}

/// A language phase over `dir` when that directory exists: trained for at
/// most `epochs` epochs, never pruned, part of tokenizer training.
pub open spec fn language_phase(name: Seq<char>, dir: Option<Seq<char>>, epochs: u32) -> Seq<PhaseView> {
    match dir {
        Some(d) => seq![
            PhaseView { name, data_path: d, max_epochs: epochs, prune_threshold: 0, include_in_tokenizer: true },
        ],
        None => seq![],
    }
}

/// The default curriculum: Ashanti Twi (3 epochs), English (2), public code
/// (2) and personal code (3), each when its directory exists, then a
/// refinement over all the data (3 epochs, pruning singletons, not part of
/// tokenizer training).
pub open spec fn curriculum_spec(
    data_dir: Seq<char>,
    twi: Option<Seq<char>>,
    english: Option<Seq<char>>,
    code: Option<Seq<char>>,
    personal: Option<Seq<char>>,
) -> Seq<PhaseView> {
    language_phase("Ashanti Twi \u{1F1EC}\u{1F1ED}"@, twi, 3) + language_phase("English"@, english, 2)
        + language_phase("Public Code"@, code, 2) + language_phase("Personal Code"@, personal, 3) + seq![
        PhaseView {
            name: "Refinement (all data)"@,
            data_path: data_dir,
            max_epochs: 3,
            prune_threshold: 2,
            include_in_tokenizer: false,
        },
    ]
}

/// The characters of an optional string.
pub open spec fn opt_chars(s: Option<String>) -> Option<Seq<char>> {
    match s {
        Some(x) => Some(x@),
        None => None,
    }
}

/// Appends a language phase over `dir` when it is given.
fn push_language_phase(phases: &mut Vec<Phase>, name: &str, dir: Option<String>, epochs: u32)
    ensures
        phases_view(final(phases)@) == phases_view(old(phases)@) + language_phase(name@, opt_chars(dir), epochs),
{
    match dir {
        Some(d) => {
            let p = Phase {
                name: name.to_string(),
                data_path: d,
                max_epochs: epochs,
                prune_threshold: 0,
                include_in_tokenizer: true,
            };
            let ghost before = phases@;
            phases.push(p);
            assert(phases_view(phases@) =~= phases_view(before) + language_phase(name@, opt_chars(dir), epochs));
        },
        None => {
            assert(phases_view(phases@) =~= phases_view(phases@) + language_phase(name@, opt_chars(dir), epochs));
        },
    }
}

impl Curriculum {
    /// Build the default sLLM curriculum from the data directory, given the
    /// phase directories that exist inside it:
    /// ```text
    /// data/
    ///   twi/        -> Phase 0: Ashanti Twi
    ///   english/    -> Phase 1: English
    ///   code/       -> Phase 2: Public Code
    ///   personal/   -> Phase 3: Personal Code
    /// ```
    pub fn from_data_dir(
        data_dir: String,
        twi_dir: Option<String>,
        english_dir: Option<String>,
        code_dir: Option<String>,
        personal_dir: Option<String>,
    ) -> (c: Self)
        ensures
            phases_view(c.phases@) == curriculum_spec(
                data_dir@,
                opt_chars(twi_dir),
                opt_chars(english_dir),
                opt_chars(code_dir),
                opt_chars(personal_dir),
            ),
    {
        let mut phases: Vec<Phase> = Vec::new();
        assert(phases_view(phases@) =~= Seq::<PhaseView>::empty());
        push_language_phase(&mut phases, "Ashanti Twi \u{1F1EC}\u{1F1ED}", twi_dir, 3);
        push_language_phase(&mut phases, "English", english_dir, 2);
        push_language_phase(&mut phases, "Public Code", code_dir, 2);
        push_language_phase(&mut phases, "Personal Code", personal_dir, 3);
        let ghost before = phases@;
        phases.push(
            Phase {
                name: "Refinement (all data)".to_string(),
                data_path: data_dir,
                max_epochs: 3,
                prune_threshold: 2,
                include_in_tokenizer: false,
            },
        );
        assert(phases_view(phases@) =~= phases_view(before).push(phases@.last()@));
        let c = Curriculum { phases };
        assert(phases_view(c.phases@) =~= curriculum_spec(
            data_dir@,
            opt_chars(twi_dir),
            opt_chars(english_dir),
            opt_chars(code_dir),
            opt_chars(personal_dir),
        ));
        c
    }

    /// Get phase names for the progress tracker.
    pub fn phase_names(&self) -> (names: Vec<&str>)
        ensures
            names@.len() == self.phases@.len(),
            forall|i: int| 0 <= i < names@.len() ==> #[trigger] names@[i]@ == self.phases@[i].name@,
    {
        let mut names: Vec<&str> = Vec::new();
        let mut i: usize = 0;
        while i < self.phases.len()
            invariant
                0 <= i <= self.phases@.len(),
                names@.len() == i,
                forall|k: int| 0 <= k < i ==> #[trigger] names@[k]@ == self.phases@[k].name@,
            decreases self.phases@.len() - i,
        {
            names.push(self.phases[i].name.as_str());
            i = i + 1;
        }
        names
    }
}

/// The file extensions (lowercase) of the text and code files a phase
/// trains on.
pub open spec fn text_extensions() -> Seq<Seq<char>> {
    seq![
        "txt"@, "md"@, "py"@, "rs"@, "js"@, "ts"@, "jsx"@, "tsx"@, "c"@, "h"@, "cpp"@, "hpp"@, "go"@, "java"@,
        "rb"@, "sh"@, "bash"@, "zsh"@, "toml"@, "yaml"@, "yml"@, "json"@, "html"@, "css"@,
    ]
}

/// Whether `ext` (lowercase) is one of `exts`.
fn listed_in(ext: &str, exts: &[&str]) -> (r: bool)
    ensures
        r == exists|i: int| 0 <= i < exts@.len() && #[trigger] exts@[i]@ == ext@,
{
    let mut i: usize = 0;
    while i < exts.len()
        invariant
            0 <= i <= exts@.len(),
            forall|k: int| 0 <= k < i ==> #[trigger] exts@[k]@ != ext@,
        decreases exts@.len() - i,
    {
        if str_eq(exts[i], ext) {
            return true;
        }
        i = i + 1;
    }
    false
}

/// Whether a file with extension `ext` (lowercased) is a text or code file
/// that phases train on.
pub fn is_text_extension(ext: &str) -> (r: bool)
    ensures
        r == text_extensions().contains(ext@),
{
    let exts: [&str; 24] = [
        "txt", "md", "py", "rs", "js", "ts", "jsx", "tsx", "c", "h", "cpp", "hpp", "go", "java", "rb", "sh", "bash",
        "zsh", "toml", "yaml", "yml", "json", "html", "css",
    ];
    let r = listed_in(ext, exts.as_slice());
    proof {
        assert(exts@.map_values(|s: &str| s@) =~= text_extensions());
        if r {
            let i = choose|i: int| 0 <= i < exts@.len() && #[trigger] exts@[i]@ == ext@;
            assert(text_extensions()[i] == ext@);
        }
        if text_extensions().contains(ext@) {
            let i = choose|i: int| 0 <= i < text_extensions().len() && text_extensions()[i] == ext@;
            assert(exts@[i]@ == ext@);
        }
    }
    r
}

/// The file extensions (lowercase) the training engine reads: those of
/// [`text_extensions`] and SQL.
pub open spec fn training_extensions() -> Seq<Seq<char>> {
    text_extensions().push("sql"@)
}

/// Whether a file with extension `ext` (lowercased) is one the training
/// engine reads.
pub fn is_training_extension(ext: &str) -> (r: bool)
    ensures
        r == training_extensions().contains(ext@),
{
    let r = is_text_extension(ext) || str_eq(ext, "sql");
    proof {
        if text_extensions().contains(ext@) {
            let i = choose|i: int| 0 <= i < text_extensions().len() && text_extensions()[i] == ext@;
            assert(training_extensions()[i] == ext@);
        }
        if ext@ == "sql"@ {
            assert(training_extensions()[24] == ext@);
        }
        if training_extensions().contains(ext@) {
            let i = choose|i: int| 0 <= i < training_extensions().len() && training_extensions()[i] == ext@;
            if i < 24 {
                assert(text_extensions()[i] == ext@);
            }
        }
    }
    r
}

/// The directory names skipped when looking for training files (besides
/// hidden ones, whose names start with a dot).
pub open spec fn skipped_dirs() -> Seq<Seq<char>> {
    seq!["node_modules"@, "target"@, "__pycache__"@, ".venv"@]
}

/// Whether a directory named `name` is searched for training files: not
/// hidden (no leading dot) and not a dependency or build directory.
pub fn is_searched_dir(name: &str) -> (r: bool)
    ensures
        r == (!(name@.len() > 0 && name@[0] == '.') && !skipped_dirs().contains(name@)),
{
    let hidden = match name.chars().next() {
        Some(c) => c == '.',
        None => false,
    };
    let dirs: [&str; 4] = ["node_modules", "target", "__pycache__", ".venv"];
    let listed = listed_in(name, dirs.as_slice());
    proof {
        assert(dirs@.map_values(|s: &str| s@) =~= skipped_dirs());
        if listed {
            let i = choose|i: int| 0 <= i < dirs@.len() && #[trigger] dirs@[i]@ == name@;
            assert(skipped_dirs()[i] == name@);
        }
        if skipped_dirs().contains(name@) {
            let i = choose|i: int| 0 <= i < skipped_dirs().len() && skipped_dirs()[i] == name@;
            assert(dirs@[i]@ == name@);
        }
    }
    !hidden && !listed
}

/// The tokenizer samples after reading the lines `ls` with samples `acc`
/// already taken: while there are fewer than `max` samples, each line's
/// trimmed text is taken when it is not empty and its UTF-8 form has more
/// than 3 bytes; reading stops once there are `max` samples.
pub open spec fn sample_from(acc: Seq<Seq<char>>, ls: Seq<Seq<char>>, max: nat) -> Seq<Seq<char>>
    decreases ls.len(),
{
    if ls.len() == 0 || acc.len() >= max {
        acc
    } else {
        let t = trim_spec(ls[0]);
        let next = if t.len() > 0 && utf8_len(t) > 3 {
            acc.push(t)
        } else {
            acc
        };
        sample_from(next, ls.drop_first(), max)
    }
}

/// Sampling keeps the samples already taken, in front, and never takes more
/// lines than the limit allows: at most `max` samples in all when it starts
/// with no more than `max`, none at all otherwise.
pub proof fn lemma_sample_from_bounded(acc: Seq<Seq<char>>, ls: Seq<Seq<char>>, max: nat)
    ensures
        sample_from(acc, ls, max).len() >= acc.len(),
        sample_from(acc, ls, max).subrange(0, acc.len() as int) == acc,
        acc.len() <= max ==> sample_from(acc, ls, max).len() <= max,
        acc.len() >= max ==> sample_from(acc, ls, max) == acc,
    decreases ls.len(),
{
    if ls.len() == 0 || acc.len() >= max {
        assert(acc.subrange(0, acc.len() as int) =~= acc);
    } else {
        let t = trim_spec(ls[0]);
        let next = if t.len() > 0 && utf8_len(t) > 3 {
            acc.push(t)
        } else {
            acc
        };
        lemma_sample_from_bounded(next, ls.drop_first(), max);
        let r = sample_from(next, ls.drop_first(), max);
        assert(r.subrange(0, acc.len() as int) =~= r.subrange(0, next.len() as int).subrange(0, acc.len() as int));
        assert(next.subrange(0, acc.len() as int) =~= acc);
    }
}

/// Takes tokenizer samples from the lines of a file's `content` into
/// `samples` (see [`sample_from`]) while there are fewer than `max_lines`.
pub fn take_sample_lines(content: &str, samples: &mut Vec<String>, max_lines: usize)
    ensures
        strings_view(final(samples)@) == sample_from(strings_view(old(samples)@), lines_spec(content@), max_lines as nat),
        final(samples)@.len() >= old(samples)@.len(),
        final(samples)@.subrange(0, old(samples)@.len() as int) == old(samples)@,
        old(samples)@.len() <= max_lines ==> final(samples)@.len() <= max_lines,
        old(samples)@.len() >= max_lines ==> final(samples)@ == old(samples)@,
{
    let ghost old_samples = samples@;
    let cs = chars_of(content);
    let lines = lines_of(cs.as_slice());
    let ghost ls = lines@.map_values(|l: Vec<char>| l@);
    let n = lines.len();
    let mut i: usize = 0;
    assert(ls.skip(0) =~= ls);
    while i < n && samples.len() < max_lines
        invariant
            n == lines@.len(),
            ls == lines@.map_values(|l: Vec<char>| l@),
            ls == lines_spec(content@),
            0 <= i <= n,
            samples@.len() >= old_samples.len(),
            samples@.subrange(0, old_samples.len() as int) == old_samples,
            old_samples.len() <= max_lines ==> samples@.len() <= max_lines,
            old_samples.len() >= max_lines ==> samples@ == old_samples,
            sample_from(strings_view(old_samples), ls, max_lines as nat) == sample_from(
                strings_view(samples@),
                ls.skip(i as int),
                max_lines as nat,
            ),
        decreases n - i,
    {
        let ghost acc = strings_view(samples@);
        let ghost rest = ls.skip(i as int);
        proof {
            assert(rest[0] == lines@[i as int]@);
            assert(rest.drop_first() =~= ls.skip(i + 1));
        }
        let trimmed = trim_chars(lines[i].as_slice());
        if trimmed.len() > 0 && more_than_three_bytes(trimmed.as_slice()) {
            let s = string_from_chars(trimmed.as_slice());
            let ghost before = samples@;
            samples.push(s);
            proof {
                lemma_strings_view_push(before, s);
                assert(samples@.subrange(0, old_samples.len() as int) =~= before.subrange(0, old_samples.len() as int));
            }
        }
        i = i + 1;
    }
    proof {
        if i == n {
            assert(ls.skip(i as int).len() == 0);
        }
    }
}

} // verus!
