//! Decisions behind the command-line commands: confirmation answers,
//! vocabulary coverage, per-word sample counts, recording file names and
//! the tally of an accuracy evaluation.
use vstd::prelude::*;
use vstd::string::*;

use crate::store::lemma_zero_pad_value;
use crate::text::{chars_of, decimal, trim, trim_chars, zero_pad, zero_padded_decimal};
use crate::vocabulary::{is_in_vocabulary, str_eq, strings_view};

verus! {

// ---------------------------------------------------------------------------
// Confirmation prompts
// ---------------------------------------------------------------------------

/// An answer confirms a prompt when, with surrounding whitespace removed,
/// it is the single letter `y` in either case.
pub open spec fn is_yes(answer: Seq<char>) -> bool {
    trim(answer) == seq!['y'] || trim(answer) == seq!['Y']
}

/// Only a lone `y` or `Y` (whitespace around it aside) confirms: any other
/// answer, a refusal `n`/`N` and an empty answer among them, declines.
pub proof fn lemma_yes_only_for_y(answer: Seq<char>)
    ensures
        is_yes(answer) <==> (trim(answer).len() == 1 && (trim(answer)[0] == 'y' || trim(
            answer,
        )[0] == 'Y')),
        trim(answer) == seq!['n'] || trim(answer) == seq!['N'] || trim(answer).len() == 0
            ==> !is_yes(answer),
{
    if trim(answer).len() == 1 {
        if trim(answer)[0] == 'y' {
            assert(trim(answer) =~= seq!['y']);
        }
        if trim(answer)[0] == 'Y' {
            assert(trim(answer) =~= seq!['Y']);
        }
    }
}

/// Whether an answer typed at a `[y/N]` prompt confirms it.
pub fn is_affirmative(answer: &str) -> (yes: bool)
    ensures
        yes == is_yes(answer@),
        yes <==> (trim(answer@) == seq!['y'] || trim(answer@) == seq!['Y']),
{
    let chars = chars_of(answer);
    let t = trim_chars(chars.as_slice());
    if t.len() != 1 {
        return false;
    }
    let c = t[0];
    if c == 'y' || c == 'Y' {
        assert(t@ =~= seq![c]);
        true
    } else {
        assert(t@ != seq!['y']);
        assert(t@ != seq!['Y']);
        false
    }
}

// ---------------------------------------------------------------------------
// Vocabulary coverage
// ---------------------------------------------------------------------------

/// The words of `vocabulary` that are not among `trained`, in vocabulary
/// order.
pub open spec fn missing_words(vocabulary: Seq<Seq<char>>, trained: Seq<Seq<char>>) -> Seq<
    Seq<char>,
>
    decreases vocabulary.len(),
{
    if vocabulary.len() == 0 {
        seq![]
    } else {
        let rest = missing_words(vocabulary.drop_last(), trained);
        if trained.contains(vocabulary.last()) {
            rest
        } else {
            rest.push(vocabulary.last())
        }
    }
}

/// A word is reported missing exactly when the vocabulary lists it and it
/// is not trained.
pub proof fn lemma_missing_words_members(
    vocabulary: Seq<Seq<char>>,
    trained: Seq<Seq<char>>,
    w: Seq<char>,
)
    ensures
        missing_words(vocabulary, trained).contains(w) <==> (vocabulary.contains(w)
            && !trained.contains(w)),
    decreases vocabulary.len(),
{
    if vocabulary.len() > 0 {
        let init = vocabulary.drop_last();
        lemma_missing_words_members(init, trained, w);
        let rest = missing_words(init, trained);
        if vocabulary.contains(w) && w != vocabulary.last() {
            let j = choose|j: int| 0 <= j < vocabulary.len() && vocabulary[j] == w;
            assert(j < vocabulary.len() - 1);
            assert(init[j] == w);
        }
        if init.contains(w) {
            let j = choose|j: int| 0 <= j < init.len() && init[j] == w;
            assert(vocabulary[j] == w);
        }
        if !trained.contains(vocabulary.last()) {
            assert(rest.push(vocabulary.last()).last() == vocabulary.last());
            if rest.push(vocabulary.last()).contains(w) && w != vocabulary.last() {
                let j = choose|j: int|
                    0 <= j < rest.push(vocabulary.last()).len() && rest.push(vocabulary.last())[j]
                        == w;
                assert(rest[j] == w);
            }
            if rest.contains(w) {
                let j = choose|j: int| 0 <= j < rest.len() && rest[j] == w;
                assert(rest.push(vocabulary.last())[j] == w);
            }
        }
        assert(vocabulary[vocabulary.len() - 1] == vocabulary.last());
    }
}

/// The vocabulary words that have no trained templates, in vocabulary
/// order.
pub fn untrained_words(vocabulary: &[String], trained: &[String]) -> (missing: Vec<String>)
    ensures
        strings_view(missing@) == missing_words(strings_view(vocabulary@), strings_view(trained@)),
{
    let ghost voc = strings_view(vocabulary@);
    let ghost tr = strings_view(trained@);
    let mut missing: Vec<String> = Vec::new();
    let mut i: usize = 0;
    assert(voc.take(0) =~= Seq::<Seq<char>>::empty());
    assert(strings_view(missing@) =~= Seq::<Seq<char>>::empty());
    while i < vocabulary.len()
        invariant
            i <= vocabulary@.len(),
            voc == strings_view(vocabulary@),
            tr == strings_view(trained@),
            strings_view(missing@) == missing_words(voc.take(i as int), tr),
        decreases vocabulary@.len() - i,
    {
        let word = vocabulary[i].as_str();
        let ghost prefix = voc.take(i as int);
        assert(voc.take(i + 1).drop_last() =~= prefix);
        assert(voc.take(i + 1).last() == word@);
        if !is_in_vocabulary(trained, word) {
            let ghost before = missing@;
            missing.push(vocabulary[i].clone());
            assert(strings_view(missing@) =~= strings_view(before).push(word@));
        }
        i = i + 1;
    }
    assert(voc.take(vocabulary@.len() as int) =~= voc);
    missing
}

// ---------------------------------------------------------------------------
// Sample counts
// ---------------------------------------------------------------------------

/// The sample count listed for `word` in per-word `counts`: that of its
/// first entry, or 0 when the word has none.
pub fn sample_count_for(counts: &[(String, usize)], word: &str) -> (n: usize)
    ensures
        forall|k: int|
            0 <= k < counts@.len() && (#[trigger] counts@[k]).0@ == word@ && (forall|j: int|
                0 <= j < k ==> counts@[j].0@ != word@) ==> n == counts@[k].1,
        (forall|k: int| 0 <= k < counts@.len() ==> (#[trigger] counts@[k]).0@ != word@) ==> n
            == 0,
{
    let mut i: usize = 0;
    while i < counts.len()
        invariant
            i <= counts@.len(),
            forall|j: int| 0 <= j < i ==> (#[trigger] counts@[j]).0@ != word@,
        decreases counts@.len() - i,
    {
        if str_eq(counts[i].0.as_str(), word) {
            return counts[i].1;
        }
        i = i + 1;
    }
    0
}

// ---------------------------------------------------------------------------
// Recordings
// ---------------------------------------------------------------------------

/// The file name of the raw recording of sample `sample_index`: `sample_`
/// followed by the index in decimal, zero-padded to three digits, and
/// `.wav`.
pub open spec fn recording_file_name_of(sample_index: nat) -> Seq<char> {
    "sample_"@ + zero_pad(decimal(sample_index), 3) + ".wav"@
}

/// Different samples are recorded to different files.
pub proof fn lemma_recording_file_names_distinct(a: nat, b: nat)
    requires
        a != b,
    ensures
        recording_file_name_of(a) != recording_file_name_of(b),
{
    reveal_strlit("sample_");
    reveal_strlit(".wav");
    if recording_file_name_of(a) == recording_file_name_of(b) {
        let na = recording_file_name_of(a);
        let nb = recording_file_name_of(b);
        let pa = zero_pad(decimal(a), 3);
        let pb = zero_pad(decimal(b), 3);
        assert(na.len() == 7 + pa.len() + 4);
        assert(nb.len() == 7 + pb.len() + 4);
        assert(na.subrange(7, 7 + pa.len() as int) =~= pa);
        assert(nb.subrange(7, 7 + pb.len() as int) =~= pb);
        lemma_zero_pad_value(a, 3);
        lemma_zero_pad_value(b, 3);
    }
}

/// The file name under which the raw recording of a sample is kept.
pub fn recording_file_name(sample_index: usize) -> (name: String)
    ensures
        name@ == recording_file_name_of(sample_index as nat),
{
    let mut name = String::from_str("sample_");
    name.append(zero_padded_decimal(sample_index as u64, 3).as_str());
    name.append(".wav");
    name
}

// ---------------------------------------------------------------------------
// Accuracy evaluation
// ---------------------------------------------------------------------------

/// How a recognition result compares with the word that was spoken.
#[derive(Debug, Clone, Copy, PartialEq, Eq)]
pub enum PredictionOutcome {
    /// The expected word was recognized.
    Correct,
    /// Another word was recognized.
    Wrong,
    /// No word was accepted.
    Rejected,
}

/// The outcome for a prediction (`None` when the recognizer rejected the
/// utterance) against the expected word.
pub open spec fn outcome_of(expected: Seq<char>, predicted: Option<Seq<char>>) -> PredictionOutcome {
    match predicted {
        Some(p) => if p == expected {
            PredictionOutcome::Correct
        } else {
            PredictionOutcome::Wrong
        },
        None => PredictionOutcome::Rejected,
    }
}

/// A recognized word counts as correct exactly when it is the spoken word,
/// as wrong exactly when it is another word, and a rejection counts as
/// neither.
pub proof fn lemma_outcome_of_words(expected: Seq<char>, predicted: Option<Seq<char>>)
    ensures
        (outcome_of(expected, predicted) == PredictionOutcome::Correct) <==> predicted == Some(
            expected,
        ),
        (outcome_of(expected, predicted) == PredictionOutcome::Wrong) <==> (predicted is Some
            && predicted != Some(expected)),
        (outcome_of(expected, predicted) == PredictionOutcome::Rejected) <==> predicted is None,
{
}

/// Compare a recognition result with the word that was spoken.
pub fn classify_prediction(expected: &str, predicted: Option<&str>) -> (outcome:
    PredictionOutcome)
    ensures
        outcome == outcome_of(
            expected@,
            match predicted {
                Some(p) => Some(p@),
                None => None,
            },
        ),
        predicted is None <==> outcome == PredictionOutcome::Rejected,
        forall|p: &str|
            predicted == Some(p) ==> (outcome == PredictionOutcome::Correct <==> p@ == expected@),
        forall|p: &str|
            predicted == Some(p) ==> (outcome == PredictionOutcome::Wrong <==> p@ != expected@),
{
    match predicted {
        Some(p) => if str_eq(p, expected) {
            PredictionOutcome::Correct
        } else {
            PredictionOutcome::Wrong
        },
        None => PredictionOutcome::Rejected,
    }
}

/// Running counts of an accuracy evaluation over recorded utterances.
#[derive(Debug, Clone, Copy, PartialEq, Eq)]
pub struct EvaluationTally {
    /// Utterances recognized as the expected word.
    pub correct: u32,
    /// Utterances evaluated, including those without detected speech.
    pub total: u32,
    /// Utterances for which the recognizer accepted no word.
    pub rejected: u32,
}

impl EvaluationTally {
    /// Every count at its bound: at most `total` correct and at most
    /// `total` rejected, never both for one utterance.
    pub open spec fn well_formed(&self) -> bool {
        self.correct + self.rejected <= self.total
    }

    /// A tally with nothing counted.
    pub fn new() -> (tally: Self)
        ensures
            tally.correct == 0 && tally.total == 0 && tally.rejected == 0,
            tally.well_formed(),
    {
        EvaluationTally { correct: 0, total: 0, rejected: 0 }
    }

    /// Count an utterance in which no speech was detected: it adds to the
    /// total only.
    pub fn record_no_speech(&mut self)
        requires
            old(self).total < u32::MAX,
        ensures
            final(self).total == old(self).total + 1,
            final(self).correct == old(self).correct,
            final(self).rejected == old(self).rejected,
            old(self).well_formed() ==> final(self).well_formed(),
    {
        self.total = self.total + 1;
    }

    /// Count an utterance with the given outcome.
    pub fn record(&mut self, outcome: PredictionOutcome)
        requires
            old(self).total < u32::MAX,
            old(self).well_formed(),
        ensures
            final(self).total == old(self).total + 1,
            final(self).correct == old(self).correct + if outcome == PredictionOutcome::Correct {
                1int
            } else {
                0int
            },
            final(self).rejected == old(self).rejected + if outcome == PredictionOutcome::Rejected {
                1int
            } else {
                0int
            },
            final(self).well_formed(),
    {
        self.total = self.total + 1;
        match outcome {
            PredictionOutcome::Correct => {
                self.correct = self.correct + 1;
            },
            PredictionOutcome::Wrong => {},
            PredictionOutcome::Rejected => {
                self.rejected = self.rejected + 1;
            },
        }
    }
}

} // verus!
