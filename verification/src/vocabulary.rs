//! The vocabulary of recognizable words: parsing the vocabulary file's
//! text, membership, and the word <-> class-index map of the classifier.
use vstd::prelude::*;
use vstd::hash_map::StringHashMap;

use crate::text::{
    chars_of, lemma_lex_asymmetric, lemma_lex_irreflexive, lemma_lex_total,
    lemma_lex_transitive, lex_lt, lowercase_of, split_lines, split_lines_of, str_lt,
    string_from_chars, to_lowercase, trim, trim_chars, views_of,
};

verus! {

/// The character sequences of a sequence of strings.
pub open spec fn strings_view(v: Seq<String>) -> Seq<Seq<char>> {
    Seq::new(v.len(), |i: int| v[i]@)
}

/// Whether a (trimmed, lower-cased) line names a word: it is neither blank
/// nor a `#` comment.
pub open spec fn is_word_line(w: Seq<char>) -> bool {
    w.len() > 0 && w[0] != '#'
}

/// The words of `lines` that name a word, each kept at its first
/// occurrence only, in order of first occurrence.
pub open spec fn collect_words(lines: Seq<Seq<char>>) -> Seq<Seq<char>>
    decreases lines.len(),
{
    if lines.len() == 0 {
        Seq::empty()
    } else {
        let prev = collect_words(lines.drop_last());
        let w = lines.last();
        if is_word_line(w) && !prev.contains(w) {
            prev.push(w)
        } else {
            prev
        }
    }
}

/// The word a vocabulary line stands for: the line trimmed and lower-cased.
pub open spec fn line_word(line: Seq<char>) -> Seq<char> {
    lowercase_of(trim(line))
}

/// The vocabulary that a vocabulary file with text `content` lists.
pub open spec fn vocabulary_of(content: Seq<char>) -> Seq<Seq<char>> {
    collect_words(split_lines(content).map_values(|l: Seq<char>| line_word(l)))
}

/// Whether two strings have the same characters.
pub fn str_eq(a: &str, b: &str) -> (r: bool)
    ensures
        r == (a@ == b@),
{
    let ac = chars_of(a);
    let bc = chars_of(b);
    if ac.len() != bc.len() {
        return false;
    }
    let mut i: usize = 0;
    while i < ac.len()
        invariant
            ac@ == a@,
            bc@ == b@,
            ac@.len() == bc@.len(),
            i <= ac@.len(),
            forall|k: int| 0 <= k < i ==> ac@[k] == bc@[k],
        decreases ac@.len() - i,
    {
        if ac[i] != bc[i] {
            assert(ac@[i as int] != bc@[i as int]);
            return false;
        }
        i = i + 1;
    }
    assert(ac@ =~= bc@);
    true
}

/// Check if a word is in the vocabulary.
pub fn is_in_vocabulary(vocabulary: &[String], word: &str) -> (found: bool)
    ensures
        found == strings_view(vocabulary@).contains(word@),
{
    let mut i: usize = 0;
    while i < vocabulary.len()
        invariant
            i <= vocabulary@.len(),
            forall|k: int| 0 <= k < i ==> vocabulary@[k]@ != word@,
        decreases vocabulary@.len() - i,
    {
        if str_eq(vocabulary[i].as_str(), word) {
            assert(strings_view(vocabulary@)[i as int] == word@);
            return true;
        }
        i = i + 1;
    }
    assert forall|k: int| 0 <= k < strings_view(vocabulary@).len() implies strings_view(
        vocabulary@,
    )[k] != word@ by {}
    false
}

/// Collected words are each listed once, each names a word, and each comes
/// from one of the lines.
pub proof fn lemma_collect_words_distinct(lines: Seq<Seq<char>>)
    ensures
        collect_words(lines).no_duplicates(),
        forall|k: int|
            0 <= k < collect_words(lines).len() ==> (#[trigger] collect_words(lines)[k]).len() > 0
                && collect_words(lines)[k][0] != '#' && lines.contains(collect_words(lines)[k]),
    decreases lines.len(),
{
    if lines.len() > 0 {
        let prev = collect_words(lines.drop_last());
        lemma_collect_words_distinct(lines.drop_last());
        assert forall|k: int| 0 <= k < prev.len() implies lines.contains(#[trigger] prev[k]) by {
            let j = choose|j: int| 0 <= j < lines.drop_last().len() && lines.drop_last()[j] == prev[k];
            assert(lines[j] == prev[k]);
        }
        assert(lines[lines.len() - 1] == lines.last());
    }
}

/// A vocabulary read from a file lists no word twice and no blank or
/// comment line.
pub proof fn lemma_vocabulary_words_distinct(content: Seq<char>)
    ensures
        vocabulary_of(content).no_duplicates(),
        forall|k: int|
            0 <= k < vocabulary_of(content).len() ==> (#[trigger] vocabulary_of(content)[k]).len()
                > 0 && vocabulary_of(content)[k][0] != '#',
{
    lemma_collect_words_distinct(split_lines(content).map_values(|l: Seq<char>| line_word(l)));
}

/// Every line that names a word is kept: a line that is neither blank nor a
/// `#` comment appears among the collected words.
pub proof fn lemma_collect_words_complete(lines: Seq<Seq<char>>)
    ensures
        forall|k: int|
            0 <= k < lines.len() && (#[trigger] lines[k]).len() > 0 && lines[k][0] != '#'
                ==> collect_words(lines).contains(lines[k]),
    decreases lines.len(),
{
    if lines.len() > 0 {
        let init = lines.drop_last();
        lemma_collect_words_complete(init);
        let prev = collect_words(init);
        assert forall|k: int|
            0 <= k < lines.len() && (#[trigger] lines[k]).len() > 0 && lines[k][0] != '#'
                implies collect_words(lines).contains(lines[k]) by {
            if k < lines.len() - 1 {
                assert(init[k] == lines[k]);
                assert(prev.contains(lines[k]));
                let j = choose|j: int| 0 <= j < prev.len() && prev[j] == lines[k];
                if collect_words(lines) != prev {
                    assert(collect_words(lines) == prev.push(lines.last()));
                    assert(collect_words(lines)[j] == lines[k]);
                }
            } else {
                assert(lines[k] == lines.last());
                if !prev.contains(lines.last()) {
                    assert(collect_words(lines) == prev.push(lines.last()));
                    assert(collect_words(lines)[prev.len() as int] == lines.last());
                }
            }
        }
    }
}

/// Every line of a vocabulary file that, trimmed and lower-cased, is
/// neither empty nor a `#` comment contributes its word.
pub proof fn lemma_vocabulary_complete(content: Seq<char>)
    ensures
        forall|k: int|
            0 <= k < split_lines(content).len() && line_word(#[trigger] split_lines(content)[k]).len()
                > 0 && line_word(split_lines(content)[k])[0] != '#' ==> vocabulary_of(
                content,
            ).contains(line_word(split_lines(content)[k])),
{
    let words = split_lines(content).map_values(|l: Seq<char>| line_word(l));
    lemma_collect_words_complete(words);
    assert forall|k: int|
        0 <= k < split_lines(content).len() && line_word(#[trigger] split_lines(content)[k]).len()
            > 0 && line_word(split_lines(content)[k])[0] != '#' implies vocabulary_of(
        content,
    ).contains(line_word(split_lines(content)[k])) by {
        assert(words[k] == line_word(split_lines(content)[k]));
    }
}

/// Keeps the entries of `lines` that name a word (neither blank nor a
/// `#` comment), dropping repeats of a word already kept.
pub fn collect_vocabulary(lines: &[String]) -> (words: Vec<String>)
    ensures
        strings_view(words@) == collect_words(strings_view(lines@)),
        forall|k: int|
            0 <= k < lines@.len() && (#[trigger] lines@[k])@.len() > 0 && lines@[k]@[0] != '#'
                ==> strings_view(words@).contains(lines@[k]@),
        forall|j: int|
            0 <= j < words@.len() ==> (#[trigger] words@[j])@.len() > 0 && words@[j]@[0] != '#'
                && strings_view(lines@).contains(words@[j]@),
        strings_view(words@).no_duplicates(),
{
    let mut words: Vec<String> = Vec::new();
    let mut i: usize = 0;
    while i < lines.len()
        invariant
            i <= lines@.len(),
            strings_view(words@) == collect_words(strings_view(lines@).take(i as int)),
        decreases lines@.len() - i,
    {
        let ghost prefix = strings_view(lines@).take(i + 1);
        assert(prefix.drop_last() =~= strings_view(lines@).take(i as int));
        assert(prefix.last() == lines@[i as int]@);
        let w = &lines[i];
        let wc = chars_of(w.as_str());
        let keep = wc.len() > 0 && wc[0] != '#';
        if keep && !is_in_vocabulary(words.as_slice(), w.as_str()) {
            let ghost before = words@;
            words.push(w.clone());
            assert(strings_view(words@) =~= strings_view(before).push(w@));
        }
        i = i + 1;
    }
    assert(strings_view(lines@).take(lines@.len() as int) =~= strings_view(lines@));
    proof {
        let lv = strings_view(lines@);
        lemma_collect_words_complete(lv);
        lemma_collect_words_distinct(lv);
        assert forall|k: int|
            0 <= k < lines@.len() && (#[trigger] lines@[k])@.len() > 0 && lines@[k]@[0] != '#'
                implies strings_view(words@).contains(lines@[k]@) by {
            assert(lv[k] == lines@[k]@);
        }
        assert forall|j: int| 0 <= j < words@.len() implies (#[trigger] words@[j])@.len() > 0
            && words@[j]@[0] != '#' && strings_view(lines@).contains(words@[j]@) by {
            assert(strings_view(words@)[j] == words@[j]@);
        }
    }
    words
}

/// The vocabulary listed by the text of a vocabulary file: one word per
/// line, trimmed and lower-cased; blank lines and lines starting with `#`
/// are ignored, and a repeated word is kept only where it first appears.
pub fn parse_vocabulary(content: &str) -> (words: Vec<String>)
    ensures
        strings_view(words@) == vocabulary_of(content@),
        forall|k: int|
            0 <= k < split_lines(content@).len() && line_word(
                #[trigger] split_lines(content@)[k],
            ).len() > 0 && line_word(split_lines(content@)[k])[0] != '#' ==> strings_view(
                words@,
            ).contains(line_word(split_lines(content@)[k])),
        forall|j: int|
            0 <= j < words@.len() ==> (#[trigger] words@[j])@.len() > 0 && words@[j]@[0] != '#',
        strings_view(words@).no_duplicates(),
{
    let chars = chars_of(content);
    let lines = split_lines_of(chars.as_slice());
    let mut normalized: Vec<String> = Vec::new();
    let mut i: usize = 0;
    while i < lines.len()
        invariant
            i <= lines@.len(),
            views_of(lines@) == split_lines(content@),
            strings_view(normalized@) == views_of(lines@).take(i as int).map_values(
                |l: Seq<char>| line_word(l),
            ),
        decreases lines@.len() - i,
    {
        let trimmed = trim_chars(lines[i].as_slice());
        let t = string_from_chars(trimmed.as_slice());
        let lower = to_lowercase(t.as_str());
        let ghost before = normalized@;
        assert(strings_view(before).len() == i);
        assert(before.len() == i);
        assert(lower@ == line_word(lines@[i as int]@));
        normalized.push(lower);
        assert(views_of(lines@)[i as int] == lines@[i as int]@);
        assert forall|k: int| 0 <= k < i implies strings_view(normalized@)[k] == strings_view(
            before,
        )[k] by {}
        assert forall|k: int| 0 <= k < i + 1 implies strings_view(normalized@)[k] == line_word(
            views_of(lines@)[k],
        ) by {
            if k < i {
                assert(strings_view(before)[k] == views_of(lines@).take(i as int).map_values(
                    |l: Seq<char>| line_word(l),
                )[k]);
            }
        }
        assert(strings_view(normalized@) =~= views_of(lines@).take(i + 1).map_values(
            |l: Seq<char>| line_word(l),
        ));
        i = i + 1;
    }
    assert(views_of(lines@).take(lines@.len() as int) =~= views_of(lines@));
    let words = collect_vocabulary(normalized.as_slice());
    proof {
        lemma_vocabulary_complete(content@);
        lemma_vocabulary_words_distinct(content@);
        assert forall|j: int| 0 <= j < words@.len() implies (#[trigger] words@[j])@.len() > 0
            && words@[j]@[0] != '#' by {
            assert(strings_view(words@)[j] == words@[j]@);
        }
    }
    words
}

} // verus!

verus! {

/// Whether `s` is strictly increasing in lexicographic order (so it is
/// sorted and holds no word twice).
pub open spec fn strictly_sorted(s: Seq<Seq<char>>) -> bool {
    forall|i: int, j: int| 0 <= i < j < s.len() ==> lex_lt(#[trigger] s[i], #[trigger] s[j])
}

/// The distinct words of `words` in alphabetical order.
pub fn sorted_distinct_words(words: &[String]) -> (sorted: Vec<String>)
    ensures
        strictly_sorted(strings_view(sorted@)),
        forall|w: Seq<char>| strings_view(sorted@).contains(w) <==> strings_view(words@).contains(w),
{
    let mut sorted: Vec<String> = Vec::new();
    let mut i: usize = 0;
    while i < words.len()
        invariant
            i <= words@.len(),
            strictly_sorted(strings_view(sorted@)),
            forall|w: Seq<char>|
                strings_view(sorted@).contains(w) <==> strings_view(words@).take(
                    i as int,
                ).contains(w),
        decreases words@.len() - i,
    {
        let w = &words[i];
        let ghost wv = w@;
        // position of the first word not before `w`
        let mut p: usize = 0;
        while p < sorted.len() && str_lt(sorted[p].as_str(), w.as_str())
            invariant
                p <= sorted@.len(),
                forall|k: int| 0 <= k < p ==> lex_lt(#[trigger] sorted@[k]@, wv),
                wv == w@,
            decreases sorted@.len() - p,
        {
            p = p + 1;
        }
        let ghost old_view = strings_view(sorted@);
        assert(strings_view(words@).take(i + 1) =~= strings_view(words@).take(i as int).push(
            wv,
        ));
        if p < sorted.len() && str_eq(sorted[p].as_str(), w.as_str()) {
            assert(old_view[p as int] == wv);
            assert forall|x: Seq<char>| old_view.contains(x) <==> strings_view(words@).take(
                i + 1,
            ).contains(x) by {
                if x == wv {
                    assert(old_view.contains(x));
                }
                if strings_view(words@).take(i + 1).contains(x) && x != wv {
                    let k = choose|k: int|
                        0 <= k < i + 1 && #[trigger] strings_view(words@).take(i + 1)[k] == x;
                    assert(strings_view(words@).take(i as int)[k] == x);
                }
            }
        } else {
            proof {
                if p < old_view.len() {
                    lemma_lex_total(old_view[p as int], wv);
                    assert(!lex_lt(old_view[p as int], wv));
                    assert(lex_lt(wv, old_view[p as int]));
                }
            }
            sorted.insert(p, w.clone());
            let ghost new_view = strings_view(sorted@);
            assert(new_view =~= old_view.insert(p as int, wv));
            assert forall|a: int, b: int| 0 <= a < b < new_view.len() implies lex_lt(
                #[trigger] new_view[a],
                #[trigger] new_view[b],
            ) by {
                if b < p {
                } else if b == p {
                    assert(new_view[a] == old_view[a]);
                } else if a == p {
                    assert(new_view[b] == old_view[b - 1]);
                    if b - 1 > p {
                        assert(lex_lt(old_view[p as int], old_view[b - 1]));
                        lemma_lex_transitive(wv, old_view[p as int], old_view[b - 1]);
                    }
                } else if a < p {
                    assert(new_view[b] == old_view[b - 1]);
                } else {
                    assert(new_view[a] == old_view[a - 1]);
                    assert(new_view[b] == old_view[b - 1]);
                }
            }
            assert forall|x: Seq<char>| new_view.contains(x) <==> strings_view(words@).take(
                i + 1,
            ).contains(x) by {
                let pre = strings_view(words@).take(i as int);
                let post = strings_view(words@).take(i + 1);
                if x == wv {
                    assert(new_view[p as int] == wv);
                    assert(post[i as int] == wv);
                } else {
                    if new_view.contains(x) {
                        let k = choose|k: int| 0 <= k < new_view.len() && #[trigger] new_view[k] == x;
                        if k < p {
                            assert(old_view[k] == x);
                        } else {
                            assert(old_view[k - 1] == x);
                        }
                        assert(old_view.contains(x));
                        assert(pre.contains(x));
                        let m = choose|m: int| 0 <= m < pre.len() && #[trigger] pre[m] == x;
                        assert(post[m] == x);
                    }
                    if post.contains(x) {
                        let k = choose|k: int| 0 <= k < post.len() && #[trigger] post[k] == x;
                        assert(pre[k] == x);
                        assert(pre.contains(x));
                        assert(old_view.contains(x));
                        let m = choose|m: int| 0 <= m < old_view.len() && #[trigger] old_view[m] == x;
                        if m < p {
                            assert(new_view[m] == x);
                        } else {
                            assert(new_view[m + 1] == x);
                        }
                    }
                }
            }
        }
        i = i + 1;
    }
    assert(strings_view(words@).take(words@.len() as int) =~= strings_view(words@));
    sorted
}

/// Vocabulary mapping: word <-> class index.
pub struct VocabMap {
    /// word -> index (sorted alphabetically).
    pub word_to_idx: StringHashMap<usize>,
    /// index -> word.
    pub idx_to_word: Vec<String>,
}

impl VocabMap {
    /// The class words, in class-index order.
    pub open spec fn words(&self) -> Seq<Seq<char>> {
        strings_view(self.idx_to_word@)
    }

    /// The classes are the words in alphabetical order, each once, and
    /// `word_to_idx` maps each word to its class index and nothing else.
    pub open spec fn well_formed(&self) -> bool {
        &&& strictly_sorted(self.words())
        &&& self.word_to_idx@.dom() == self.words().to_set()
        &&& forall|i: int|
            0 <= i < self.words().len() ==> self.word_to_idx@[#[trigger] self.words()[i]] == i
    }

    /// Build vocabulary from a list of word names (sorted alphabetically).
    pub fn from_words(words: &[String]) -> (vocab: Self)
        ensures
            vocab.well_formed(),
            forall|w: Seq<char>| vocab.words().contains(w) <==> strings_view(words@).contains(w),
    {
        let sorted = sorted_distinct_words(words);
        let mut word_to_idx: StringHashMap<usize> = StringHashMap::new();
        let mut j: usize = 0;
        while j < sorted.len()
            invariant
                j <= sorted@.len(),
                strictly_sorted(strings_view(sorted@)),
                word_to_idx@.dom() == strings_view(sorted@).take(j as int).to_set(),
                forall|k: int| 0 <= k < j ==> word_to_idx@[#[trigger] strings_view(sorted@)[k]] == k,
            decreases sorted@.len() - j,
        {
            let ghost sv = strings_view(sorted@);
            word_to_idx.insert(sorted[j].clone(), j);
            assert(sv.take(j + 1) =~= sv.take(j as int).push(sv[j as int]));
            proof {
                sv.take(j as int).lemma_push_to_set_commute(sv[j as int]);
            }
            assert forall|k: int| 0 <= k < j + 1 implies word_to_idx@[#[trigger] sv[k]] == k by {
                if k < j {
                    assert(lex_lt(sv[k], sv[j as int]));
                    lemma_lex_irreflexive(sv[k]);
                }
            }
            j = j + 1;
        }
        assert(strings_view(sorted@).take(sorted@.len() as int) =~= strings_view(sorted@));
        VocabMap { word_to_idx, idx_to_word: sorted }
    }

    /// The number of classes.
    pub fn num_classes(&self) -> (n: usize)
        ensures
            n == self.idx_to_word@.len(),
    {
        self.idx_to_word.len()
    }
}

/// Two strictly increasing word sequences that hold the same words are
/// equal.
pub proof fn lemma_strictly_sorted_unique(a: Seq<Seq<char>>, b: Seq<Seq<char>>)
    requires
        strictly_sorted(a),
        strictly_sorted(b),
        forall|w: Seq<char>| a.contains(w) <==> b.contains(w),
    ensures
        a == b,
    decreases a.len(),
{
    if a.len() == 0 {
        if b.len() > 0 {
            assert(b.contains(b[0]));
        }
        assert(a =~= b);
    } else {
        assert(a.contains(a[0]));
        assert(b.len() > 0);
        assert(b.contains(b[0]));
        let j = choose|j: int| 0 <= j < b.len() && b[j] == a[0];
        let i = choose|i: int| 0 <= i < a.len() && a[i] == b[0];
        if j > 0 {
            assert(lex_lt(b[0], b[j]));
            if i > 0 {
                assert(lex_lt(a[0], a[i]));
                lemma_lex_asymmetric(a[0], a[i]);
            } else {
                lemma_lex_irreflexive(a[0]);
            }
        }
        assert(a[0] == b[0]);
        let a1 = a.drop_first();
        let b1 = b.drop_first();
        assert forall|w: Seq<char>| a1.contains(w) <==> b1.contains(w) by {
            if a1.contains(w) {
                let k = choose|k: int| 0 <= k < a1.len() && a1[k] == w;
                assert(a[k + 1] == w);
                assert(lex_lt(a[0], a[k + 1]));
                lemma_lex_irreflexive(w);
                assert(b.contains(w));
                let m = choose|m: int| 0 <= m < b.len() && b[m] == w;
                assert(m != 0);
                assert(b1[m - 1] == w);
            }
            if b1.contains(w) {
                let k = choose|k: int| 0 <= k < b1.len() && b1[k] == w;
                assert(b[k + 1] == w);
                assert(lex_lt(b[0], b[k + 1]));
                lemma_lex_irreflexive(w);
                assert(a.contains(w));
                let m = choose|m: int| 0 <= m < a.len() && a[m] == w;
                assert(m != 0);
                assert(a1[m - 1] == w);
            }
        }
        lemma_strictly_sorted_unique(a1, b1);
        assert(a =~= seq![a[0]] + a1);
        assert(b =~= seq![b[0]] + b1);
    }
}

/// A well-formed vocabulary map is determined by its set of words: maps
/// built from the same words (in any order, with any repeats) list the same
/// classes in the same order.
pub proof fn lemma_vocab_determined_by_words(v1: &VocabMap, v2: &VocabMap)
    requires
        v1.well_formed(),
        v2.well_formed(),
        forall|w: Seq<char>| v1.words().contains(w) <==> v2.words().contains(w),
    ensures
        v1.words() == v2.words(),
        v1.word_to_idx@ == v2.word_to_idx@,
{
    lemma_strictly_sorted_unique(v1.words(), v2.words());
    assert(v1.word_to_idx@ =~= v2.word_to_idx@);
}

} // verus!
