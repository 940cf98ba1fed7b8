//! Layout of the template store on disk: one directory per word holding
//! files `template_NNN.bin`, one per recorded sample.
use vstd::prelude::*;
use vstd::string::*;

use crate::vocabulary::strings_view;
use crate::text::{
    chars_of, decimal, digits_value, lemma_decimal_value, lemma_lex_asymmetric,
    lemma_lex_irreflexive, lemma_lex_total, lemma_lex_transitive, lex_lt, str_lt,
    zero_pad, zero_padded_decimal,
};

verus! {

/// The file name of the template with sample index `sample_index`:
/// `template_` followed by the index in decimal, zero-padded to three
/// digits, and `.bin`.
pub open spec fn template_file_name_of(sample_index: nat) -> Seq<char> {
    "template_"@ + zero_pad(decimal(sample_index), 3) + ".bin"@
}

/// The file name under which the template of a sample is stored.
pub fn template_file_name(sample_index: usize) -> (name: String)
    ensures
        name@ == template_file_name_of(sample_index as nat),
{
    let mut name = String::from_str("template_");
    name.append(zero_padded_decimal(sample_index as u64, 3).as_str());
    name.append(".bin");
    name
}

proof fn lemma_zeros_value(z: nat)
    ensures
        digits_value(Seq::new(z, |i: int| '0')) == 0,
    decreases z,
{
    if z > 0 {
        assert(Seq::new(z, |i: int| '0').drop_last() =~= Seq::new((z - 1) as nat, |i: int| '0'));
        lemma_zeros_value((z - 1) as nat);
    }
}

proof fn lemma_leading_zeros_value(z: nat, d: Seq<char>)
    ensures
        digits_value(Seq::new(z, |i: int| '0') + d) == digits_value(d),
    decreases d.len(),
{
    let zeros = Seq::new(z, |i: int| '0');
    if d.len() == 0 {
        assert(zeros + d =~= zeros);
        lemma_zeros_value(z);
    } else {
        assert((zeros + d).drop_last() =~= zeros + d.drop_last());
        lemma_leading_zeros_value(z, d.drop_last());
    }
}

/// Zero padding keeps the value of a decimal representation.
pub proof fn lemma_zero_pad_value(n: nat, width: nat)
    ensures
        digits_value(zero_pad(decimal(n), width)) == n,
{
    lemma_decimal_value(n);
    if decimal(n).len() < width {
        lemma_leading_zeros_value((width - decimal(n).len()) as nat, decimal(n));
    }
}

/// Different samples of a word are stored in different files.
pub proof fn lemma_template_file_names_distinct(a: nat, b: nat)
    requires
        a != b,
    ensures
        template_file_name_of(a) != template_file_name_of(b),
{
    reveal_strlit("template_");
    reveal_strlit(".bin");
    if template_file_name_of(a) == template_file_name_of(b) {
        let na = template_file_name_of(a);
        let pa = zero_pad(decimal(a), 3);
        let pb = zero_pad(decimal(b), 3);
        assert(na.len() == 9 + pa.len() + 4);
        assert(template_file_name_of(b).len() == 9 + pb.len() + 4);
        assert(na.subrange(9, 9 + pa.len() as int) =~= pa);
        assert(template_file_name_of(b).subrange(9, 9 + pb.len() as int) =~= pb);
        lemma_zero_pad_value(a, 3);
        lemma_zero_pad_value(b, 3);
    }
}

/// The index of the last `'.'` in `s`, or -1 when there is none.
pub open spec fn last_dot(s: Seq<char>) -> int
    decreases s.len(),
{
    if s.len() == 0 {
        -1
    } else if s.last() == '.' {
        s.len() - 1
    } else {
        last_dot(s.drop_last())
    }
}

proof fn lemma_last_dot(s: Seq<char>)
    ensures
        -1 <= last_dot(s) < s.len(),
        last_dot(s) >= 0 ==> s[last_dot(s)] == '.',
        forall|k: int| last_dot(s) < k < s.len() ==> s[k] != '.',
    decreases s.len(),
{
    if s.len() > 0 && s.last() != '.' {
        lemma_last_dot(s.drop_last());
        assert forall|k: int| last_dot(s) < k < s.len() implies s[k] != '.' by {
            if k < s.len() - 1 {
                assert(s[k] == s.drop_last()[k]);
            }
        }
    }
}

/// The extension of a file name (as `Path::extension` gives it): the part
/// after the last `'.'`; none when the name has no `'.'`, when its only
/// `'.'` begins it, or when the name is `".."`.
pub open spec fn extension_of(name: Seq<char>) -> Option<Seq<char>> {
    let k = last_dot(name);
    if name == seq!['.', '.'] || k <= 0 {
        None
    } else {
        Some(name.subrange(k + 1, name.len() as int))
    }
}

/// Whether the file name `name` has the extension `ext`.
pub fn has_extension(name: &str, ext: &str) -> (b: bool)
    ensures
        b == (extension_of(name@) == Some(ext@)),
{
    let nc = chars_of(name);
    let ec = chars_of(ext);
    let n = nc.len();
    if n == 2 && nc[0] == '.' && nc[1] == '.' {
        assert(nc@ =~= seq!['.', '.']);
        return false;
    }
    assert(nc@ != seq!['.', '.']);
    // find the last dot
    let mut k: usize = n;
    assert(nc@.take(n as int) =~= nc@);
    while k > 0 && nc[k - 1] != '.'
        invariant
            k <= n == nc@.len(),
            nc@ == name@,
            last_dot(nc@) == last_dot(nc@.take(k as int)),
        decreases k,
    {
        assert(nc@.take(k as int).drop_last() =~= nc@.take(k - 1));
        k = k - 1;
    }
    proof {
        assert(nc@.take(n as int) =~= nc@);
        if k > 0 {
            assert(nc@.take(k as int).last() == '.');
        }
    }
    // k is one past the last dot (0 when there is none)
    if k <= 1 {
        return false;
    }
    let ghost dot = k - 1;
    assert(last_dot(nc@) == dot);
    let m = ec.len();
    if n - k != m {
        assert(nc@.subrange(k as int, n as int).len() != ec@.len());
        return false;
    }
    let mut j: usize = 0;
    while j < m
        invariant
            j <= m == ec@.len(),
            k + m == n == nc@.len(),
            nc@ == name@,
            ec@ == ext@,
            k >= 2,
            last_dot(nc@) == k - 1,
            nc@ != seq!['.', '.'],
            forall|t: int| 0 <= t < j ==> nc@[k + t] == ec@[t],
        decreases m - j,
    {
        if nc[k + j] != ec[j] {
            assert(nc@.subrange(k as int, n as int)[j as int] != ec@[j as int]);
            return false;
        }
        j = j + 1;
    }
    assert(nc@.subrange(k as int, n as int) =~= ec@);
    true
}

/// Appending never overwrites: a sample index above every stored index
/// names a file different from every stored template's file.
pub proof fn lemma_appended_sample_is_new_file(stored: Seq<usize>, next: nat)
    requires
        forall|k: int| 0 <= k < stored.len() ==> stored[k] < next,
    ensures
        forall|k: int|
            0 <= k < stored.len() ==> template_file_name_of(next) != template_file_name_of(
                #[trigger] stored[k] as nat,
            ),
{
    assert forall|k: int| 0 <= k < stored.len() implies template_file_name_of(next)
        != template_file_name_of(#[trigger] stored[k] as nat) by {
        lemma_template_file_names_distinct(next, stored[k] as nat);
    }
}

/// Every file the store writes for a sample is recognized as a template
/// file when the word directory is listed: its extension is `bin`.
pub proof fn lemma_template_file_has_bin_extension(sample_index: nat)
    ensures
        extension_of(template_file_name_of(sample_index)) == Some("bin"@),
{
    reveal_strlit("template_");
    reveal_strlit(".bin");
    reveal_strlit("bin");
    let name = template_file_name_of(sample_index);
    let n = name.len() as int;
    let head = "template_"@ + zero_pad(decimal(sample_index), 3);
    assert(name == head + ".bin"@);
    assert(n >= 13);
    assert(name[n - 1] == 'n');
    assert(name[n - 2] == 'i');
    assert(name[n - 3] == 'b');
    assert(name[n - 4] == '.');
    assert(name.drop_last().last() == 'i');
    assert(name.drop_last().drop_last().last() == 'b');
    assert(name.drop_last().drop_last().drop_last().last() == '.');
    assert(last_dot(name.drop_last().drop_last().drop_last()) == n - 4);
    assert(last_dot(name.drop_last().drop_last()) == n - 4);
    assert(last_dot(name.drop_last()) == n - 4);
    assert(last_dot(name) == n - 4);
    assert(name != seq!['.', '.']);
    assert(name.subrange(n - 3, n) =~= "bin"@);
}

/// The number of template files among the entries of a word directory.
pub fn count_template_files(entries: &[String]) -> (count: usize)
    ensures
        count == entries@.filter(|e: String| extension_of(e@) == Some("bin"@)).len(),
{
    let mut count: usize = 0;
    let mut i: usize = 0;
    let ghost pred = |e: String| extension_of(e@) == Some("bin"@);
    while i < entries.len()
        invariant
            i <= entries@.len(),
            pred == (|e: String| extension_of(e@) == Some("bin"@)),
            count == entries@.take(i as int).filter(pred).len(),
            count <= i,
        decreases entries@.len() - i,
    {
        proof {
            reveal_with_fuel(Seq::<_>::filter, 1);
            assert(entries@.take(i + 1).drop_last() =~= entries@.take(i as int));
            assert(entries@.take(i + 1).last() == entries@[i as int]);
        }
        let is_template = has_extension(entries[i].as_str(), "bin");
        assert(is_template == pred(entries@[i as int]));
        assert(entries@.take(i + 1).filter(pred) == (if pred(entries@[i as int]) {
            entries@.take(i as int).filter(pred).push(entries@[i as int])
        } else {
            entries@.take(i as int).filter(pred)
        }));
        if is_template {
            count = count + 1;
        }
        i = i + 1;
    }
    assert(entries@.take(entries@.len() as int) =~= entries@);
    count
}

/// Manages persistence of word templates on disk.
///
/// Directory structure:
/// ```text
/// templates_dir/
///   start/
///     template_000.bin
///     template_001.bin
///   stop/
///     template_000.bin
/// ```
pub struct TemplateStore {
    base_dir: String,
}

impl TemplateStore {
    /// A store rooted at `base_dir`.
    pub fn new(base_dir: String) -> (store: Self)
        ensures
            store.base_dir_view() == base_dir@,
    {
        TemplateStore { base_dir }
    }

    pub closed spec fn base_dir_view(&self) -> Seq<char> {
        self.base_dir@
    }

    /// The directory the store is rooted at.
    pub fn base_dir(&self) -> (dir: &str)
        ensures
            dir@ == self.base_dir_view(),
    {
        self.base_dir.as_str()
    }

    /// The next available sample index for a word whose stored templates
    /// have the sample indices `stored`: one past the largest, or 0 when the
    /// word has none.
    pub fn next_sample_index(&self, stored: &[usize]) -> (next: usize)
        requires
            forall|k: int| 0 <= k < stored@.len() ==> stored@[k] < usize::MAX,
        ensures
            stored@.len() == 0 ==> next == 0,
            stored@.len() > 0 ==> {
                &&& exists|k: int| 0 <= k < stored@.len() && next == stored@[k] + 1
                &&& forall|k: int| 0 <= k < stored@.len() ==> stored@[k] < next
            },
    {
        if stored.len() == 0 {
            return 0;
        }
        let mut largest: usize = stored[0];
        let mut i: usize = 1;
        while i < stored.len()
            invariant
                1 <= i <= stored@.len(),
                exists|k: int| 0 <= k < i && largest == stored@[k],
                forall|k: int| 0 <= k < i ==> stored@[k] <= largest,
                forall|k: int| 0 <= k < stored@.len() ==> stored@[k] < usize::MAX,
            decreases stored@.len() - i,
        {
            if stored[i] > largest {
                largest = stored[i];
            }
            i = i + 1;
        }
        largest + 1
    }
}

} // verus!

verus! {

/// Whether a directory entry is a template file.
pub open spec fn is_template_entry(e: String) -> bool {
    extension_of(e@) == Some("bin"@)
}

/// The number of template files among the entries of a word directory.
pub open spec fn template_count_of(entries: Seq<String>) -> nat {
    entries.filter(|e: String| is_template_entry(e)).len()
}

/// The (word, count) pairs as character sequences and numbers.
pub open spec fn counts_view(counts: Seq<(String, usize)>) -> Seq<(Seq<char>, nat)> {
    Seq::new(counts.len(), |i: int| (counts[i].0@, counts[i].1 as nat))
}

/// Whether the pairs are in alphabetical order of their words.
pub open spec fn sorted_by_word(s: Seq<(Seq<char>, nat)>) -> bool {
    forall|i: int, j: int| 0 <= i < j < s.len() ==> !lex_lt(#[trigger] s[j].0, #[trigger] s[i].0)
}

impl TemplateStore {
    /// The count of templates per word, in alphabetical order of the words,
    /// for word directories `words` whose entries are `entries` (the same
    /// position in both lists describes the same directory); directories
    /// of equal names keep the order in which they are listed.
    pub fn template_counts(&self, words: &[String], entries: &[Vec<String>]) -> (counts: Vec<
        (String, usize),
    >)
        requires
            words@.len() == entries@.len(),
        ensures
            sorted_by_word(counts_view(counts@)),
            exists|order: Seq<usize>|
                {
                    &&& is_stable_word_order(strings_view(words@), order)
                    &&& #[trigger] counts_view(counts@) == Seq::new(
                        order.len(),
                        |k: int|
                            (
                                words@[order[k] as int]@,
                                template_count_of(entries@[order[k] as int]@),
                            ),
                    )
                },
    {
        let order = word_order(words);
        let ghost wv = strings_view(words@);
        let ghost target = Seq::new(
            order@.len(),
            |k: int| (words@[order@[k] as int]@, template_count_of(entries@[order@[k] as int]@)),
        );
        let mut counts: Vec<(String, usize)> = Vec::new();
        let mut k: usize = 0;
        while k < order.len()
            invariant
                k <= order@.len() == words@.len() == entries@.len(),
                is_stable_word_order(wv, order@),
                wv == strings_view(words@),
                target == Seq::new(
                    order@.len(),
                    |k: int|
                        (words@[order@[k] as int]@, template_count_of(entries@[order@[k] as int]@)),
                ),
                counts_view(counts@) == target.take(k as int),
            decreases order@.len() - k,
        {
            let j = order[k];
            assert(order@[k as int] < words@.len());
            let c = count_template_files(entries[j].as_slice());
            assert(c == template_count_of(entries@[j as int]@)) by {
                assert((|e: String| extension_of(e@) == Some("bin"@)) =~= (|e: String|
                    is_template_entry(e)));
            }
            let ghost before = counts_view(counts@);
            counts.push((words[j].clone(), c));
            assert(counts_view(counts@) =~= before.push((words@[j as int]@, c as nat)));
            assert(target.take(k + 1) =~= target.take(k as int).push(target[k as int]));
            k = k + 1;
        }
        assert(target.take(order@.len() as int) =~= target);
        assert forall|a: int, b: int|
            0 <= a < b < counts_view(counts@).len() implies !lex_lt(
            #[trigger] counts_view(counts@)[b].0,
            #[trigger] counts_view(counts@)[a].0,
        ) by {
            assert(counts_view(counts@)[a].0 == wv[order@[a] as int]);
            assert(counts_view(counts@)[b].0 == wv[order@[b] as int]);
        }
        counts
    }
}


/// `order` lists the positions `0..keys.len()` once each, by increasing
/// key, positions with equal keys in increasing order: the permutation that
/// a stable sort by key applies.
pub open spec fn is_stable_sort_order(keys: Seq<usize>, order: Seq<usize>) -> bool {
    &&& order.len() == keys.len()
    &&& forall|k: int| 0 <= k < order.len() ==> #[trigger] order[k] < keys.len()
    &&& forall|a: int, b: int| 0 <= a < b < order.len() ==> #[trigger] order[a] != #[trigger] order[b]
    &&& forall|a: int, b: int|
        0 <= a < b < order.len() ==> keys[#[trigger] order[a] as int] <= keys[#[trigger] order[b] as int]
    &&& forall|a: int, b: int|
        0 <= a < b < order.len() && keys[#[trigger] order[a] as int] == keys[#[trigger] order[b] as int]
            ==> order[a] < order[b]
}

/// The order in which loaded templates are listed, given their sample
/// indices in the order they were read: by increasing sample index, with
/// templates of equal index keeping the order they were read in.
pub fn sample_order(indices: &[usize]) -> (order: Vec<usize>)
    ensures
        is_stable_sort_order(indices@, order@),
{
    let n = indices.len();
    let mut order: Vec<usize> = Vec::new();
    let mut i: usize = 0;
    while i < n
        invariant
            i <= n == indices@.len(),
            order@.len() == i,
            forall|k: int| 0 <= k < order@.len() ==> #[trigger] order@[k] < i,
            forall|a: int, b: int|
                0 <= a < b < order@.len() ==> #[trigger] order@[a] != #[trigger] order@[b],
            forall|a: int, b: int|
                0 <= a < b < order@.len() ==> indices@[#[trigger] order@[a] as int]
                    <= indices@[#[trigger] order@[b] as int],
            forall|a: int, b: int|
                0 <= a < b < order@.len() && indices@[#[trigger] order@[a] as int]
                    == indices@[#[trigger] order@[b] as int] ==> order@[a] < order@[b],
        decreases n - i,
    {
        let key = indices[i];
        let mut p: usize = 0;
        while p < order.len() && indices[order[p]] <= key
            invariant
                p <= order@.len(),
                forall|k: int| 0 <= k < order@.len() ==> #[trigger] order@[k] < i,
                i < n == indices@.len(),
                key == indices@[i as int],
                forall|k: int| 0 <= k < p ==> indices@[#[trigger] order@[k] as int] <= key,
            decreases order@.len() - p,
        {
            p = p + 1;
        }
        let ghost before = order@;
        proof {
            // everything from p on has a key above `key`
            assert forall|k: int| p <= k < before.len() implies key < indices@[
                #[trigger] before[k] as int] by {
                if p < before.len() {
                    assert(indices@[before[p as int] as int] > key);
                    if k > p {
                        assert(indices@[before[p as int] as int] <= indices@[before[k] as int]);
                    }
                }
            }
        }
        order.insert(p, i);
        proof {
            assert(order@ =~= before.insert(p as int, i));
            assert forall|a: int, b: int| 0 <= a < b < order@.len() implies #[trigger] order@[a]
                != #[trigger] order@[b] by {
                if a < p && b < p {
                } else if a < p && b == p {
                } else if a < p {
                    assert(order@[b] == before[b - 1]);
                } else if a == p {
                    assert(order@[b] == before[b - 1]);
                } else {
                    assert(order@[a] == before[a - 1]);
                    assert(order@[b] == before[b - 1]);
                }
            }
            assert forall|a: int, b: int| 0 <= a < b < order@.len() implies indices@[
                #[trigger] order@[a] as int] <= indices@[#[trigger] order@[b] as int] && (indices@[
                order@[a] as int] == indices@[order@[b] as int] ==> order@[a] < order@[b]) by {
                if b < p {
                    assert(order@[a] == before[a] && order@[b] == before[b]);
                } else if b == p {
                    assert(order@[a] == before[a]);
                } else if a < p {
                    assert(order@[a] == before[a] && order@[b] == before[b - 1]);
                } else if a == p {
                    assert(order@[b] == before[b - 1]);
                } else {
                    assert(order@[a] == before[a - 1] && order@[b] == before[b - 1]);
                }
            }
        }
        i = i + 1;
    }
    order
}


/// `order` lists the positions `0..words.len()` once each, in alphabetical
/// order of their words, equal words keeping their positions' order: the
/// permutation that a stable sort by word applies.
pub open spec fn is_stable_word_order(words: Seq<Seq<char>>, order: Seq<usize>) -> bool {
    &&& order.len() == words.len()
    &&& forall|k: int| 0 <= k < order.len() ==> #[trigger] order[k] < words.len()
    &&& forall|a: int, b: int| 0 <= a < b < order.len() ==> #[trigger] order[a] != #[trigger] order[b]
    &&& forall|a: int, b: int|
        0 <= a < b < order.len() ==> !lex_lt(
            words[#[trigger] order[b] as int],
            words[#[trigger] order[a] as int],
        )
    &&& forall|a: int, b: int|
        0 <= a < b < order.len() && words[#[trigger] order[a] as int] == words[#[trigger] order[
            b] as int] ==> order[a] < order[b]
}

/// The positions of `words` in alphabetical order of the words, equal
/// words in the order of their positions.
pub fn word_order(words: &[String]) -> (order: Vec<usize>)
    ensures
        is_stable_word_order(strings_view(words@), order@),
{
    let ghost w = strings_view(words@);
    let n = words.len();
    let mut order: Vec<usize> = Vec::new();
    let mut i: usize = 0;
    while i < n
        invariant
            i <= n == words@.len() == w.len(),
            w == strings_view(words@),
            order@.len() == i,
            forall|k: int| 0 <= k < order@.len() ==> #[trigger] order@[k] < i,
            forall|a: int, b: int|
                0 <= a < b < order@.len() ==> #[trigger] order@[a] != #[trigger] order@[b],
            forall|a: int, b: int|
                0 <= a < b < order@.len() ==> !lex_lt(
                    w[#[trigger] order@[b] as int],
                    w[#[trigger] order@[a] as int],
                ),
            forall|a: int, b: int|
                0 <= a < b < order@.len() && w[#[trigger] order@[a] as int] == w[
                #[trigger] order@[b] as int] ==> order@[a] < order@[b],
        decreases n - i,
    {
        let word = words[i].as_str();
        let mut p: usize = 0;
        while p < order.len() && !str_lt(word, words[order[p]].as_str())
            invariant
                p <= order@.len(),
                forall|k: int| 0 <= k < order@.len() ==> #[trigger] order@[k] < i,
                i < n == words@.len() == w.len(),
                w == strings_view(words@),
                word@ == w[i as int],
                forall|k: int| 0 <= k < p ==> !lex_lt(w[i as int], w[#[trigger] order@[k] as int]),
            decreases order@.len() - p,
        {
            p = p + 1;
        }
        let ghost before = order@;
        proof {
            assert forall|k: int| p <= k < before.len() implies lex_lt(
                w[i as int],
                w[#[trigger] before[k] as int],
            ) by {
                let wp = w[before[p as int] as int];
                let wk = w[before[k] as int];
                assert(lex_lt(w[i as int], wp));
                if k > p {
                    assert(!lex_lt(wk, wp));
                    lemma_lex_total(wp, wk);
                    if wp != wk {
                        lemma_lex_transitive(w[i as int], wp, wk);
                    }
                }
            }
        }
        order.insert(p, i);
        proof {
            assert(order@ =~= before.insert(p as int, i));
            assert forall|a: int, b: int| 0 <= a < b < order@.len() implies #[trigger] order@[a]
                != #[trigger] order@[b] by {
                if a < p && b < p {
                } else if a < p && b == p {
                } else if a < p {
                    assert(order@[b] == before[b - 1]);
                } else if a == p {
                    assert(order@[b] == before[b - 1]);
                } else {
                    assert(order@[a] == before[a - 1]);
                    assert(order@[b] == before[b - 1]);
                }
            }
            assert forall|a: int, b: int| 0 <= a < b < order@.len() implies !lex_lt(
                w[#[trigger] order@[b] as int],
                w[#[trigger] order@[a] as int],
            ) && (w[order@[a] as int] == w[order@[b] as int] ==> order@[a] < order@[b]) by {
                if b < p {
                    assert(order@[a] == before[a] && order@[b] == before[b]);
                } else if b == p {
                    assert(order@[a] == before[a]);
                } else if a < p {
                    assert(order@[a] == before[a] && order@[b] == before[b - 1]);
                } else if a == p {
                    assert(order@[b] == before[b - 1]);
                    lemma_lex_asymmetric(w[i as int], w[before[b - 1] as int]);
                    lemma_lex_irreflexive(w[i as int]);
                } else {
                    assert(order@[a] == before[a - 1] && order@[b] == before[b - 1]);
                }
            }
        }
        i = i + 1;
    }
    order
}

} // verus!
