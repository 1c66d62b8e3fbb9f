//! Word-level bidi helpers of table text extraction.
use vstd::prelude::*;
use crate::bidi::scripts::{
    contains_compact_mixed_token, contains_rtl_script, has_compact_mixed, has_rtl_script,
    is_ltr_content, spec_is_ltr_content,
};
use crate::bidi::text::{
    chars_of_str, normalize_arabic_presentation_forms, reconstruct_text_per_line,
    reconstruct_text_spec,
};
use crate::bidi::spans::normalize_chars;
use crate::bidi::unicode::{char_is_alphabetic, char_is_alphanumeric, unicode_alphabetic, unicode_numeric};

verus! {

/// The bidi class of a word.
#[derive(Clone, Copy, PartialEq, Eq, Structural, Debug)]
pub enum WordBidiClass {
    Rtl,
    Ltr,
    Neutral,
}

pub open spec fn has_alphabetic(s: Seq<char>) -> bool {
    exists|i: int| 0 <= i < s.len() && unicode_alphabetic(#[trigger] s[i])
}

/// Right-to-left when the word has right-to-left script, left-to-right when
/// it has another letter, neutral otherwise.
pub open spec fn word_class_of(s: Seq<char>) -> WordBidiClass {
    if has_rtl_script(s) {
        WordBidiClass::Rtl
    } else if has_alphabetic(s) {
        WordBidiClass::Ltr
    } else {
        WordBidiClass::Neutral
    }
}

pub fn word_bidi_class(text: &str) -> (r: WordBidiClass)
    ensures
        r == word_class_of(text@),
{
    let chars = chars_of_str(text);
    if contains_rtl_script(chars.as_slice()) {
        return WordBidiClass::Rtl;
    }
    let mut i: usize = 0;
    while i < chars.len()
        invariant
            i <= chars.len(),
            chars@ == text@,
            !has_rtl_script(text@),
            forall|j: int| 0 <= j < i ==> !unicode_alphabetic(#[trigger] chars@[j]),
        decreases chars.len() - i,
    {
        if char_is_alphabetic(chars[i]) {
            assert(unicode_alphabetic(text@[i as int]));
            return WordBidiClass::Ltr;
        }
        i += 1;
    }
    WordBidiClass::Neutral
}

/// The start of the maximal run of one class that ends at index `n - 1`.
pub open spec fn last_run_start(classes: Seq<WordBidiClass>, n: int) -> int
    decreases n,
{
    if n <= 1 {
        0
    } else if classes[n - 2] == classes[n - 1] {
        last_run_start(classes, n - 1)
    } else {
        n - 1
    }
}

/// The first `n` words with the order of their runs reversed and the words
/// of each right-to-left run reversed.
pub open spec fn reorder_runs<T>(words: Seq<T>, classes: Seq<WordBidiClass>, n: int) -> Seq<T>
    decreases n,
{
    if n <= 0 {
        Seq::empty()
    } else {
        let r = last_run_start(classes, n);
        if r < 0 || r >= n {
            Seq::empty()
        } else {
            let run = words.subrange(r, n);
            (if classes[n - 1] == WordBidiClass::Rtl {
                run.reverse()
            } else {
                run
            }) + reorder_runs(words, classes, r)
        }
    }
}

/// Words in left-to-right geometric order put in the legacy reading order:
/// unchanged without right-to-left words, else runs of one class in reverse
/// order and the words of right-to-left runs reversed.
pub open spec fn reorder_words_spec<T>(words: Seq<T>, classes: Seq<WordBidiClass>) -> Seq<T> {
    if !(exists|i: int| 0 <= i < classes.len() && classes[i] == WordBidiClass::Rtl) {
        words
    } else {
        reorder_runs(words, classes, words.len() as int)
    }
}

pub proof fn lemma_last_run_start_bounds(classes: Seq<WordBidiClass>, n: int)
    requires
        1 <= n <= classes.len(),
    ensures
        0 <= last_run_start(classes, n) < n,
        forall|j: int| last_run_start(classes, n) <= j < n ==> #[trigger] classes[j] == classes[n - 1],
    decreases n,
{
    if n > 1 && classes[n - 2] == classes[n - 1] {
        lemma_last_run_start_bounds(classes, n - 1);
    }
}

/// The bidi class of each text.
pub open spec fn text_classes(texts: Seq<String>) -> Seq<WordBidiClass> {
    texts.map_values(|t: String| word_class_of(t@))
}

/// Reorders left-to-right geometric word runs with the legacy policy; the
/// text of word `k` is `texts[k]`.
pub fn reorder_visual_word_runs<T>(words: Vec<T>, texts: &Vec<String>) -> (r: Vec<T>)
    requires
        texts.len() == words.len(),
    ensures
        r@ == reorder_words_spec(
            words@,
            texts@.map_values(|t: String| word_class_of(t@)),
        ),
        forall|s: int, e: int|
            #![trigger maximal_run(text_classes(texts@), words@.len() as int, s, e)]
            maximal_run(text_classes(texts@), words@.len() as int, s, e) ==> {
                let classes = text_classes(texts@);
                &&& (exists|i: int| 0 <= i < classes.len() && classes[i] == WordBidiClass::Rtl) ==> r@.subrange(
                    words@.len() - e,
                    words@.len() - s,
                ) == (if classes[s] == WordBidiClass::Rtl {
                    words@.subrange(s, e).reverse()
                } else {
                    words@.subrange(s, e)
                })
                &&& !(exists|i: int| 0 <= i < classes.len() && classes[i] == WordBidiClass::Rtl) ==> r@ == words@
            },
{
    let ghost classes_spec = texts@.map_values(|t: String| word_class_of(t@));
    proof {
        assert(text_classes(texts@) == classes_spec);
        assert forall|s: int, e: int|
            #![trigger maximal_run(classes_spec, words@.len() as int, s, e)]
            maximal_run(classes_spec, words@.len() as int, s, e) implies {
                &&& (exists|i: int| 0 <= i < classes_spec.len() && classes_spec[i] == WordBidiClass::Rtl) ==> reorder_words_spec(
                    words@,
                    classes_spec,
                ).subrange(words@.len() - e, words@.len() - s) == (if classes_spec[s] == WordBidiClass::Rtl {
                    words@.subrange(s, e).reverse()
                } else {
                    words@.subrange(s, e)
                })
                &&& !(exists|i: int| 0 <= i < classes_spec.len() && classes_spec[i] == WordBidiClass::Rtl) ==> reorder_words_spec(
                    words@,
                    classes_spec,
                ) == words@
            } by {
            lemma_reorder_words_keeps_runs(words@, classes_spec, s, e);
        }
    }
    let mut classes: Vec<WordBidiClass> = Vec::new();
    let mut any_rtl = false;
    let mut i: usize = 0;
    while i < texts.len()
        invariant
            i <= texts.len(),
            classes_spec == texts@.map_values(|t: String| word_class_of(t@)),
            classes@ == classes_spec.take(i as int),
            any_rtl == exists|j: int| 0 <= j < i && classes_spec[j] == WordBidiClass::Rtl,
        decreases texts.len() - i,
    {
        let class = word_bidi_class(texts[i].as_str());
        assert(classes_spec[i as int] == class);
        if class == WordBidiClass::Rtl {
            any_rtl = true;
        }
        classes.push(class);
        i += 1;
        assert(classes@ =~= classes_spec.take(i as int));
    }
    assert(classes@ =~= classes_spec);
    if !any_rtl {
        return words;
    }
    let ghost all = words@;
    let mut words = words;
    let mut out: Vec<T> = Vec::new();
    let mut n = words.len();
    while n > 0
        invariant
            n <= all.len() == classes@.len(),
            classes@ == classes_spec,
            words@ == all.take(n as int),
            out@ + reorder_runs(all, classes_spec, n as int) == reorder_runs(
                all,
                classes_spec,
                all.len() as int,
            ),
        decreases n,
    {
        proof {
            lemma_last_run_start_bounds(classes_spec, n as int);
        }
        let class = classes[n - 1];
        let mut r = n - 1;
        while r > 0 && classes[r - 1] == class
            invariant
                0 <= r < n <= classes@.len(),
                classes@ == classes_spec,
                class == classes_spec[n - 1],
                classes_spec[r as int] == class,
                last_run_start(classes_spec, n as int) == last_run_start(classes_spec, r + 1),
            decreases r,
        {
            r -= 1;
        }
        let mut run = words.split_off(r);
        assert(run@ == all.subrange(r as int, n as int));
        let ghost before = out@;
        let ghost piece = if class == WordBidiClass::Rtl {
            all.subrange(r as int, n as int).reverse()
        } else {
            all.subrange(r as int, n as int)
        };
        if class == WordBidiClass::Rtl {
            let ghost run0 = run@;
            while run.len() > 0
                invariant
                    run@ == run0.take(run@.len() as int),
                    run0.len() >= run@.len(),
                    out@ == before + run0.reverse().take(run0.len() - run@.len()),
                decreases run.len(),
            {
                let w = run.pop().unwrap();
                out.push(w);
                assert(out@ =~= before + run0.reverse().take(run0.len() - run@.len()));
                assert(run@ =~= run0.take(run@.len() as int));
            }
            assert(run0.reverse().take(run0.len() as int) =~= run0.reverse());
        } else {
            out.append(&mut run);
        }
        assert(out@ == before + piece);
        assert(before + (piece + reorder_runs(all, classes_spec, r as int)) =~= out@ + reorder_runs(
            all,
            classes_spec,
            r as int,
        ));
        assert(words@ =~= all.take(r as int));
        n = r;
    }
    assert(out@ + reorder_runs(all, classes_spec, 0) =~= out@);
    out
}

/// Reordering word runs only moves words: every word is kept, as often as
/// it occurs.
pub proof fn lemma_reorder_runs_permutes<T>(words: Seq<T>, classes: Seq<WordBidiClass>, n: int)
    requires
        0 <= n <= words.len() == classes.len(),
    ensures
        reorder_runs(words, classes, n).to_multiset() == words.take(n).to_multiset(),
    decreases n,
{
    broadcast use vstd::seq_lib::group_to_multiset_ensures;

    if n > 0 {
        lemma_last_run_start_bounds(classes, n);
        let r = last_run_start(classes, n);
        lemma_reorder_runs_permutes(words, classes, r);
        let run = words.subrange(r, n);
        let piece = if classes[n - 1] == WordBidiClass::Rtl {
            run.reverse()
        } else {
            run
        };
        vstd::seq_lib::lemma_multiset_commutative(piece, reorder_runs(words, classes, r));
        if classes[n - 1] == WordBidiClass::Rtl {
            run.lemma_reverse_to_multiset();
        }
        assert(words.take(n) =~= words.take(r) + run);
        vstd::seq_lib::lemma_multiset_commutative(words.take(r), run);
    }
}

/// The legacy word order is a permutation of the words.
pub proof fn lemma_reorder_words_permutes<T>(words: Seq<T>, classes: Seq<WordBidiClass>)
    requires
        words.len() == classes.len(),
    ensures
        reorder_words_spec(words, classes).to_multiset() == words.to_multiset(),
{
    lemma_reorder_runs_permutes(words, classes, words.len() as int);
    assert(words.take(words.len() as int) =~= words);
}

/// `[s, e)` is a maximal run of words of one class among the first `n`.
pub open spec fn maximal_run(classes: Seq<WordBidiClass>, n: int, s: int, e: int) -> bool {
    &&& 0 <= s < e <= n <= classes.len()
    &&& forall|i: int| s <= i < e ==> #[trigger] classes[i] == classes[s]
    &&& (s == 0 || classes[s - 1] != classes[s])
    &&& (e == n || classes[e] != classes[s])
}

proof fn lemma_last_run_start_maximal(classes: Seq<WordBidiClass>, n: int)
    requires
        1 <= n <= classes.len(),
    ensures
        last_run_start(classes, n) == 0 || classes[last_run_start(classes, n) - 1] != classes[n - 1],
    decreases n,
{
    if n > 1 && classes[n - 2] == classes[n - 1] {
        lemma_last_run_start_maximal(classes, n - 1);
    }
}

proof fn lemma_reorder_runs_len<T>(words: Seq<T>, classes: Seq<WordBidiClass>, n: int)
    requires
        0 <= n <= words.len() == classes.len(),
    ensures
        reorder_runs(words, classes, n).len() == n,
    decreases n,
{
    if n > 0 {
        lemma_last_run_start_bounds(classes, n);
        lemma_reorder_runs_len(words, classes, last_run_start(classes, n));
    }
}

proof fn lemma_run_placed<T>(words: Seq<T>, classes: Seq<WordBidiClass>, n: int, s: int, e: int)
    requires
        words.len() == classes.len(),
        maximal_run(classes, n, s, e),
    ensures
        reorder_runs(words, classes, n).subrange(n - e, n - s) == (if classes[s] == WordBidiClass::Rtl {
            words.subrange(s, e).reverse()
        } else {
            words.subrange(s, e)
        }),
    decreases n,
{
    lemma_last_run_start_bounds(classes, n);
    lemma_last_run_start_maximal(classes, n);
    let r = last_run_start(classes, n);
    lemma_reorder_runs_len(words, classes, r);
    let run = words.subrange(r, n);
    let piece = if classes[n - 1] == WordBidiClass::Rtl {
        run.reverse()
    } else {
        run
    };
    let rest = reorder_runs(words, classes, r);
    assert(reorder_runs(words, classes, n) == piece + rest);
    if e == n {
        if s < r {
            assert(classes[r - 1] == classes[s]);
            assert(classes[n - 1] == classes[s]);
        }
        if s > r {
            assert(classes[s - 1] == classes[n - 1]);
            assert(classes[n - 1] == classes[s]);
        }
        assert(s == r);
        assert(classes[n - 1] == classes[s]);
        assert((piece + rest).subrange(0, n - s) =~= piece);
    } else {
        if e > r {
            assert(classes[e] == classes[n - 1]);
            assert(classes[e - 1] == classes[n - 1]);
            assert(classes[e - 1] == classes[s]);
        }
        assert(e <= r);
        lemma_run_placed(words, classes, r, s, e);
        assert((piece + rest).subrange(n - e, n - s) =~= rest.subrange(r - e, r - s));
    }
}

/// The legacy word order keeps every run of words of one class together:
/// when some word is right-to-left, each maximal run `[s, e)` of one class
/// lands as one block at the mirrored place (the last run first), its words
/// reversed when the run is right-to-left and in their own order otherwise;
/// with no right-to-left word the words are kept as they are.
pub proof fn lemma_reorder_words_keeps_runs<T>(words: Seq<T>, classes: Seq<WordBidiClass>, s: int, e: int)
    requires
        words.len() == classes.len(),
        maximal_run(classes, classes.len() as int, s, e),
    ensures
        (exists|i: int| 0 <= i < classes.len() && classes[i] == WordBidiClass::Rtl) ==> reorder_words_spec(
            words,
            classes,
        ).subrange(words.len() - e, words.len() - s) == (if classes[s] == WordBidiClass::Rtl {
            words.subrange(s, e).reverse()
        } else {
            words.subrange(s, e)
        }),
        !(exists|i: int| 0 <= i < classes.len() && classes[i] == WordBidiClass::Rtl) ==> reorder_words_spec(
            words,
            classes,
        ) == words,
{
    if exists|i: int| 0 <= i < classes.len() && classes[i] == WordBidiClass::Rtl {
        lemma_run_placed(words, classes, words.len() as int, s, e);
    }
}

/// Whether `text` has right-to-left script.
pub fn contains_rtl_text(text: &str) -> (r: bool)
    ensures
        r == has_rtl_script(text@),
{
    let chars = chars_of_str(text);
    contains_rtl_script(chars.as_slice())
}

/// Whether some whitespace-separated token of `text` mixes right-to-left
/// script with left-to-right letters or digits.
pub fn has_compact_mixed_token(text: &str) -> (r: bool)
    ensures
        r == has_compact_mixed(text@),
{
    let chars = chars_of_str(text);
    contains_compact_mixed_token(chars.as_slice())
}

/// Whether the first letter or digit from index `k` on is left-to-right content.
pub open spec fn first_alnum_is_ltr(s: Seq<char>, k: int) -> bool
    decreases s.len() - k,
{
    if k < 0 || k >= s.len() {
        false
    } else if unicode_alphabetic(s[k]) || unicode_numeric(s[k]) {
        spec_is_ltr_content(s[k])
    } else {
        first_alnum_is_ltr(s, k + 1)
    }
}

/// Whether `text` has a mixed token and starts, at its first letter or
/// digit, with left-to-right content.
pub fn is_ltr_prefixed_compact_mixed(text: &str) -> (r: bool)
    ensures
        r == (has_compact_mixed(text@) && first_alnum_is_ltr(text@, 0)),
{
    let chars = chars_of_str(text);
    if !contains_compact_mixed_token(chars.as_slice()) {
        return false;
    }
    let mut k: usize = 0;
    while k < chars.len()
        invariant
            k <= chars.len(),
            chars@ == text@,
            has_compact_mixed(text@),
            first_alnum_is_ltr(text@, 0) == first_alnum_is_ltr(text@, k as int),
        decreases chars.len() - k,
    {
        if char_is_alphanumeric(chars[k]) {
            return is_ltr_content(chars[k]);
        }
        k += 1;
    }
    false
}

/// The text of a layout line whose elements have the texts `texts`: kept
/// without right-to-left script, only normalized when the geometry shows the
/// line is already in logical order, reconstructed line by line otherwise.
pub open spec fn textline_text_spec(raw: Seq<char>, already_logical: bool) -> Seq<char> {
    if !has_rtl_script(raw) {
        raw
    } else if already_logical {
        normalize_chars(raw)
    } else {
        reconstruct_text_spec(raw)
    }
}

pub fn reconstruct_textline_text(texts: &Vec<String>, already_logical: bool) -> (r: String)
    ensures
        r@ == textline_text_spec(
            crate::bidi::lines::concat_texts(texts@.map_values(|t: String| t@)),
            already_logical,
        ),
{
    let (raw_text, _) = crate::bidi::lines::source_scalars(texts);
    let chars = chars_of_str(raw_text.as_str());
    if !contains_rtl_script(chars.as_slice()) {
        return raw_text;
    }
    if already_logical {
        return normalize_arabic_presentation_forms(raw_text.as_str());
    }
    reconstruct_text_per_line(raw_text.as_str())
}

} // verus!
