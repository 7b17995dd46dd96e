//! Cutting text into words. The cutting itself is done by a compiled regular
//! expression of the `regex` crate, on text that `str::to_lowercase` has
//! lowered; what either returns is taken on trust and given a name here.

use regex::Regex;
use vstd::prelude::*;

verus! {

/// The pattern of the tokenizer that a classifier is built with by default:
/// a run of word characters, apostrophes and hyphens.
pub const WORD_PATTERN: &'static str = "[\\w'-]+";

/// `regex::Regex`, a compiled regular expression. Nothing is known of
/// what is inside: a value is only carried from where it was compiled to
/// where it is run.
#[verifier::external_type_specification]
#[verifier::external_body]
pub struct ExRegex(regex::Regex);

/// `regex::Error`, what `Regex::new` returns for a pattern that does not
/// compile. Nothing is known of what is inside.
#[verifier::external_type_specification]
#[verifier::external_body]
pub struct ExRegexError(regex::Error);

/// What `str::to_lowercase` returns for `text`: the lowercase mapping of
/// Unicode, which is not spelled out here.
pub uninterp spec fn lowercase(text: Seq<char>) -> Seq<char>;

/// The texts of the successive non-overlapping matches of `re` in
/// `haystack`, from left to right, as `Regex::find_iter` yields them.
pub uninterp spec fn regex_matches(re: Regex, haystack: Seq<char>) -> Seq<Seq<char>>;

/// `str::to_lowercase`, taken on trust: the result is a function of the
/// text alone, named `lowercase`.
pub assume_specification[ str::to_lowercase ](s: &str) -> (lowered: String)
    ensures
        lowered@ == lowercase(s@),
;

/// What `Regex::new` makes of `pattern`: the compiled expression, or nothing
/// where the pattern does not compile. Which patterns compile, and into
/// what, is not spelled out here.
pub uninterp spec fn compiled_from(pattern: Seq<char>) -> Option<Regex>;

/// `regex::Regex::new`, taken on trust: whether the pattern compiles, and
/// into which expression, is a function of the pattern alone, named
/// `compiled_from`. Nothing is claimed of which patterns compile.
pub assume_specification[ regex::Regex::new ](re: &str) -> (compiled: Result<Regex, regex::Error>)
    ensures
        match compiled {
            Ok(expression) => compiled_from(re@) == Some(expression),
            Err(_) => compiled_from(re@) is None,
        },
;

/// Runs `Regex::find_iter` on `haystack` and copies out the text of each
/// match with `Match::as_str`. Taken on trust: the texts, in the order
/// found, are a function of the expression and the haystack alone, named
/// `regex_matches`.
#[verifier::external_body]
pub(crate) fn find_all(re: &Regex, haystack: &str) -> (found: Vec<String>)
    ensures
        found.deep_view() == regex_matches(*re, haystack@),
{
    re.find_iter(haystack).map(|m| m.as_str().to_string()).collect()
}

/// The words of `words` that are not empty, in their order.
pub open spec fn nonempty(words: Seq<Seq<char>>) -> Seq<Seq<char>>
    decreases words.len(),
{
    if words.len() == 0 {
        words
    } else if words.last().len() > 0 {
        nonempty(words.drop_last()).push(words.last())
    } else {
        nonempty(words.drop_last())
    }
}

/// The tokens of `text` under the tokenizer `re`: the matches of `re` in the
/// lowered text, without the empty ones. An empty text has no tokens.
pub open spec fn tokens_of(re: Regex, text: Seq<char>) -> Seq<Seq<char>> {
    if text.len() == 0 {
        Seq::empty()
    } else {
        nonempty(regex_matches(re, lowercase(text)))
    }
}

/// No word of `nonempty(words)` is empty.
pub proof fn lemma_nonempty_holds(words: Seq<Seq<char>>)
    ensures
        forall|i: int| 0 <= i < nonempty(words).len() ==> (#[trigger] nonempty(words)[i]).len() > 0,
    decreases words.len(),
{
    if words.len() > 0 {
        lemma_nonempty_holds(words.drop_last());
        let head = nonempty(words.drop_last());
        assert forall|i: int| 0 <= i < nonempty(words).len() implies (#[trigger] nonempty(
            words,
        )[i]).len() > 0 by {
            if i < head.len() {
                assert(nonempty(words)[i] == head[i]);
            }
        }
    }
}

/// No token is empty, whatever the text and the tokenizer.
pub proof fn lemma_tokens_nonempty(re: Regex, text: Seq<char>)
    ensures
        forall|i: int|
            0 <= i < tokens_of(re, text).len() ==> (#[trigger] tokens_of(re, text)[i]).len() > 0,
{
    lemma_nonempty_holds(regex_matches(re, lowercase(text)));
}

/// Copies the words that are not empty, in their order.
pub fn drop_empty(words: &Vec<String>) -> (kept: Vec<String>)
    ensures
        kept.deep_view() == nonempty(words.deep_view()),
        forall|i: int| 0 <= i < kept.len() ==> (#[trigger] kept[i])@.len() > 0,
{
    let mut kept: Vec<String> = Vec::new();
    let mut i: usize = 0;
    while i < words.len()
        invariant
            i <= words.len(),
            kept.deep_view() == nonempty(words.deep_view().take(i as int)),
            forall|j: int| 0 <= j < kept.len() ==> (#[trigger] kept[j])@.len() > 0,
        decreases words.len() - i,
    {
        proof {
            let upto = words.deep_view().take(i + 1);
            assert(upto.drop_last() =~= words.deep_view().take(i as int));
            assert(upto.last() == words[i as int]@);
        }
        if !words[i].as_str().is_empty() {
            let word = words[i].clone();
            let ghost before = kept.deep_view();
            kept.push(word);
            assert(kept.deep_view() =~= before.push(words[i as int]@));
        }
        i += 1;
    }
    assert(words.deep_view().take(words.len() as int) =~= words.deep_view());
    kept
}

} // verus!
