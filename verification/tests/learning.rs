use bayes::{Bayes, BuildError, Categorization};
use regex::Regex;

fn fresh() -> Bayes {
    Bayes::new().unwrap()
}

fn count(bayes: &Bayes, bucket: &str, word: &str) -> u32 {
    bayes.count(bucket, word)
}

fn pairs(scores: Vec<(String, u32)>) -> Vec<(String, u32)> {
    scores
}

#[test]
fn new_classifier_is_empty() {
    let bayes = fresh();
    assert!(bayes.entries().is_empty());
    assert_eq!(bayes.count("book", "book"), 0);
    assert!(bayes.get_scores("book").is_empty());
}

#[test]
fn invalid_pattern_is_a_build_error() {
    let built = Bayes::from_compiled(Regex::new("foo(bar"));
    assert!(matches!(built, Err(BuildError::Pattern)));
}

#[test]
fn compiled_tokenizer_is_used() {
    let mut bayes = Bayes::from_compiled(Regex::new("[0-9]+")).unwrap();
    assert_eq!(bayes.tokenize("room 12, floor 3"), vec!["12", "3"]);
    assert!(bayes.learn("room 12, floor 3", "places"));
    assert_eq!(count(&bayes, "places", "12"), 1);
    assert_eq!(count(&bayes, "places", "room"), 0);
}

#[test]
fn tokenize_lowers_the_text() {
    let bayes = fresh();
    assert_eq!(bayes.tokenize("Hello WORLD"), vec!["hello", "world"]);
}

#[test]
fn tokenize_keeps_order_and_repeats() {
    let bayes = fresh();
    assert_eq!(bayes.tokenize("b a b, a! b"), vec!["b", "a", "b", "a", "b"]);
}

#[test]
fn tokenize_empty_text_gives_nothing() {
    let bayes = fresh();
    assert!(bayes.tokenize("").is_empty());
    assert!(bayes.tokenize(" \t\n .,;!?").is_empty());
}

#[test]
fn tokenize_keeps_apostrophes_hyphens_digits_and_underscores() {
    let bayes = fresh();
    assert_eq!(
        bayes.tokenize("Don't over-think snake_case 42times"),
        vec!["don't", "over-think", "snake_case", "42times"]
    );
}

#[test]
fn tokenize_never_gives_an_empty_token() {
    let bayes = fresh();
    let tokens = bayes.tokenize("- ' -- '' (-) it's ... well-known !");
    assert_eq!(tokens, vec!["-", "'", "--", "''", "-", "it's", "well-known"]);
    assert!(tokens.iter().all(|token| !token.is_empty()));
}

#[test]
fn tokenize_does_not_filter_stopwords() {
    let bayes = fresh();
    assert_eq!(bayes.tokenize("The book"), vec!["the", "book"]);
}

#[test]
fn stopwords_never_reach_the_table() {
    let mut bayes = fresh();
    let all = "be i am are is was were a an this the and or so much not no nor do don't";
    assert!(bayes.learn(all, "x"));
    assert!(bayes.entries().is_empty());
    assert!(bayes.learn("Don't be a book", "x"));
    let listed = bayes.entries();
    assert_eq!(listed.len(), 1);
    assert_eq!(
        listed[0],
        (Categorization { bucket: "x".to_string(), word: "book".to_string() }, 1)
    );
}

#[test]
fn add_word_to_bucket_counts_up() {
    let mut bayes = fresh();
    bayes.add_word_to_bucket("novel", "book");
    assert_eq!(count(&bayes, "book", "novel"), 1);
    bayes.add_word_to_bucket("novel", "book");
    bayes.add_word_to_bucket("novel", "book");
    assert_eq!(count(&bayes, "book", "novel"), 3);
    bayes.add_word_to_bucket("novel", "magazine");
    assert_eq!(count(&bayes, "book", "novel"), 3);
    assert_eq!(count(&bayes, "magazine", "novel"), 1);
    assert_eq!(bayes.entries().len(), 2);
}

#[test]
fn add_word_to_bucket_passes_over_empty_and_stopwords() {
    let mut bayes = fresh();
    bayes.add_word_to_bucket("", "book");
    bayes.add_word_to_bucket("the", "book");
    bayes.add_word_to_bucket("don't", "book");
    assert!(bayes.entries().is_empty());
}

#[test]
fn add_word_to_bucket_takes_word_and_bucket_as_given() {
    let mut bayes = fresh();
    bayes.add_word_to_bucket("The", "Book");
    assert_eq!(count(&bayes, "Book", "The"), 1);
    assert_eq!(count(&bayes, "book", "the"), 0);
}

#[test]
fn keys_are_pairs_not_joined_strings() {
    let mut bayes = fresh();
    bayes.add_word_to_bucket("c", "a-b");
    bayes.add_word_to_bucket("b-c", "a");
    assert_eq!(bayes.entries().len(), 2);
    assert_eq!(count(&bayes, "a-b", "c"), 1);
    assert_eq!(count(&bayes, "a", "b-c"), 1);
}

#[test]
fn learn_lowers_the_label() {
    let mut bayes = fresh();
    assert!(bayes.learn("Novel", "BOOK"));
    assert_eq!(pairs(bayes.get_scores("novel")), vec![("book".to_string(), 1)]);
}

#[test]
fn learn_counts_each_occurrence() {
    let mut bayes = fresh();
    assert!(bayes.learn("The book was clad book in exquisit leather", "book"));
    assert_eq!(count(&bayes, "book", "book"), 2);
    assert_eq!(count(&bayes, "book", "clad"), 1);
    assert_eq!(count(&bayes, "book", "in"), 1);
    assert_eq!(count(&bayes, "book", "exquisit"), 1);
    assert_eq!(count(&bayes, "book", "leather"), 1);
    assert_eq!(bayes.entries().len(), 5);
}

#[test]
fn learn_with_empty_text_or_label_changes_nothing() {
    let mut bayes = fresh();
    assert!(!bayes.learn("", "x"));
    assert!(!bayes.learn("x", ""));
    assert!(!bayes.learn("", ""));
    assert!(bayes.entries().is_empty());
    assert!(bayes.learn("x", "y"));
    assert!(!bayes.learn("", "y"));
    assert!(!bayes.learn("x", ""));
    assert_eq!(bayes.entries().len(), 1);
    assert_eq!(count(&bayes, "y", "x"), 1);
}

#[test]
fn learning_twice_doubles_every_count() {
    let text = "Reading books and magazines, reading books: a great pass-time";
    let mut once = fresh();
    once.learn(text, "book");
    let mut twice = fresh();
    twice.learn(text, "book");
    twice.learn(text, "book");
    let tokens = once.tokenize(text);
    assert!(!tokens.is_empty());
    for token in tokens {
        assert_eq!(count(&twice, "book", &token), 2 * count(&once, "book", &token));
    }
    assert_eq!(count(&once, "book", "reading"), 2);
    assert_eq!(count(&twice, "book", "reading"), 4);
    assert_eq!(count(&twice, "book", "great"), 2);
    assert_eq!(count(&twice, "book", "and"), 0);
    assert_eq!(once.entries().len(), twice.entries().len());
}

#[test]
fn learning_adds_to_what_was_learned_before() {
    let mut bayes = fresh();
    bayes.learn("red apple", "fruit");
    bayes.learn("green apple", "fruit");
    bayes.learn("apple pie", "cake");
    assert_eq!(count(&bayes, "fruit", "apple"), 2);
    assert_eq!(count(&bayes, "fruit", "red"), 1);
    assert_eq!(count(&bayes, "fruit", "green"), 1);
    assert_eq!(count(&bayes, "cake", "apple"), 1);
    assert_eq!(count(&bayes, "cake", "pie"), 1);
    assert_eq!(bayes.entries().len(), 5);
}

#[test]
fn count_is_the_stored_count_or_zero() {
    let mut bayes = fresh();
    bayes.learn("one two two three three three", "n");
    let mut listed = 0;
    for (key, score) in bayes.entries() {
        assert_eq!(bayes.count(&key.bucket, &key.word), score);
        listed += 1;
    }
    assert_eq!(listed, 3);
    assert_eq!(bayes.count("n", "three"), 3);
    assert_eq!(bayes.count("n", "two"), 2);
    assert_eq!(bayes.count("n", "one"), 1);
    assert_eq!(bayes.count("n", "four"), 0);
    assert_eq!(bayes.count("m", "three"), 0);
    assert_eq!(bayes.count("N", "three"), 0);
    assert_eq!(bayes.count("n", "the"), 0);
}

#[test]
fn has_room_where_no_count_is_near_the_limit() {
    let mut bayes = fresh();
    bayes.learn("tea tea milk", "drink");
    let tokens: Vec<String> = ["tea", "the", "", "tea", "cake"].iter().map(|w| w.to_string()).collect();
    assert!(bayes.has_room(&tokens, "drink"));
    assert!(bayes.has_room(&tokens, "food"));
    assert!(bayes.has_room(&Vec::new(), "drink"));
    assert_eq!(bayes.entries().len(), 2);
}

#[test]
fn the_order_of_two_samples_does_not_matter() {
    let mut one = fresh();
    assert!(one.learn("red apple, green apple", "fruit"));
    assert!(one.learn("apple pie and red wine", "Dinner"));
    let mut other = fresh();
    assert!(other.learn("apple pie and red wine", "Dinner"));
    assert!(other.learn("red apple, green apple", "fruit"));
    let mut left: Vec<(String, String, u32)> =
        one.entries().into_iter().map(|(key, score)| (key.bucket, key.word, score)).collect();
    let mut right: Vec<(String, String, u32)> =
        other.entries().into_iter().map(|(key, score)| (key.bucket, key.word, score)).collect();
    left.sort();
    right.sort();
    assert_eq!(left, right);
    assert_eq!(left.len(), 7);
    assert_eq!(one.count("fruit", "apple"), 2);
    assert_eq!(other.count("dinner", "red"), 1);
    assert_eq!(one.get_scores("red"), other.get_scores("red"));
    assert_eq!(one.guess_bucket("red apple"), other.guess_bucket("red apple"));
}

#[test]
fn entries_list_each_key_once() {
    let mut bayes = fresh();
    bayes.learn("tea tea milk", "drink");
    bayes.learn("tea cake", "food");
    let mut listed: Vec<(String, String, u32)> = bayes
        .entries()
        .into_iter()
        .map(|(key, score)| (key.bucket, key.word, score))
        .collect();
    listed.sort();
    assert_eq!(
        listed,
        vec![
            ("drink".to_string(), "milk".to_string(), 1),
            ("drink".to_string(), "tea".to_string(), 2),
            ("food".to_string(), "cake".to_string(), 1),
            ("food".to_string(), "tea".to_string(), 1),
        ]
    );
}

#[test]
fn stopwords_are_the_default_ones() {
    let bayes = fresh();
    let all = "be i am are is was were a an this the and or so much not no nor do don't";
    let mut seen = 0;
    for word in all.split(' ') {
        assert!(bayes.is_stopword(word));
        seen += 1;
    }
    assert_eq!(seen, 20);
    assert!(!bayes.is_stopword("book"));
    assert!(!bayes.is_stopword("The"));
    assert!(!bayes.is_stopword(""));
    assert!(!bayes.is_stopword("dont"));
    assert!(!bayes.is_stopword("the "));
}

#[test]
fn new_compiles_the_word_pattern() {
    assert_eq!(bayes::words::WORD_PATTERN, r"[\w'-]+");
    let built = Bayes::new();
    assert!(built.is_ok());
    let bayes = built.unwrap();
    let same = Bayes::from_compiled(Regex::new(bayes::words::WORD_PATTERN)).unwrap();
    let text = "Don't over-think it: snake_case, 42 times!";
    assert_eq!(bayes.tokenize(text), same.tokenize(text));
    assert_eq!(
        bayes.tokenize(text),
        vec!["don't", "over-think", "it", "snake_case", "42", "times"]
    );
}
