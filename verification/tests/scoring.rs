use bayes::guess::{credit, leaders};
use bayes::order::precedes;
use bayes::scores::insert_ranked;
use bayes::table::{leaves_room, times_in};
use bayes::words::drop_empty;
use bayes::Bayes;

fn fresh() -> Bayes {
    Bayes::new().unwrap()
}

fn owned(pairs: &[(&str, u32)]) -> Vec<(String, u32)> {
    pairs.iter().map(|(label, count)| (label.to_string(), *count)).collect()
}

fn three_sentences() -> Bayes {
    let mut bayes = fresh();
    bayes.learn("I am a book", "book");
    bayes.learn("I am another book", "book");
    bayes.learn("I am a magazine", "magazine");
    bayes
}

#[test]
fn scores_of_the_three_sentences() {
    let bayes = three_sentences();
    assert_eq!(bayes.get_scores("book"), owned(&[("book", 2)]));
    assert_eq!(bayes.get_scores("magazine"), owned(&[("magazine", 1)]));
    assert_eq!(bayes.get_scores("i"), owned(&[]));
    assert_eq!(bayes.get_scores("am"), owned(&[]));
    assert_eq!(bayes.get_scores("a"), owned(&[]));
    assert_eq!(bayes.get_scores("another"), owned(&[("book", 1)]));
}

#[test]
fn scores_of_an_unknown_word_are_empty() {
    let bayes = three_sentences();
    assert!(bayes.get_scores("newspaper").is_empty());
    assert!(bayes.get_scores("").is_empty());
    assert!(fresh().get_scores("book").is_empty());
}

#[test]
fn scores_look_the_word_up_as_given() {
    let bayes = three_sentences();
    assert!(bayes.get_scores("Book").is_empty());
    assert!(bayes.get_scores("book ").is_empty());
}

#[test]
fn scores_fall_by_count() {
    let mut bayes = fresh();
    bayes.learn("w", "low");
    bayes.learn("w w w", "high");
    bayes.learn("w w", "mid");
    assert_eq!(bayes.get_scores("w"), owned(&[("high", 3), ("mid", 2), ("low", 1)]));
}

#[test]
fn scores_of_equal_count_go_by_label() {
    let mut bayes = fresh();
    bayes.learn("w", "pear");
    bayes.learn("w", "apple");
    bayes.learn("w w", "zebra");
    bayes.learn("w", "fig");
    bayes.learn("w", "apples");
    bayes.learn("w", "Zoo");
    assert_eq!(
        bayes.get_scores("w"),
        owned(&[("zebra", 2), ("apple", 1), ("apples", 1), ("fig", 1), ("pear", 1), ("zoo", 1)])
    );
}

#[test]
fn scores_do_not_depend_on_the_order_of_learning() {
    let mut one = fresh();
    one.learn("w", "b");
    one.learn("w", "a");
    one.learn("w w", "c");
    let mut other = fresh();
    other.learn("w w", "c");
    other.learn("w", "a");
    other.learn("w", "b");
    assert_eq!(one.get_scores("w"), other.get_scores("w"));
    assert_eq!(one.get_scores("w"), owned(&[("c", 2), ("a", 1), ("b", 1)]));
}

#[test]
fn guess_of_empty_text_is_empty() {
    let bayes = three_sentences();
    assert!(bayes.guess_bucket("").is_empty());
    assert!(fresh().guess_bucket("").is_empty());
}

#[test]
fn guess_without_any_known_word_is_empty() {
    let bayes = three_sentences();
    assert!(bayes.guess_bucket("something else entirely").is_empty());
    assert!(bayes.guess_bucket("I am a").is_empty());
    assert!(bayes.guess_bucket("?!").is_empty());
    assert!(fresh().guess_bucket("book").is_empty());
}

#[test]
fn guess_takes_the_highest_total() {
    let bayes = three_sentences();
    assert_eq!(bayes.guess_bucket("a book"), vec!["book"]);
    assert_eq!(bayes.guess_bucket("A Magazine!"), vec!["magazine"]);
    assert_eq!(bayes.guess_bucket("book magazine"), vec!["book"]);
}

#[test]
fn guess_counts_a_repeated_token_each_time() {
    let mut bayes = fresh();
    bayes.learn("x x x", "a");
    bayes.learn("y y y y y", "b");
    assert_eq!(bayes.guess_bucket("x y"), vec!["b"]);
    assert_eq!(bayes.guess_bucket("x x y"), vec!["a"]);
    assert_eq!(bayes.guess_tokens(&vec!["x".to_string(), "x".to_string(), "y".to_string()]), vec!["a"]);
}

#[test]
fn guess_keeps_ties() {
    let bayes = three_sentences();
    assert_eq!(bayes.guess_bucket("another magazine"), vec!["book", "magazine"]);
    let mut more = fresh();
    more.learn("w v", "pear");
    more.learn("w v", "apple");
    more.learn("w", "fig");
    more.learn("v", "fig");
    more.learn("w", "low");
    assert_eq!(more.guess_bucket("w v"), vec!["apple", "fig", "pear"]);
    assert_eq!(more.guess_bucket("w"), vec!["apple", "fig", "low", "pear"]);
}

#[test]
fn guess_does_not_change_the_table() {
    let bayes = three_sentences();
    let before = bayes.entries();
    bayes.guess_bucket("another book or magazine");
    bayes.get_scores("book");
    assert_eq!(bayes.entries(), before);
}

#[test]
fn guess_tokens_takes_tokens_as_given() {
    let bayes = three_sentences();
    assert_eq!(bayes.guess_tokens(&vec!["book".to_string()]), vec!["book"]);
    assert!(bayes.guess_tokens(&vec!["Book".to_string()]).is_empty());
    assert!(bayes.guess_tokens(&Vec::new()).is_empty());
}

#[test]
fn learn_tokens_takes_tokens_and_label_as_given() {
    let mut bayes = fresh();
    let tokens = vec!["tea".to_string(), "".to_string(), "the".to_string(), "tea".to_string(), "Milk".to_string()];
    bayes.learn_tokens(&tokens, "Drink");
    assert_eq!(bayes.get_scores("tea"), owned(&[("Drink", 2)]));
    assert_eq!(bayes.get_scores("Milk"), owned(&[("Drink", 1)]));
    assert!(bayes.get_scores("the").is_empty());
    assert!(bayes.get_scores("").is_empty());
    assert_eq!(bayes.entries().len(), 2);
}

#[test]
fn precedes_is_the_order_of_code_points() {
    assert!(precedes("a", "b"));
    assert!(!precedes("b", "a"));
    assert!(!precedes("a", "a"));
    assert!(!precedes("", ""));
    assert!(precedes("", "a"));
    assert!(!precedes("a", ""));
    assert!(precedes("app", "apple"));
    assert!(!precedes("apple", "app"));
    assert!(precedes("Zoo", "apple"));
    assert!(precedes("abc", "abd"));
    assert!(precedes("z", "\u{e9}"));
    assert!(precedes("\u{e9}", "\u{10348}"));
    assert!(precedes("\u{ffff}", "\u{10000}"));
    assert_eq!(precedes("book", "magazine"), "book" < "magazine");
}

#[test]
fn drop_empty_keeps_the_rest_in_order() {
    let words: Vec<String> = ["a", "", "b", "", "", "a"].iter().map(|w| w.to_string()).collect();
    assert_eq!(drop_empty(&words), vec!["a", "b", "a"]);
    assert!(drop_empty(&Vec::new()).is_empty());
    assert!(drop_empty(&vec![String::new()]).is_empty());
}

#[test]
fn insert_ranked_finds_the_place() {
    let mut scores = owned(&[("b", 5), ("d", 5), ("a", 2)]);
    assert_eq!(insert_ranked(&mut scores, "c".to_string(), 5), 1);
    assert_eq!(scores, owned(&[("b", 5), ("c", 5), ("d", 5), ("a", 2)]));
    assert_eq!(insert_ranked(&mut scores, "z".to_string(), 9), 0);
    assert_eq!(insert_ranked(&mut scores, "y".to_string(), 1), 5);
    assert_eq!(insert_ranked(&mut scores, "e".to_string(), 2), 5);
    assert_eq!(
        scores,
        owned(&[("z", 9), ("b", 5), ("c", 5), ("d", 5), ("a", 2), ("e", 2), ("y", 1)])
    );
    let mut empty: Vec<(String, u32)> = Vec::new();
    assert_eq!(insert_ranked(&mut empty, "x".to_string(), 0), 0);
    assert_eq!(empty, owned(&[("x", 0)]));
}

#[test]
fn credit_adds_up_under_each_label() {
    let mut totals: Vec<(String, u128)> = Vec::new();
    credit(&mut totals, "pear", 2);
    credit(&mut totals, "apple", 1);
    credit(&mut totals, "pear", 3);
    credit(&mut totals, "fig", u32::MAX);
    credit(&mut totals, "fig", u32::MAX);
    assert_eq!(
        totals,
        vec![
            ("apple".to_string(), 1u128),
            ("fig".to_string(), 2 * (u32::MAX as u128)),
            ("pear".to_string(), 5u128),
        ]
    );
}

#[test]
fn leaders_are_the_labels_with_the_highest_total() {
    let totals = vec![
        ("apple".to_string(), 4u128),
        ("fig".to_string(), 7u128),
        ("pear".to_string(), 7u128),
        ("plum".to_string(), 1u128),
    ];
    assert_eq!(leaders(&totals), vec!["fig", "pear"]);
    assert!(leaders(&Vec::new()).is_empty());
    assert!(leaders(&vec![("apple".to_string(), 0u128)]).is_empty());
    assert_eq!(leaders(&vec![("apple".to_string(), 1u128)]), vec!["apple"]);
}

#[test]
fn times_in_counts_exact_matches() {
    let tokens: Vec<String> = ["a", "b", "a", "A", "", "ab", "a"].iter().map(|w| w.to_string()).collect();
    assert_eq!(times_in(&tokens, "a"), 3);
    assert_eq!(times_in(&tokens, "b"), 1);
    assert_eq!(times_in(&tokens, "A"), 1);
    assert_eq!(times_in(&tokens, ""), 1);
    assert_eq!(times_in(&tokens, "c"), 0);
    assert_eq!(times_in(&Vec::new(), "a"), 0);
}

#[test]
fn leaves_room_up_to_the_largest_count() {
    assert!(leaves_room(0, 0));
    assert!(leaves_room(0, u32::MAX as usize));
    assert!(leaves_room(u32::MAX, 0));
    assert!(!leaves_room(u32::MAX, 1));
    assert!(leaves_room(u32::MAX - 1, 1));
    assert!(!leaves_room(u32::MAX - 1, 2));
    assert!(leaves_room(u32::MAX - 2, 2));
    assert!(!leaves_room(u32::MAX - 2, 3));
    assert!(!leaves_room(1, u32::MAX as usize));
}
