use tidy_json::key_order::{arrange, lex_precedes, permutation_for, precedes};
use tidy_json::random::RandomSource;
use tidy_json::text::{chars_of, trimmed_of_quotes};
use tidy_json::SortOrder;

fn chars(text: &str) -> Vec<char> {
    text.chars().collect()
}

fn keys(texts: &[&str]) -> Vec<Vec<char>> {
    texts.iter().map(|text| chars(text)).collect()
}

#[test]
fn characters_of_a_text() {
    assert_eq!(chars_of(""), Vec::<char>::new());
    assert_eq!(chars_of("a\"é\u{1F600}\n"), vec!['a', '"', 'é', '\u{1F600}', '\n']);
}

#[test]
fn quotes_around_a_text_are_trimmed() {
    assert_eq!(trimmed_of_quotes("\"*.json\""), "*.json");
    assert_eq!(trimmed_of_quotes("*.json"), "*.json");
    assert_eq!(trimmed_of_quotes("\"\"\"a\"b\"\""), "a\"b");
    assert_eq!(trimmed_of_quotes("\"é"), "é");
    assert_eq!(trimmed_of_quotes("é\""), "é");
    assert_eq!(trimmed_of_quotes("\"\"\""), "");
    assert_eq!(trimmed_of_quotes(""), "");
    assert_eq!(trimmed_of_quotes(" \"a\" "), " \"a\" ");
    assert_eq!(trimmed_of_quotes("'a'"), "'a'");
}

#[test]
fn lexicographic_comparison() {
    assert!(lex_precedes(&chars("a"), &chars("b")));
    assert!(!lex_precedes(&chars("b"), &chars("a")));
    assert!(!lex_precedes(&chars("a"), &chars("a")));
    assert!(lex_precedes(&chars(""), &chars("a")));
    assert!(!lex_precedes(&chars("a"), &chars("")));
    assert!(!lex_precedes(&chars(""), &chars("")));
    assert!(lex_precedes(&chars("ab"), &chars("abc")));
    assert!(lex_precedes(&chars("abc"), &chars("abd")));
    assert!(lex_precedes(&chars("abc"), &chars("b")));
    assert!(lex_precedes(&chars("Z"), &chars("a")));
    assert!(lex_precedes(&chars("z"), &chars("é")));
    assert!(lex_precedes(&chars("\u{ffff}"), &chars("\u{10000}")));
}

#[test]
fn comparison_agrees_with_the_order_of_strings() {
    let texts = ["", "a", "A", "ab", "b", "é", "\u{ffff}", "\u{10000}", "a\u{0}", "10", "9"];
    for a in texts {
        for b in texts {
            assert_eq!(lex_precedes(&chars(a), &chars(b)), a < b);
        }
    }
}

#[test]
fn which_key_comes_first() {
    let (short, long) = (chars("b"), chars("aa"));
    assert!(!precedes(SortOrder::AlphabeticalAsc, &short, &long));
    assert!(precedes(SortOrder::AlphabeticalAsc, &long, &short));
    assert!(precedes(SortOrder::AlphabeticalDesc, &short, &long));
    assert!(!precedes(SortOrder::AlphabeticalDesc, &long, &short));
    assert!(precedes(SortOrder::KeyLengthAsc, &short, &long));
    assert!(!precedes(SortOrder::KeyLengthAsc, &long, &short));
    assert!(!precedes(SortOrder::KeyLengthDesc, &short, &long));
    assert!(precedes(SortOrder::KeyLengthDesc, &long, &short));
    assert!(!precedes(SortOrder::Random, &short, &long));
    assert!(!precedes(SortOrder::Random, &long, &short));
    for order in [
        SortOrder::AlphabeticalAsc,
        SortOrder::AlphabeticalDesc,
        SortOrder::KeyLengthAsc,
        SortOrder::KeyLengthDesc,
        SortOrder::Random,
    ] {
        assert!(!precedes(order, &short, &short));
    }
    assert!(precedes(SortOrder::KeyLengthAsc, &chars("ab"), &chars("ba")));
    assert!(precedes(SortOrder::KeyLengthDesc, &chars("ab"), &chars("ba")));
}

#[test]
fn arrangement_of_keys() {
    let all = keys(&["c", "bb", "a", "b", "aaa", "c"]);
    assert_eq!(arrange(SortOrder::AlphabeticalAsc, &all), vec![2, 4, 3, 1, 0, 5]);
    assert_eq!(arrange(SortOrder::AlphabeticalDesc, &all), vec![0, 5, 1, 3, 4, 2]);
    assert_eq!(arrange(SortOrder::KeyLengthAsc, &all), vec![2, 3, 0, 5, 1, 4]);
    assert_eq!(arrange(SortOrder::KeyLengthDesc, &all), vec![4, 1, 2, 3, 0, 5]);
    assert_eq!(arrange(SortOrder::Random, &all), vec![0, 1, 2, 3, 4, 5]);
    assert_eq!(arrange(SortOrder::AlphabeticalAsc, &Vec::new()), Vec::<usize>::new());
    assert_eq!(arrange(SortOrder::AlphabeticalAsc, &keys(&["x"])), vec![0]);
}

#[test]
fn permutation_follows_the_order() {
    let all = keys(&["c", "bb", "a", "b", "aaa", "c"]);
    let mut source = RandomSource::seeded(2);
    assert_eq!(
        permutation_for(SortOrder::KeyLengthAsc, &all, &mut source),
        vec![2, 3, 0, 5, 1, 4]
    );
    let mut drawn = permutation_for(SortOrder::Random, &all, &mut source);
    drawn.sort();
    assert_eq!(drawn, vec![0, 1, 2, 3, 4, 5]);
}

#[test]
fn shuffle_is_a_permutation() {
    let mut source = RandomSource::seeded(11);
    for count in [0, 1, 2, 3, 10, 257] {
        let mut drawn = source.shuffle(count);
        assert_eq!(drawn.len(), count);
        drawn.sort();
        assert_eq!(drawn, (0..count).collect::<Vec<usize>>());
    }
    let mut drawn = RandomSource::new().shuffle(100);
    drawn.sort();
    assert_eq!(drawn, (0..100).collect::<Vec<usize>>());
}

#[test]
fn draws_follow_the_seed() {
    let first = RandomSource::seeded(1).shuffle(100);
    let again = RandomSource::seeded(1).shuffle(100);
    let other = RandomSource::seeded(2).shuffle(100);
    assert_eq!(first, again);
    assert_ne!(first, other);
}

#[test]
fn shuffle_changes_the_order() {
    let mut source = RandomSource::seeded(5);
    let drawn = source.shuffle(100);
    assert_ne!(drawn, (0..100).collect::<Vec<usize>>());
    let again = source.shuffle(100);
    assert_ne!(drawn, again);
}
