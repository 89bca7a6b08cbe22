use markov::{split_fields, Chain};

#[test]
fn feed_adds_one_observation_per_window() {
    let mut chain = Chain::new();
    assert_eq!(chain.observation_count(), 0);
    chain.feed(vec![3u8, 5, 10]);
    assert_eq!(chain.observation_count(), 4);
    chain.feed(vec![]);
    assert_eq!(chain.observation_count(), 4);
    chain.feed(vec![5, 12]);
    assert_eq!(chain.observation_count(), 7);
}

#[test]
fn feed_adds_windows_at_higher_order() {
    let mut chain = Chain::new();
    chain.order(3);
    assert_eq!(chain.get_order(), 3);
    chain.feed(vec![1u8, 2, 3, 4, 5]);
    assert_eq!(chain.observation_count(), 6);
    let v: Vec<u8> = chain.generate().into_iter().map(|v| *v).collect();
    assert_eq!(v, vec![1, 2, 3, 4, 5]);
}

#[test]
fn resetting_the_order_empties_only_the_start_window() {
    let mut chain = Chain::new();
    chain.feed(vec![1u8, 2]);
    assert_eq!(chain.observation_count(), 3);
    chain.order(1);
    assert!(chain.is_empty());
    assert_eq!(chain.observation_count(), 2);
    let v: Vec<u8> = chain.generate_from_token(1).into_iter().map(|v| *v).collect();
    assert_eq!(v, vec![1, 2]);
}

#[test]
fn feed_line_splits_on_any_white_space() {
    let mut chain = Chain::new();
    chain.feed_line("  I   like\tcats \u{a0}");
    assert_eq!(chain.observation_count(), 4);
    assert_eq!(chain.generate_str(), "I like cats");
}

#[test]
fn feed_line_without_words_changes_nothing() {
    let mut chain = Chain::<String>::new();
    chain.feed_line(" \t \u{3000} ");
    chain.feed_line("");
    assert!(chain.is_empty());
    assert_eq!(chain.observation_count(), 0);
}

#[test]
fn feed_str_keeps_empty_words() {
    let mut chain = Chain::new();
    chain.feed_str("a  b");
    assert_eq!(chain.observation_count(), 4);
    assert_eq!(chain.generate_str(), "a  b");
}

#[test]
fn split_fields_drops_empty_runs() {
    assert_eq!(split_fields(""), Vec::<String>::new());
    assert_eq!(split_fields("   "), Vec::<String>::new());
    assert_eq!(split_fields("a"), vec!["a"]);
    assert_eq!(split_fields(" a\tb\n c "), vec!["a", "b", "c"]);
    assert_eq!(split_fields("x\u{2003}y\u{85}z"), vec!["x", "y", "z"]);
    assert_eq!(split_fields("word-with_punct."), vec!["word-with_punct."]);
}

#[test]
fn string_seed_order_two() {
    let mut chain = Chain::new();
    chain.order(2);
    chain.feed_str("go go now");
    assert_eq!(chain.generate_str_from_token("go"), "go now");
    assert_eq!(chain.generate_str_from_token("now"), "");
}

#[test]
fn feed_line_matches_feeding_its_words() {
    let mut by_line = Chain::new();
    by_line.feed_line("I like cats");
    by_line.feed_line("");
    by_line.feed_line("cats  are cute");
    let mut by_words = Chain::new();
    by_words
        .feed(vec!["I".to_string(), "like".to_string(), "cats".to_string()])
        .feed(vec!["cats".to_string(), "are".to_string(), "cute".to_string()]);
    assert_eq!(by_line.observation_count(), by_words.observation_count());
    assert_eq!(by_line.observation_count(), 8);
    for _ in 0..50 {
        let s = by_line.generate_str_from_token("cats");
        assert!(["cats", "cats are cute"].contains(&&s[..]));
    }
    assert_eq!(by_line.generate_str_from_token("test"), "");
}
