use markov::{split_words, Chain, Distribution};
use std::rc::Rc;

#[test]
fn new() {
    Chain::<u8>::new();
    Chain::<String>::new();
}

#[test]
fn is_empty() {
    let mut chain = Chain::new();
    assert!(chain.is_empty());
    chain.feed(vec![1u8, 2, 3]);
    assert!(!chain.is_empty());
}

#[test]
fn feed() {
    let mut chain = Chain::new();
    chain.feed(vec![3, 5, 10]).feed(vec![5, 12]);
}

#[test]
fn generate() {
    let mut chain = Chain::new();
    chain.feed(vec![3u8, 5, 10]).feed(vec![5, 12]);
    let v: Vec<u8> = chain.generate().into_iter().map(|v| *v).collect();
    assert!([vec![3, 5, 10], vec![3, 5, 12], vec![5, 10], vec![5, 12]].contains(&v));
}

#[test]
fn generate_for_higher_order() {
    let mut chain = Chain::new();
    chain.order(2);
    chain.feed(vec![3u8, 5, 10]).feed(vec![2, 3, 5, 12]);
    let v: Vec<u8> = chain.generate().into_iter().map(|v| *v).collect();
    assert!([vec![3, 5, 10], vec![3, 5, 12], vec![2, 3, 5, 10], vec![2, 3, 5, 12]].contains(&v));
}

#[test]
fn generate_from_token() {
    let mut chain = Chain::new();
    chain.feed(vec![3u8, 5, 10]).feed(vec![5, 12]);
    let v: Vec<u8> = chain.generate_from_token(5).into_iter().map(|v| *v).collect();
    assert!([vec![5, 10], vec![5, 12]].contains(&v));
}

#[test]
fn generate_from_unfound_token() {
    let mut chain = Chain::new();
    chain.feed(vec![3u8, 5, 10]).feed(vec![5, 12]);
    let v: Vec<u8> = chain.generate_from_token(9).into_iter().map(|v| *v).collect();
    assert_eq!(v, Vec::<u8>::new());
}

#[test]
fn iter() {
    let mut chain = Chain::new();
    chain.feed(vec![3u8, 5, 10]).feed(vec![5, 12]);
    assert_eq!(chain.iter().size_hint().1, None);
}

#[test]
fn iter_for() {
    let mut chain = Chain::new();
    chain.feed(vec![3u8, 5, 10]).feed(vec![5, 12]);
    let mut it = chain.iter_for(5);
    let mut got = Vec::new();
    while let Some(v) = it.next() {
        got.push(v);
    }
    assert_eq!(got.len(), 5);
}

#[test]
fn feed_str() {
    let mut chain = Chain::new();
    chain.feed_str("I like cats and dogs");
}

#[test]
fn generate_str() {
    let mut chain = Chain::new();
    chain.feed_str("I like cats").feed_str("I hate cats");
    assert!(["I like cats", "I hate cats"].contains(&&chain.generate_str()[..]));
}

#[test]
fn generate_str_from_token() {
    let mut chain = Chain::new();
    chain.feed_str("I like cats").feed_str("cats are cute");
    assert!(["cats", "cats are cute"].contains(&&chain.generate_str_from_token("cats")[..]));
}

#[test]
fn generate_str_from_unfound_token() {
    let mut chain = Chain::new();
    chain.feed_str("I like cats").feed_str("cats are cute");
    assert_eq!(chain.generate_str_from_token("test"), "");
}

#[test]
fn str_iter() {
    let mut chain = Chain::new();
    chain.feed_str("I like cats and I like dogs");
    assert_eq!(chain.str_iter().size_hint().1, None);
}

#[test]
fn str_iter_for() {
    let mut chain = Chain::new();
    chain.feed_str("I like cats and I like dogs");
    let mut it = chain.str_iter_for(5);
    let mut got = Vec::new();
    while let Some(s) = it.next() {
        got.push(s);
    }
    assert_eq!(got.len(), 5);
}

#[test]
fn feed_empty_changes_nothing() {
    let mut chain = Chain::<u8>::new();
    chain.feed(vec![]);
    assert!(chain.is_empty());
    assert_eq!(chain.observation_count(), 0);
    chain.feed(vec![4u8]);
    chain.feed(vec![]);
    assert!(!chain.is_empty());
    for _ in 0..20 {
        let v: Vec<u8> = chain.generate().into_iter().map(|v| *v).collect();
        assert_eq!(v, vec![4]);
    }
}

#[test]
fn new_chain_is_empty_until_fed() {
    let mut chain = Chain::<u8>::new();
    assert!(chain.is_empty());
    chain.feed(vec![]);
    assert!(chain.is_empty());
    chain.feed(vec![2u8]);
    assert!(!chain.is_empty());
}

#[test]
fn generate_stays_in_trained_paths_repeatedly() {
    let mut chain = Chain::new();
    chain.feed(vec![3u8, 5, 10]).feed(vec![5, 12]);
    for _ in 0..200 {
        let v: Vec<u8> = chain.generate().into_iter().map(|v| *v).collect();
        assert!([vec![3, 5, 10], vec![3, 5, 12], vec![5, 10], vec![5, 12]].contains(&v));
    }
}

#[test]
fn higher_order_repeatedly() {
    let mut chain = Chain::new();
    chain.order(2);
    chain.feed(vec![3u8, 5, 10]).feed(vec![2, 3, 5, 12]);
    for _ in 0..200 {
        let v: Vec<u8> = chain.generate().into_iter().map(|v| *v).collect();
        assert!(
            [vec![3, 5, 10], vec![3, 5, 12], vec![2, 3, 5, 10], vec![2, 3, 5, 12]].contains(&v)
        );
    }
}

#[test]
fn from_token_repeatedly() {
    let mut chain = Chain::new();
    chain.feed(vec![3u8, 5, 10]).feed(vec![5, 12]);
    for _ in 0..200 {
        let v: Vec<u8> = chain.generate_from_token(5).into_iter().map(|v| *v).collect();
        assert!([vec![5, 10], vec![5, 12]].contains(&v));
    }
}

#[test]
fn from_token_needs_repeated_window_at_higher_order() {
    let mut chain = Chain::new();
    chain.order(2);
    chain.feed(vec![3u8, 5, 10]);
    assert!(chain.generate_from_token(5).is_empty());
    chain.feed(vec![7u8, 7, 1]);
    let v: Vec<u8> = chain.generate_from_token(7).into_iter().map(|v| *v).collect();
    assert_eq!(v, vec![7, 1]);
}

#[test]
fn order_change_starts_empty_and_keeps_old_data() {
    let mut chain = Chain::new();
    chain.feed(vec![1u8, 2]);
    chain.order(2);
    assert!(chain.is_empty());
    chain.feed(vec![8u8, 9]);
    let v: Vec<u8> = chain.generate().into_iter().map(|v| *v).collect();
    assert_eq!(v, vec![8, 9]);
    chain.order(1);
    assert!(chain.is_empty());
    let v: Vec<u8> = chain.generate_from_token(2).into_iter().map(|v| *v).collect();
    assert_eq!(v, vec![2]);
}

#[test]
fn sized_iterator_counts_down() {
    let mut chain = Chain::new();
    chain.feed(vec![1u8]);
    let mut it = chain.iter_for(3);
    assert_eq!(it.size_hint(), (3, Some(3)));
    assert!(it.next().is_some());
    assert_eq!(it.size_hint(), (2, Some(2)));
    assert!(it.next().is_some());
    assert!(it.next().is_some());
    assert!(it.next().is_none());
    assert_eq!(it.size_hint(), (0, Some(0)));
    let mut none = chain.iter_for(0);
    assert!(none.next().is_none());
}

#[test]
fn infinite_iterator_keeps_going() {
    let mut chain = Chain::new();
    chain.feed(vec![1u8, 2]);
    let mut it = chain.iter();
    for _ in 0..50 {
        let v: Vec<u8> = it.next().unwrap().into_iter().map(|v| *v).collect();
        assert_eq!(v, vec![1, 2]);
    }
    assert_eq!(it.size_hint(), (0, None));
}

#[test]
fn generate_str_repeatedly() {
    let mut chain = Chain::new();
    chain.feed_str("I like cats").feed_str("I hate cats");
    for _ in 0..200 {
        let s = chain.generate_str();
        assert!(["I like cats", "I hate cats"].contains(&&s[..]));
    }
}

#[test]
fn string_iterators_render_lines() {
    let mut chain = Chain::new();
    chain.feed_str("a b c");
    let mut it = chain.str_iter();
    assert_eq!(it.next().unwrap(), "a b c");
    let mut sized = chain.str_iter_for(2);
    assert_eq!(sized.size_hint(), (2, Some(2)));
    assert_eq!(sized.next().unwrap(), "a b c");
    assert_eq!(sized.next().unwrap(), "a b c");
    assert!(sized.next().is_none());
}

#[test]
fn split_at_single_spaces() {
    assert_eq!(split_words("I like cats"), vec!["I", "like", "cats"]);
    assert_eq!(split_words(""), vec![""]);
    assert_eq!(split_words("a  b"), vec!["a", "", "b"]);
    assert_eq!(split_words(" x "), vec!["", "x", ""]);
    assert_eq!(split_words("héllo wörld"), vec!["héllo", "wörld"]);
}

#[test]
fn render_joins_with_single_spaces() {
    assert_eq!(Chain::vec_to_string(vec![]), "");
    assert_eq!(Chain::vec_to_string(vec![Rc::new("one".to_string())]), "one");
    let words = vec![Rc::new("I".to_string()), Rc::new("like".to_string()), Rc::new("cats".to_string())];
    assert_eq!(Chain::vec_to_string(words), "I like cats");
}

#[test]
fn select_follows_cumulative_counts() {
    let mut d = Distribution::<char>::new();
    assert!(d.is_empty());
    d.add(Some(Rc::new('A')));
    d.add(Some(Rc::new('B')));
    d.add(Some(Rc::new('A')));
    d.add(Some(Rc::new('A')));
    d.add(None);
    assert!(!d.is_empty());
    assert_eq!(d.total_weight(), 5);
    assert_eq!(d.select(0).map(|c| *c), Some('A'));
    assert_eq!(d.select(2).map(|c| *c), Some('A'));
    assert_eq!(d.select(3).map(|c| *c), Some('B'));
    assert_eq!(d.select(4), None);
}

#[test]
fn sample_frequency_follows_counts() {
    let mut d = Distribution::<char>::new();
    for _ in 0..3 {
        d.add(Some(Rc::new('A')));
    }
    d.add(Some(Rc::new('B')));
    let draws = 20000;
    let mut a = 0;
    for _ in 0..draws {
        let c = d.sample().unwrap();
        assert!(*c == 'A' || *c == 'B');
        if *c == 'A' {
            a += 1;
        }
    }
    let freq = a as f64 / draws as f64;
    assert!((freq - 0.75).abs() < 0.02, "frequency of A was {}", freq);
}

#[test]
fn sample_never_returns_unseen() {
    let mut d = Distribution::<u8>::new();
    d.add(None);
    for _ in 0..100 {
        assert!(d.sample().is_none());
    }
}
