use mchain::chain::MChain;
use mchain::generate::finish;
use mchain::weight::{sampling_weights, sum_weights, ONE};
use rand::rngs::StdRng;
use rand::SeedableRng;

#[test]
fn a_single_sentence_is_the_only_path() {
    let mut chain = MChain::new();
    chain.add_string("hello world");
    for _ in 0..50 {
        assert_eq!(chain.generate_string(100, 0), Some(" hello world".to_string()));
    }
}

#[test]
fn a_single_path_under_a_seeded_generator() {
    let mut chain = MChain::new();
    chain.add_string("the quick brown fox");
    let mut rng = StdRng::from_seed([7u8; 32]);
    assert_eq!(
        chain.generate_string_with(&mut rng, 100, 0),
        Some(" the quick brown fox".to_string())
    );
}

#[test]
fn an_empty_model_generates_nothing() {
    let chain = MChain::new();
    assert_eq!(chain.generate_string(100, 0), None);
    assert_eq!(chain.generate_string(0, 0), None);
    assert_eq!(chain.generate_string(1, 5), None);
}

#[test]
fn a_limit_of_zero_generates_nothing() {
    let mut chain = MChain::new();
    chain.add_string("hello world");
    assert_eq!(chain.generate_string(0, 0), None);
}

#[test]
fn the_limit_cuts_a_walk_short() {
    let mut chain = MChain::new();
    chain.add_string("one two three four");
    assert_eq!(chain.generate_string(2, 0), Some(" one two".to_string()));
    assert_eq!(chain.generate_string(4, 0), Some(" one two three four".to_string()));
    assert_eq!(chain.generate_string(5, 0), Some(" one two three four".to_string()));
}

#[test]
fn a_short_output_is_held_back() {
    let mut chain = MChain::new();
    chain.add_string("hi");
    for limit in [1usize, 2, 10, 1000] {
        assert_eq!(chain.generate_string(limit, 3), None);
    }
    assert_eq!(chain.generate_string(10, 2), Some(" hi".to_string()));
}

#[test]
fn only_alphanumeric_characters_count_towards_the_minimum() {
    let mut chain = MChain::new();
    chain.add_string("a-b, c:d");
    assert_eq!(chain.generate_string(10, 4), Some(" a-b, c:d".to_string()));
    assert_eq!(chain.generate_string(10, 5), None);
}

#[test]
fn the_gate_passes_text_that_is_long_enough() {
    assert_eq!(finish(" hello world".to_string(), 10), Some(" hello world".to_string()));
    assert_eq!(finish(" hello world".to_string(), 11), None);
    assert_eq!(finish(String::new(), 0), None);
    assert_eq!(finish(" !".to_string(), 0), Some(" !".to_string()));
    assert_eq!(finish(" !".to_string(), 1), None);
}

#[test]
fn a_cycle_ends_at_the_limit() {
    let mut chain = MChain::new();
    chain.add_string("a a a a a a");
    for _ in 0..20 {
        let text = chain.generate_string(7, 0).unwrap();
        let words: Vec<&str> = text.split(' ').collect();
        assert_eq!(words[0], "");
        assert!(words.len() >= 3 && words.len() <= 8);
        assert!(words[1..].iter().all(|w| *w == "a"));
    }
}

#[test]
fn every_generated_step_is_in_the_corpus() {
    let corpus = ["the cat sat on the mat", "the dog sat on the log", "a cat ran"];
    let mut chain = MChain::new();
    chain.extend(&corpus);
    let mut rng = StdRng::from_seed([3u8; 32]);
    for _ in 0..200 {
        if let Some(text) = chain.generate_string_with(&mut rng, 50, 0) {
            assert!(text.starts_with(' '));
            let words: Vec<&str> = text[1..].split(' ').collect();
            assert!(words[0] == "the" || words[0] == "a");
            for pair in words.windows(2) {
                let joined = format!("{} {}", pair[0], pair[1]);
                assert!(corpus.iter().any(|s| s.contains(&joined)));
            }
        }
    }
}

#[test]
fn the_same_seed_gives_the_same_walk() {
    let mut chain = MChain::new();
    chain.extend(&["the cat sat on the mat", "the dog sat on the log", "a cat ran"]);
    let mut first = StdRng::from_seed([11u8; 32]);
    let mut second = StdRng::from_seed([11u8; 32]);
    for _ in 0..20 {
        assert_eq!(
            chain.generate_string_with(&mut first, 50, 0),
            chain.generate_string_with(&mut second, 50, 0)
        );
    }
}

#[test]
fn a_reinforced_sentence_is_drawn_more_often() {
    let mut chain = MChain::new();
    chain.add_string("alpha beta");
    for _ in 0..10 {
        chain.add_string("gamma delta");
    }
    let mut rng = StdRng::from_seed([5u8; 32]);
    let mut a = 0;
    let mut b = 0;
    for _ in 0..4000 {
        match chain.generate_string_with(&mut rng, 10, 0) {
            Some(text) if text == " alpha beta" => a += 1,
            Some(text) if text == " gamma delta" => b += 1,
            other => panic!("{:?}", other),
        }
    }
    assert_eq!(a + b, 4000);
    assert!(b > a + 400);
}

#[test]
fn whole_parts_are_drawn_from() {
    let weights = sampling_weights(&vec![ONE, ONE + ONE / 10, 3 * ONE - 1, 7 * ONE, ONE - 1]);
    assert_eq!(weights, vec![1, 1, 2, 7, 0]);
    assert_eq!(sum_weights(&weights), 11);
}

#[test]
fn no_weights_give_no_draw_weights() {
    assert!(sampling_weights(&vec![]).is_empty());
    assert_eq!(sum_weights(&vec![]), 0);
}

#[test]
fn a_total_within_the_bound_is_left_alone() {
    let weights = sampling_weights(&vec![u64::MAX]);
    assert_eq!(weights, vec![u32::MAX]);
    let weights = sampling_weights(&vec![u64::MAX - ONE, ONE]);
    assert_eq!(weights, vec![u32::MAX - 1, 1]);
}

#[test]
fn a_total_beyond_the_bound_is_scaled_down() {
    let weights = sampling_weights(&vec![u64::MAX, u64::MAX, u64::MAX]);
    assert_eq!(weights, vec![1431655765, 1431655765, 1431655765]);
    assert_eq!(sum_weights(&weights), 4294967295);
}

#[test]
fn a_total_just_beyond_the_bound_is_halved() {
    let weights = sampling_weights(&vec![u64::MAX, ONE]);
    assert_eq!(weights, vec![2147483647, 0]);
    let weights = sampling_weights(&vec![u64::MAX, u64::MAX - ONE, 5 * ONE]);
    assert_eq!(weights, vec![1073741823, 1073741823, 1]);
}

#[test]
fn scaled_totals_always_fit() {
    let cases: Vec<Vec<u64>> = vec![
        vec![u64::MAX; 2],
        vec![u64::MAX; 7],
        vec![u64::MAX, 1, ONE, 2 * ONE],
        vec![u64::MAX / 2; 5],
        vec![u64::MAX / 3 * 2, u64::MAX / 3 * 2],
        vec![ONE; 100],
    ];
    for raw in cases {
        let weights = sampling_weights(&raw);
        assert_eq!(weights.len(), raw.len());
        assert!(sum_weights(&weights) <= u32::MAX as u128);
    }
}

#[test]
fn weights_at_the_largest_do_not_break_generation() {
    let mut chain = MChain::new();
    for _ in 0..300 {
        chain.add_string("go left");
        chain.add_string("go right");
    }
    assert_eq!(
        chain.weight_of(
            &mchain::token::Token::Start,
            &mchain::token::Token::Word("go".to_string()),
            &mchain::token::Token::Word("left".to_string())
        ),
        Some(u64::MAX)
    );
    let mut rng = StdRng::from_seed([9u8; 32]);
    let mut left = 0;
    let mut right = 0;
    for _ in 0..400 {
        match chain.generate_string_with(&mut rng, 10, 0) {
            Some(text) if text == " go left" => left += 1,
            Some(text) if text == " go right" => right += 1,
            other => panic!("{:?}", other),
        }
    }
    assert!(left > 100 && right > 100);
}

#[test]
fn punctuation_inside_words_is_kept() {
    let mut chain = MChain::new();
    chain.add_string("Well, it's (almost) done");
    assert_eq!(chain.generate_string(20, 0), Some(" Well, it's (almost) done".to_string()));
}

#[test]
fn two_sentences_give_one_of_them() {
    let mut chain = MChain::new();
    chain.add_string("First one. Second two!");
    let mut rng = StdRng::from_seed([21u8; 32]);
    let mut first = 0;
    let mut second = 0;
    for _ in 0..200 {
        match chain.generate_string_with(&mut rng, 10, 0) {
            Some(text) if text == " First one" => first += 1,
            Some(text) if text == " Second two" => second += 1,
            other => panic!("{:?}", other),
        }
    }
    assert!(first > 0 && second > 0);
}

#[test]
fn ten_occurrences_double_the_draw_weight() {
    let once = mchain::weight::reinforce(ONE);
    let mut ten = ONE;
    for _ in 0..10 {
        ten = mchain::weight::reinforce(ten);
    }
    assert_eq!(ten, 11140039031);
    assert_eq!(sampling_weights(&vec![once, ten]), vec![1, 2]);
}

#[test]
fn a_total_just_beyond_the_bound_still_draws() {
    let mut chain = MChain::new();
    for _ in 0..300 {
        chain.add_string("go left");
    }
    chain.add_string("go right");
    let mut rng = StdRng::from_seed([13u8; 32]);
    for _ in 0..100 {
        assert_eq!(chain.generate_string_with(&mut rng, 10, 0), Some(" go left".to_string()));
    }
}
