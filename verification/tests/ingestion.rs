use mchain::chain::MChain;
use mchain::ingest::to_triplets;
use mchain::text::{count_alphanumeric, split_sentences, split_words};
use mchain::token::Token;
use mchain::weight::{reinforce, ONE};

fn word(s: &str) -> Token {
    Token::Word(s.to_string())
}

#[test]
fn sentences_are_split_on_each_delimiter() {
    assert_eq!(split_sentences("First one. Second one!"), vec!["First one", " Second one", ""]);
    assert_eq!(split_sentences("a?b\nc"), vec!["a", "b", "c"]);
}

#[test]
fn a_text_without_delimiter_is_one_sentence() {
    assert_eq!(split_sentences("hello world"), vec!["hello world"]);
    assert_eq!(split_sentences(""), vec![""]);
}

#[test]
fn adjacent_delimiters_give_empty_sentences() {
    assert_eq!(split_sentences("a..b"), vec!["a", "", "b"]);
    assert_eq!(split_sentences("?!"), vec!["", "", ""]);
}

#[test]
fn words_are_runs_without_whitespace() {
    assert_eq!(split_words("  hello   world\t"), vec!["hello".to_string(), "world".to_string()]);
    assert_eq!(split_words("Hi, there"), vec!["Hi,".to_string(), "there".to_string()]);
    assert_eq!(split_words("one"), vec!["one".to_string()]);
}

#[test]
fn a_blank_sentence_has_no_words() {
    assert!(split_words("").is_empty());
    assert!(split_words(" \t  ").is_empty());
}

#[test]
fn words_keep_characters_beyond_ascii() {
    assert_eq!(split_words("caf\u{e9} \u{3042}\u{3044}"), vec!["caf\u{e9}".to_string(), "\u{3042}\u{3044}".to_string()]);
    assert_eq!(split_words("a\u{a0}b"), vec!["a".to_string(), "b".to_string()]);
}

#[test]
fn alphanumeric_characters_are_counted() {
    assert_eq!(count_alphanumeric(" hello world"), 10);
    assert_eq!(count_alphanumeric(" a1 !? _"), 2);
    assert_eq!(count_alphanumeric(""), 0);
}

#[test]
fn windows_of_three_are_taken_in_order() {
    let tokens = vec![Token::Start, word("a"), word("b"), Token::End];
    let triplets = to_triplets(&tokens);
    assert_eq!(
        triplets,
        vec![(Token::Start, word("a"), word("b")), (word("a"), word("b"), Token::End)]
    );
}

#[test]
fn fewer_than_three_tokens_give_no_window() {
    assert!(to_triplets(&vec![Token::Start, Token::End]).is_empty());
    assert!(to_triplets(&vec![]).is_empty());
}

#[test]
fn a_weight_is_multiplied_by_one_point_one() {
    assert_eq!(reinforce(ONE), 4724464025);
    assert_eq!(reinforce(4724464025), 5196910427);
    assert_eq!(reinforce(10), 11);
    assert_eq!(reinforce(9), 9);
}

#[test]
fn a_weight_stays_at_the_largest() {
    assert_eq!(reinforce(u64::MAX), u64::MAX);
    assert_eq!(reinforce(u64::MAX - 1), u64::MAX);
}

#[test]
fn a_fresh_model_holds_nothing() {
    let chain = MChain::new();
    assert_eq!(chain.weight_of(&Token::Start, &Token::Start, &word("hello")), None);
}

#[test]
fn one_sentence_gives_its_triplets() {
    let mut chain = MChain::new();
    chain.add_string("hello world");
    let once = reinforce(ONE);
    assert_eq!(chain.weight_of(&Token::Start, &Token::Start, &word("hello")), Some(once));
    assert_eq!(chain.weight_of(&Token::Start, &word("hello"), &word("world")), Some(once));
    assert_eq!(chain.weight_of(&word("hello"), &word("world"), &Token::End), Some(once));
    assert_eq!(chain.weight_of(&Token::Start, &Token::Start, &word("world")), None);
    assert_eq!(chain.weight_of(&word("world"), &word("hello"), &Token::End), None);
}

#[test]
fn a_single_word_leads_from_start_to_end() {
    let mut chain = MChain::new();
    chain.add_string("hi");
    let once = reinforce(ONE);
    assert_eq!(chain.weight_of(&Token::Start, &Token::Start, &word("hi")), Some(once));
    assert_eq!(chain.weight_of(&Token::Start, &word("hi"), &Token::End), Some(once));
}

#[test]
fn a_repeated_sentence_multiplies_its_weights() {
    let mut chain = MChain::new();
    chain.add_string("hello world");
    chain.add_string("hello world");
    chain.add_string("hello there");
    let once = reinforce(ONE);
    let twice = reinforce(once);
    let thrice = reinforce(twice);
    assert_eq!(chain.weight_of(&Token::Start, &Token::Start, &word("hello")), Some(thrice));
    assert_eq!(chain.weight_of(&Token::Start, &word("hello"), &word("world")), Some(twice));
    assert_eq!(chain.weight_of(&Token::Start, &word("hello"), &word("there")), Some(once));
}

#[test]
fn a_word_repeated_in_a_sentence_counts_each_time() {
    let mut chain = MChain::new();
    chain.add_string("a a a a");
    let once = reinforce(ONE);
    assert_eq!(chain.weight_of(&word("a"), &word("a"), &word("a")), Some(reinforce(once)));
    assert_eq!(chain.weight_of(&Token::Start, &word("a"), &word("a")), Some(once));
    assert_eq!(chain.weight_of(&word("a"), &word("a"), &Token::End), Some(once));
}

#[test]
fn empty_input_adds_nothing() {
    let mut chain = MChain::new();
    chain.add_string("");
    chain.add_string("  . ! ?\n");
    assert_eq!(chain.weight_of(&Token::Start, &Token::Start, &Token::End), None);
    assert_eq!(chain.generate_string(10, 0), None);
}

#[test]
fn no_triplet_crosses_a_delimiter() {
    let mut chain = MChain::new();
    chain.add_string("First one. Second one!");
    let once = reinforce(ONE);
    assert_eq!(chain.weight_of(&Token::Start, &Token::Start, &word("First")), Some(once));
    assert_eq!(chain.weight_of(&Token::Start, &Token::Start, &word("Second")), Some(once));
    assert_eq!(chain.weight_of(&word("First"), &word("one"), &Token::End), Some(once));
    assert_eq!(chain.weight_of(&word("Second"), &word("one"), &Token::End), Some(once));
    assert_eq!(chain.weight_of(&word("First"), &word("one"), &word("Second")), None);
    assert_eq!(chain.weight_of(&word("one"), &word("Second"), &word("one")), None);
    assert_eq!(chain.weight_of(&word("one"), &Token::End, &word("Second")), None);
}

#[test]
fn a_delimiter_parts_a_message_like_two_messages() {
    let mut joined = MChain::new();
    joined.add_string("red green blue?green blue red");
    let mut apart = MChain::new();
    apart.add_string("red green blue");
    apart.add_string("green blue red");
    let tokens = [Token::Start, Token::End, word("red"), word("green"), word("blue")];
    for a in tokens.iter() {
        for b in tokens.iter() {
            for c in tokens.iter() {
                assert_eq!(joined.weight_of(a, b, c), apart.weight_of(a, b, c));
            }
        }
    }
}

#[test]
fn the_order_of_messages_does_not_change_the_table() {
    let first = "the cat sat. the cat ran";
    let second = "the dog sat! a cat ran";
    let mut one = MChain::new();
    one.add_string(first);
    one.add_string(second);
    let mut other = MChain::new();
    other.add_string(second);
    other.add_string(first);
    let tokens = [
        Token::Start,
        Token::End,
        word("the"),
        word("a"),
        word("cat"),
        word("dog"),
        word("sat"),
        word("ran"),
    ];
    let mut held = 0;
    for a in tokens.iter() {
        for b in tokens.iter() {
            for c in tokens.iter() {
                assert_eq!(one.weight_of(a, b, c), other.weight_of(a, b, c));
                if one.weight_of(a, b, c).is_some() {
                    held += 1;
                }
            }
        }
    }
    assert_eq!(held, 12);
}

#[test]
fn extend_ingests_each_message() {
    let mut chain = MChain::new();
    chain.extend(&["hello world", "hello there"]);
    let once = reinforce(ONE);
    assert_eq!(chain.weight_of(&Token::Start, &Token::Start, &word("hello")), Some(reinforce(once)));
    assert_eq!(chain.weight_of(&word("hello"), &word("there"), &Token::End), Some(once));
}

#[test]
fn from_iter_builds_the_same_table_as_extend() {
    let messages = ["one two three", "two three four. one two"];
    let built = MChain::from_iter(&messages);
    let mut grown = MChain::new();
    grown.extend(&messages);
    let tokens = [Token::Start, Token::End, word("one"), word("two"), word("three"), word("four")];
    for a in tokens.iter() {
        for b in tokens.iter() {
            for c in tokens.iter() {
                assert_eq!(built.weight_of(a, b, c), grown.weight_of(a, b, c));
            }
        }
    }
    assert_eq!(
        built.weight_of(&Token::Start, &Token::Start, &word("one")),
        Some(reinforce(reinforce(ONE)))
    );
}

#[test]
fn words_differ_by_case_and_punctuation() {
    let mut chain = MChain::new();
    chain.add_string("Hello, world");
    assert!(chain.weight_of(&Token::Start, &Token::Start, &word("Hello,")).is_some());
    assert!(chain.weight_of(&Token::Start, &Token::Start, &word("hello,")).is_none());
    assert!(chain.weight_of(&Token::Start, &Token::Start, &word("Hello")).is_none());
}

#[test]
fn the_table_counts_its_triplets() {
    let mut chain = MChain::new();
    assert_eq!(chain.len(), 0);
    chain.add_string("hello world");
    assert_eq!(chain.len(), 3);
    chain.add_string("hello world");
    assert_eq!(chain.len(), 3);
    chain.add_string("hello there. hi");
    assert_eq!(chain.len(), 7);
}

#[test]
fn a_sentence_is_ingested_from_its_words() {
    let mut chain = MChain::new();
    chain.add_sentence(&vec!["hello".to_string(), "world".to_string()]);
    let mut other = MChain::new();
    other.add_string("hello world");
    let tokens = [Token::Start, Token::End, word("hello"), word("world")];
    for a in tokens.iter() {
        for b in tokens.iter() {
            for c in tokens.iter() {
                assert_eq!(chain.weight_of(a, b, c), other.weight_of(a, b, c));
            }
        }
    }
    assert_eq!(chain.len(), 3);
    chain.add_sentence(&vec![]);
    assert_eq!(chain.len(), 3);
}

#[test]
fn owned_messages_are_ingested_like_borrowed_ones() {
    let owned = vec!["one two three".to_string(), "two three four. one two".to_string()];
    let built = MChain::from_owned(&owned);
    let mut grown = MChain::default();
    grown.extend_owned(&owned);
    let borrowed = MChain::from_iter(&["one two three", "two three four. one two"]);
    let tokens = [Token::Start, Token::End, word("one"), word("two"), word("three"), word("four")];
    for a in tokens.iter() {
        for b in tokens.iter() {
            for c in tokens.iter() {
                assert_eq!(built.weight_of(a, b, c), borrowed.weight_of(a, b, c));
                assert_eq!(grown.weight_of(a, b, c), borrowed.weight_of(a, b, c));
            }
        }
    }
    assert_eq!(built.len(), borrowed.len());
}

#[test]
fn a_large_corpus_is_ingested() {
    let mut chain = MChain::new();
    let mut expected = 0;
    for i in 0..3000 {
        let message = format!("w{} x{} y{} z{} common tail", i, i % 7, i % 11, i % 13);
        chain.add_string(&message);
        expected += 1;
    }
    assert_eq!(expected, 3000);
    assert_eq!(
        chain.weight_of(&Token::Start, &Token::Start, &word("w2999")),
        Some(reinforce(ONE))
    );
    assert_eq!(chain.weight_of(&Token::Start, &Token::Start, &word("w3000")), None);
    let mut tail = ONE;
    for _ in 0..3000 {
        tail = reinforce(tail);
    }
    assert_eq!(tail, u64::MAX);
    assert_eq!(chain.weight_of(&word("common"), &word("tail"), &Token::End), Some(u64::MAX));
    assert!(chain.generate_string(50, 0).is_some());
}
