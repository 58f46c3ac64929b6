use mchain::corpus::{count_whitespace, crap_filter, message_filter};
use mchain::models::{CommandAlias, Guild, NewCommandAlias, NewGuild, NewPrefix, NewTag, NewTeaCount, Prefix, Tag};
use mchain::phrases::and_comma_split;

#[test]
fn whitespace_characters_are_counted() {
    assert_eq!(count_whitespace("a b\tc\nd"), 3);
    assert_eq!(count_whitespace(""), 0);
    assert_eq!(count_whitespace("    "), 4);
}

#[test]
fn an_empty_message_is_dropped() {
    assert!(!crap_filter(""));
}

#[test]
fn a_message_needs_four_whitespace_characters() {
    assert!(crap_filter("one two three four five"));
    assert!(!crap_filter("one two three four"));
}

#[test]
fn a_message_needs_alphanumeric_characters_for_half_its_bytes() {
    assert!(crap_filter("abcd    "));
    assert!(crap_filter("abcd !   "));
    assert!(!crap_filter("abc     "));
    assert!(!crap_filter("! ! ! ! ! ! !"));
}

#[test]
fn the_length_is_taken_in_bytes() {
    assert!(crap_filter("eeee    "));
    assert!(!crap_filter("\u{e9}\u{e9}\u{e9}\u{e9}    "));
    assert!(crap_filter("\u{e9}\u{e9}eeeee    "));
}

#[test]
fn a_bot_is_not_kept() {
    assert!(message_filter(false, "one two three four five"));
    assert!(!message_filter(true, "one two three four five"));
    assert!(!message_filter(false, "short"));
}

#[test]
fn names_are_joined_into_a_phrase() {
    let none: Vec<String> = vec![];
    assert_eq!(and_comma_split(&none), "");
    assert_eq!(and_comma_split(&["a".to_string()]), "a");
    assert_eq!(and_comma_split(&["a".to_string(), "b".to_string()]), "a and b");
    assert_eq!(
        and_comma_split(&["a".to_string(), "b".to_string(), "c".to_string()]),
        "a, b and c"
    );
    assert_eq!(
        and_comma_split(&["1 year".to_string(), "2 weeks".to_string(), "3 days".to_string(), "4 hours".to_string()]),
        "1 year, 2 weeks, 3 days and 4 hours"
    );
}

#[test]
fn rows_hold_their_fields() {
    let guild = Guild { id: 7, markov_on: true, tag_prefix_on: false, commands_from: 0 };
    assert!(guild.markov_on && !guild.tag_prefix_on);
    assert_eq!(NewGuild { id: guild.id }.id, 7);
    let prefix = Prefix { id: 1, guild_id: 7, pre: "!".to_string() };
    assert_eq!(NewPrefix { guild_id: prefix.guild_id, pre: &prefix.pre }.pre, "!");
    let tag = Tag { id: 2, author_id: 3, guild_id: 7, key: "k".to_string(), text: "t".to_string() };
    let new_tag = NewTag { author_id: tag.author_id, guild_id: tag.guild_id, key: &tag.key, text: &tag.text };
    assert_eq!((new_tag.key, new_tag.text), ("k", "t"));
    let alias = CommandAlias { id: 4, owner_id: 3, alias_name: "n".to_string(), alias_value: "v".to_string() };
    let new_alias = NewCommandAlias { owner_id: alias.owner_id, alias_name: &alias.alias_name, alias_value: &alias.alias_value };
    assert_eq!((new_alias.owner_id, new_alias.alias_name, new_alias.alias_value), (3, "n", "v"));
    assert_eq!(NewTeaCount { user_id: 3, count: 5 }.count, 5);
}
