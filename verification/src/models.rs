//! The rows that the storage layer keeps beside the text model.

use vstd::prelude::*;

verus! {

/// A guild to be recorded.
pub struct NewGuild {
    pub id: i64,
}

/// A command prefix to be recorded for a guild.
pub struct NewPrefix<'a> {
    pub guild_id: i64,
    pub pre: &'a str,
}

/// A tag to be recorded for a guild.
pub struct NewTag<'a> {
    pub author_id: i64,
    pub guild_id: i64,
    pub key: &'a str,
    pub text: &'a str,
}

/// A command alias to be recorded for its owner.
pub struct NewCommandAlias<'a> {
    pub owner_id: i64,
    pub alias_name: &'a str,
    pub alias_value: &'a str,
}

/// A user's tea count to be recorded.
pub struct NewTeaCount {
    pub user_id: i64,
    pub count: i32,
}

/// A recorded guild with its feature flags.
pub struct Guild {
    pub id: i64,
    /// Whether the text model may be used for this guild.
    pub markov_on: bool,
    pub tag_prefix_on: bool,
    pub commands_from: i64,
}

/// A recorded command prefix.
pub struct Prefix {
    pub id: i64,
    pub guild_id: i64,
    pub pre: String,
}

/// A recorded tag.
pub struct Tag {
    pub id: i64,
    pub author_id: i64,
    pub guild_id: i64,
    pub key: String,
    pub text: String,
}

/// A recorded command alias.
pub struct CommandAlias {
    pub id: i64,
    pub owner_id: i64,
    pub alias_name: String,
    pub alias_value: String,
}

} // verus!
