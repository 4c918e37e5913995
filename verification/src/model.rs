//! The data that the library works on: posts, their annotated ranges, the
//! options of a run, and the ways in which rendering can fail.

use vstd::prelude::*;

verus! {

/// An instant together with the offset of the zone in which it is shown.
///
/// `seconds` and `nanos` count from 1970-01-01 00:00:00 UTC; `offset_seconds`
/// is local time minus UTC. Every combination of values can be stored; one
/// that names no calendar date fails when it is formatted.
#[derive(Clone, Copy, Debug, PartialEq, Eq)]
pub struct Timestamp {
    pub seconds: i64,
    pub nanos: u32,
    pub offset_seconds: i32,
}

/// An annotated range `[start, end)` of a post's text, counted in characters.
///
/// Which kind of entity it is follows from the list of `Entities` in which
/// it stands; `display_value` is the handle of a mention, the expanded
/// destination of a URL, or the text of a hashtag.
#[derive(Clone, Debug, PartialEq, Eq)]
pub struct Entity {
    pub start: usize,
    pub end: usize,
    pub display_value: String,
}

/// What an `Entity` is in specifications.
pub struct Span {
    pub start: nat,
    pub end: nat,
    pub value: Seq<char>,
}

impl View for Entity {
    type V = Span;

    open spec fn view(&self) -> Span {
        Span { start: self.start as nat, end: self.end as nat, value: self.display_value@ }
    }
}

/// The spans of `entities`, in order.
pub open spec fn spans(entities: Seq<Entity>) -> Seq<Span> {
    entities.map_values(|entity: Entity| entity@)
}

/// The entities of one post, by kind, each list in the order of the archive.
#[derive(Clone, Debug, PartialEq, Eq)]
pub struct Entities {
    pub mentions: Vec<Entity>,
    pub urls: Vec<Entity>,
    pub hashtags: Vec<Entity>,
}

/// The post that a reply answers. A post either names both the account and
/// the post it replies to, or it is no reply.
#[derive(Clone, Debug, PartialEq, Eq)]
pub struct ReplyTarget {
    pub account: String,
    pub post_id: String,
}

impl ReplyTarget {
    /// Pairs the account and the post that a reply names. Where either is
    /// missing there is no reply target: one without the other counts as
    /// neither.
    pub fn from_parts(account: Option<String>, post_id: Option<String>) -> (target: Option<
        ReplyTarget,
    >)
        ensures
            target == (match (account, post_id) {
                (Some(account), Some(post_id)) => Some(ReplyTarget { account, post_id }),
                _ => None,
            }),
    {
        match (account, post_id) {
            (Some(account), Some(post_id)) => Some(ReplyTarget { account, post_id }),
            _ => None,
        }
    }
}

/// What a `ReplyTarget` is in specifications.
pub struct ReplyView {
    pub account: Seq<char>,
    pub post_id: Seq<char>,
}

impl View for ReplyTarget {
    type V = ReplyView;

    open spec fn view(&self) -> ReplyView {
        ReplyView { account: self.account@, post_id: self.post_id@ }
    }
}

/// One archived post.
#[derive(Clone, Debug, PartialEq, Eq)]
pub struct Post {
    pub id: String,
    pub full_text: String,
    pub created_at: Timestamp,
    pub in_reply_to: Option<ReplyTarget>,
    pub entities: Entities,
}

/// What a `Post` is in specifications.
pub struct PostView {
    pub id: Seq<char>,
    pub full_text: Seq<char>,
    pub created_at: Timestamp,
    pub in_reply_to: Option<ReplyView>,
    pub mentions: Seq<Span>,
    pub urls: Seq<Span>,
    pub hashtags: Seq<Span>,
}

impl View for Post {
    type V = PostView;

    open spec fn view(&self) -> PostView {
        PostView {
            id: self.id@,
            full_text: self.full_text@,
            created_at: self.created_at,
            in_reply_to: match self.in_reply_to {
                Some(target) => Some(target@),
                None => None,
            },
            mentions: spans(self.entities.mentions@),
            urls: spans(self.entities.urls@),
            hashtags: spans(self.entities.hashtags@),
        }
    }
}

/// The options of a run that shape the front matter.
#[derive(Clone, Debug, PartialEq, Eq)]
pub struct Args {
    /// Value of the `layout` line.
    pub post_layout: String,
    /// `strftime` pattern for the `date` line.
    pub post_date_format: String,
    /// Value of the `author` line; the line is left out when there is none.
    pub post_author: Option<String>,
    /// Key under which the links of the post are listed.
    pub post_twitter_key: String,
}

/// What `Args` are in specifications.
pub struct ArgsView {
    pub layout: Seq<char>,
    pub date_format: Seq<char>,
    pub author: Option<Seq<char>>,
    pub metadata_key: Seq<char>,
}

impl View for Args {
    type V = ArgsView;

    open spec fn view(&self) -> ArgsView {
        ArgsView {
            layout: self.post_layout@,
            date_format: self.post_date_format@,
            author: match self.post_author {
                Some(author) => Some(author@),
                None => None,
            },
            metadata_key: self.post_twitter_key@,
        }
    }
}

/// Why a post could not be turned into a document.
#[derive(Clone, Copy, Debug, PartialEq, Eq, Structural)]
pub enum CoreError {
    /// An entity's `start` is not below its `end`.
    MalformedEntityRange,
    /// An entity's `end` lies beyond the last character of the text.
    EntityOutOfBounds,
    /// The date pattern cannot be applied to the post's timestamp.
    UnformattableTimestamp,
}

/// The outcome of a function that returns text, with the text by its view.
pub open spec fn text_of(outcome: Result<String, CoreError>) -> Result<Seq<char>, CoreError> {
    match outcome {
        Ok(text) => Ok(text@),
        Err(error) => Err(error),
    }
}

} // verus!
