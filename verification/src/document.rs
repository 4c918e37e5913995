//! The document of a post: front matter, a blank line, the body; and the
//! name of the file that holds it.

use vstd::prelude::*;
use vstd::string::*;
use crate::header::{front_matter, front_matter_text};
use crate::model::{text_of, Args, ArgsView, CoreError, Post, PostView};
use crate::overlay::{content, rendered};
use crate::stamp::{format_timestamp, formatted_timestamp};

verus! {

/// A document with front matter `header` and body `body`.
pub open spec fn assembled(header: Seq<char>, body: Seq<char>) -> Seq<char> {
    "---\n"@ + header + "\n---\n\n"@ + body
}

/// The file name for a post with identifier `id`, written on the day that
/// `date` names.
pub open spec fn dated_name(date: Seq<char>, id: Seq<char>) -> Seq<char> {
    date + "-"@ + id + ".md"@
}

/// The pattern under which the day of a post enters its file name: year,
/// month and day, with hyphens between.
pub open spec fn day_pattern() -> Seq<char> {
    "%F"@
}

/// The file name of `post`, or the reason why there is none: the time of
/// the post names no calendar day.
pub open spec fn file_name_text(post: PostView) -> Result<Seq<char>, CoreError> {
    match formatted_timestamp(
        post.created_at.seconds,
        post.created_at.nanos,
        post.created_at.offset_seconds,
        day_pattern(),
    ) {
        Some(date) => Ok(dated_name(date, post.id)),
        None => Err(CoreError::UnformattableTimestamp),
    }
}

/// The document of `post`, or the reason why there is none. A date that
/// cannot be formatted is reported before a fault in the entities.
pub open spec fn post_text(post: PostView, args: ArgsView) -> Result<Seq<char>, CoreError> {
    match front_matter_text(post, args) {
        Ok(header) => match rendered(post.full_text, post.mentions, post.urls) {
            Ok(body) => Ok(assembled(header, body)),
            Err(error) => Err(error),
        },
        Err(error) => Err(error),
    }
}

/// What becomes of the document of a post.
#[derive(Clone, Copy, Debug, PartialEq, Eq, Structural)]
pub enum Delivery {
    /// A file of that name is already there: the post is left alone.
    Skip,
    /// The document goes to standard output and no file is written.
    Print,
    /// The document is written to its file.
    Write,
}

/// Decides what becomes of a document, from whether its file `exists` and
/// whether the run is a `dry_run`. A file that exists is never replaced.
pub fn delivery(exists: bool, dry_run: bool) -> (step: Delivery)
    ensures
        step == (if exists {
            Delivery::Skip
        } else if dry_run {
            Delivery::Print
        } else {
            Delivery::Write
        }),
{
    if exists {
        Delivery::Skip
    } else if dry_run {
        Delivery::Print
    } else {
        Delivery::Write
    }
}

/// Puts `header` between two rules of three hyphens and `body` behind them,
/// after a blank line.
pub fn assemble(header: &str, body: &str) -> (out: String)
    ensures
        out@ == assembled(header@, body@),
{
    let mut out = String::from_str("---\n");
    out.append(header);
    out.append("\n---\n\n");
    out.append(body);
    out
}

/// The file name for a post with identifier `id` whose day is already
/// formatted as `date`.
pub fn file_name_from_date(date: &str, id: &str) -> (out: String)
    ensures
        out@ == dated_name(date@, id@),
{
    let mut out = String::from_str(date);
    out.append("-");
    out.append(id);
    out.append(".md");
    out
}

/// The name of the Markdown file for `post`: the day it was written, a
/// hyphen, its identifier, and the extension.
///
/// Fails only where the time of the post names no calendar day.
pub fn file_name(post: &Post) -> (out: Result<String, CoreError>)
    ensures
        text_of(out) == file_name_text(post@),
{
    match format_timestamp(&post.created_at, "%F") {
        Some(date) => Ok(file_name_from_date(date.as_str(), post.id.as_str())),
        None => Err(CoreError::UnformattableTimestamp),
    }
}

/// The whole document for `entry` under the options of `args`.
pub fn post(entry: &Post, args: &Args) -> (out: Result<String, CoreError>)
    ensures
        text_of(out) == post_text(entry@, args@),
{
    let header = match front_matter(entry, args) {
        Ok(header) => header,
        Err(error) => { return Err(error); },
    };
    let body = match content(entry) {
        Ok(body) => body,
        Err(error) => { return Err(error); },
    };
    Ok(assemble(header.as_str(), body.as_str()))
}

} // verus!
