//! The front matter of a document: layout, date, author, tags, and the
//! links that tie the post to its place in the archive.

use vstd::prelude::*;
use vstd::string::*;
use crate::model::{text_of, Args, ArgsView, CoreError, Entity, Post, PostView, Span, spans};
use crate::overlay::account_base;
use crate::stamp::{format_timestamp, formatted_timestamp};
use crate::text::{join_lines, joined, lemma_joined_nested, line_views};

verus! {

/// The permanent link to the account with handle `handle`.
pub open spec fn account_url(handle: Seq<char>) -> Seq<char> {
    account_base() + handle
}

/// The permanent link to the post with identifier `id`.
pub open spec fn status_url(id: Seq<char>) -> Seq<char> {
    "https://twitter.com/i/web/status/"@ + id
}

/// The values of `spans`, in order.
pub open spec fn values(spans: Seq<Span>) -> Seq<Seq<char>> {
    spans.map_values(|span: Span| span.value)
}

/// The `date` line for a formatted date: the date between double quotes.
pub open spec fn date_line(date: Seq<char>) -> Seq<char> {
    "date: \""@ + date + "\""@
}

/// The hashtags of a post, joined by commas.
pub open spec fn tags(hashtags: Seq<Span>) -> Seq<char> {
    joined(values(hashtags), seq![','])
}

/// The handles that the `mentions` list of `post` names: all that are
/// mentioned, but for the account that the post replies to.
pub open spec fn listed_handles(post: PostView) -> Seq<Seq<char>> {
    match post.in_reply_to {
        Some(target) => values(post.mentions).filter(|handle: Seq<char>| handle != target.account),
        None => values(post.mentions),
    }
}

/// The `mentions` list for `handles`: its key, then one item for each.
pub open spec fn mention_lines(handles: Seq<Seq<char>>) -> Seq<Seq<char>> {
    seq!["  mentions:"@] + handles.map_values(|handle: Seq<char>| "    - "@ + account_url(handle))
}

/// The `reply_to` block of `post`; empty where the post is no reply.
pub open spec fn reply_lines(post: PostView) -> Seq<Seq<char>> {
    match post.in_reply_to {
        Some(target) => seq![
            "  reply_to:"@,
            "    account: "@ + account_url(target.account),
            "    post: "@ + status_url(target.post_id),
        ],
        None => Seq::empty(),
    }
}

/// The `urls` list of `post`; empty where the post holds no URL.
pub open spec fn url_lines(post: PostView) -> Seq<Seq<char>> {
    if post.urls.len() > 0 {
        seq!["  urls:"@] + values(post.urls).map_values(|url: Seq<char>| "    - "@ + url)
    } else {
        Seq::empty()
    }
}

/// The lines of the block of links under `key`: the post itself, what it
/// replies to, whom it mentions, and the URLs it holds.
pub open spec fn link_lines(post: PostView, key: Seq<char>) -> Seq<Seq<char>> {
    seq![key + ":"@, "  post: "@ + status_url(post.id)] + reply_lines(post) + (if listed_handles(
        post,
    ).len() > 0 {
        mention_lines(listed_handles(post))
    } else {
        Seq::empty()
    }) + url_lines(post)
}

/// The lines of the front matter in front of the block of links.
pub open spec fn lead_lines(post: PostView, args: ArgsView, date: Seq<char>) -> Seq<Seq<char>> {
    seq!["layout: "@ + args.layout, date_line(date)] + (match args.author {
        Some(author) => seq!["author: "@ + author],
        None => Seq::empty(),
    }) + (if post.hashtags.len() > 0 {
        seq!["tags: ["@ + tags(post.hashtags) + "]"@]
    } else {
        Seq::empty()
    })
}

/// The lines of the front matter of `post`, given its formatted date.
pub open spec fn header_lines(post: PostView, args: ArgsView, date: Seq<char>) -> Seq<Seq<char>> {
    lead_lines(post, args, date) + link_lines(post, args.metadata_key)
}

/// The front matter of `post`, given its formatted date: its lines with a
/// line feed between each two.
pub open spec fn header(post: PostView, args: ArgsView, date: Seq<char>) -> Seq<char> {
    joined(header_lines(post, args, date), seq!['\n'])
}

/// The front matter of `post`, or the reason why there is none: the date
/// pattern of `args` cannot be applied to the time of the post.
pub open spec fn front_matter_text(post: PostView, args: ArgsView) -> Result<Seq<char>, CoreError> {
    match formatted_timestamp(
        post.created_at.seconds,
        post.created_at.nanos,
        post.created_at.offset_seconds,
        args.date_format,
    ) {
        Some(date) => Ok(header(post, args, date)),
        None => Err(CoreError::UnformattableTimestamp),
    }
}

/// The permanent link to the post with identifier `id_str`.
pub fn twitter_url_status(id_str: &str) -> (url: String)
    ensures
        url@ == status_url(id_str@),
{
    let mut url = String::from_str("https://twitter.com/i/web/status/");
    url.append(id_str);
    url
}

/// The permanent link to the account with handle `screen_name`.
pub fn twitter_url_account(screen_name: &str) -> (url: String)
    ensures
        url@ == account_url(screen_name@),
{
    let mut url = String::from_str("https://twitter.com/");
    url.append(screen_name);
    url
}

/// The `date` line for a date that is already formatted.
fn front_matter_date(date: &str) -> (line: String)
    ensures
        line@ == date_line(date@),
{
    let mut line = String::from_str("date: \"");
    line.append(date);
    line.append("\"");
    line
}

/// The hashtags of `post`, joined by commas.
fn front_matter_tags(post: &Post) -> (out: String)
    ensures
        out@ == tags(post@.hashtags),
{
    let hashtags = &post.entities.hashtags;
    let ghost all = values(spans(hashtags@));
    let mut out = String::new();
    let mut k: usize = 0;
    while k < hashtags.len()
        invariant
            k <= hashtags.len(),
            all == values(spans(hashtags@)),
            out@ == joined(all.take(k as int), seq![',']),
        decreases hashtags.len() - k,
    {
        proof {
            assert(all.take(k + 1).drop_last() == all.take(k as int));
            assert(all.take(k + 1).last() == hashtags@[k as int].display_value@);
        }
        if k > 0 {
            out.push(',');
        }
        out.append(hashtags[k].display_value.as_str());
        k += 1;
    }
    assert(all.take(hashtags.len() as int) == all);
    out
}

/// The handles of the mentions of `post` that its `mentions` list names.
fn mentioned_handles(post: &Post) -> (handles: Vec<&str>)
    ensures
        handles@.map_values(|handle: &str| handle@) == listed_handles(post@),
{
    let mentions = &post.entities.mentions;
    let ghost all = values(spans(mentions@));
    let ghost keep = |handle: Seq<char>|
        match post@.in_reply_to {
            Some(target) => handle != target.account,
            None => true,
        };
    let mut handles: Vec<&str> = Vec::new();
    let mut k: usize = 0;
    while k < mentions.len()
        invariant
            k <= mentions.len(),
            all == values(spans(mentions@)),
            keep == (|handle: Seq<char>|
                match post@.in_reply_to {
                    Some(target) => handle != target.account,
                    None => true,
                }),
            handles@.map_values(|handle: &str| handle@) == all.take(k as int).filter(keep),
        decreases mentions.len() - k,
    {
        let handle = mentions[k].display_value.as_str();
        let listed = match &post.in_reply_to {
            Some(target) => mentions[k].display_value != target.account,
            None => true,
        };
        proof {
            assert(all.take(k + 1) == all.take(k as int).push(handle@));
            all.take(k as int).lemma_filter_push(handle@, keep);
            assert(listed == keep(handle@));
        }
        if listed {
            handles.push(handle);
            assert(handles@.map_values(|handle: &str| handle@) == all.take(k as int).filter(
                keep,
            ).push(handle@));
        }
        k += 1;
    }
    proof {
        assert(all.take(mentions.len() as int) == all);
        match post@.in_reply_to {
            Some(target) => {
                assert(keep == (|handle: Seq<char>| handle != target.account));
            },
            None => {
                lemma_filter_all(all, keep);
            },
        }
    }
    handles
}

/// A filter that keeps everything changes nothing.
proof fn lemma_filter_all(lines: Seq<Seq<char>>, keep: spec_fn(Seq<char>) -> bool)
    requires
        forall|line: Seq<char>| #[trigger] keep(line),
    ensures
        lines.filter(keep) == lines,
    decreases lines.len(),
{
    reveal(Seq::filter);
    if lines.len() > 0 {
        lemma_filter_all(lines.drop_last(), keep);
        assert(lines.drop_last().push(lines.last()) == lines);
    }
}

/// The `mentions` list for `handles`, as one text.
fn front_matter_mentions(handles: &Vec<&str>) -> (out: String)
    ensures
        out@ == joined(
            mention_lines(handles@.map_values(|handle: &str| handle@)),
            seq!['\n'],
        ),
{
    let ghost names = handles@.map_values(|handle: &str| handle@);
    let mut lines: Vec<String> = Vec::new();
    lines.push(String::from_str("  mentions:"));
    let mut k: usize = 0;
    while k < handles.len()
        invariant
            k <= handles.len(),
            names == handles@.map_values(|handle: &str| handle@),
            line_views(lines@) == mention_lines(names.take(k as int)),
        decreases handles.len() - k,
    {
        let mut line = String::from_str("    - ");
        let url = twitter_url_account(handles[k]);
        line.append(url.as_str());
        let ghost prior = lines@;
        lines.push(line);
        proof {
            let shown = names.take(k as int).map_values(
                |handle: Seq<char>| "    - "@ + account_url(handle),
            );
            let grown = names.take(k + 1).map_values(
                |handle: Seq<char>| "    - "@ + account_url(handle),
            );
            assert(names.take(k + 1) =~= names.take(k as int).push(names[k as int]));
            assert(grown =~= shown.push(line@));
            assert(line_views(lines@) =~= line_views(prior).push(line@));
            assert(mention_lines(names.take(k + 1)) =~= mention_lines(names.take(k as int)).push(
                line@,
            ));
        }
        k += 1;
    }
    assert(names.take(handles.len() as int) == names);
    join_lines(&lines)
}

/// The block of links of `post` under the key that `args` names, as one
/// text.
fn front_matter_links(post: &Post, args: &Args) -> (out: String)
    ensures
        out@ == joined(link_lines(post@, args@.metadata_key), seq!['\n']),
{
    let mut lines: Vec<String> = Vec::new();
    let mut key = args.post_twitter_key.clone();
    key.append(":");
    lines.push(key);
    let mut own = String::from_str("  post: ");
    own.append(twitter_url_status(post.id.as_str()).as_str());
    lines.push(own);
    assert(line_views(lines@) == seq![
        args@.metadata_key + ":"@,
        "  post: "@ + status_url(post@.id),
    ]);
    match &post.in_reply_to {
        Some(target) => {
            lines.push(String::from_str("  reply_to:"));
            let mut account = String::from_str("    account: ");
            account.append(twitter_url_account(target.account.as_str()).as_str());
            lines.push(account);
            let mut status = String::from_str("    post: ");
            status.append(twitter_url_status(target.post_id.as_str()).as_str());
            lines.push(status);
        },
        None => {},
    }
    let ghost upper = seq![args@.metadata_key + ":"@, "  post: "@ + status_url(post@.id)]
        + reply_lines(post@);
    assert(line_views(lines@) == upper);
    let handles = mentioned_handles(post);
    let ghost listed = if listed_handles(post@).len() > 0 {
        mention_lines(listed_handles(post@))
    } else {
        Seq::empty()
    };
    if handles.len() > 0 {
        lines.push(front_matter_mentions(&handles));
    }
    assert(joined(line_views(lines@), seq!['\n']) == joined(upper + listed, seq!['\n'])) by {
        if handles.len() > 0 {
            lemma_joined_nested(upper, listed, seq!['\n']);
            assert(line_views(lines@) == upper.push(joined(listed, seq!['\n'])));
        } else {
            assert(upper + listed == upper);
        }
    }
    let urls = &post.entities.urls;
    if urls.len() > 0 {
        let ghost filled = lines@;
        let ghost targets = values(post@.urls);
        let mut listing: Vec<String> = Vec::new();
        listing.push(String::from_str("  urls:"));
        let mut k: usize = 0;
        while k < urls.len()
            invariant
                k <= urls.len(),
                targets == values(spans(urls@)),
                line_views(listing@) == seq!["  urls:"@] + targets.take(k as int).map_values(
                    |url: Seq<char>| "    - "@ + url,
                ),
            decreases urls.len() - k,
        {
            let mut line = String::from_str("    - ");
            line.append(urls[k].display_value.as_str());
            let ghost prior = listing@;
            listing.push(line);
            proof {
                let shown = targets.take(k as int).map_values(|url: Seq<char>| "    - "@ + url);
                let grown = targets.take(k + 1).map_values(|url: Seq<char>| "    - "@ + url);
                assert(targets.take(k + 1) =~= targets.take(k as int).push(targets[k as int]));
                assert(grown =~= shown.push(line@));
                assert(line_views(listing@) =~= line_views(prior).push(line@));
                assert(seq!["  urls:"@] + grown =~= (seq!["  urls:"@] + shown).push(line@));
            }
            k += 1;
        }
        assert(targets.take(urls.len() as int) == targets);
        lines.push(join_lines(&listing));
        proof {
            lemma_joined_nested(line_views(filled), url_lines(post@), seq!['\n']);
            assert(line_views(lines@) == line_views(filled).push(
                joined(url_lines(post@), seq!['\n']),
            ));
            crate::text::lemma_joined_flat(
                line_views(filled),
                upper + listed,
                url_lines(post@),
                seq!['\n'],
            );
        }
    } else {
        assert(upper + listed + url_lines(post@) == upper + listed);
    }
    join_lines(&lines)
}

/// The front matter of `post` for a date that is already formatted: the
/// layout, the quoted date, the author where `args` names one, the tags
/// where the post has hashtags, and the block of links.
pub fn front_matter_with_date(post: &Post, args: &Args, date: &str) -> (out: String)
    ensures
        out@ == header(post@, args@, date@),
{
    let mut lines: Vec<String> = Vec::new();
    let mut layout = String::from_str("layout: ");
    layout.append(args.post_layout.as_str());
    lines.push(layout);
    lines.push(front_matter_date(date));
    match &args.post_author {
        Some(author) => {
            let mut line = String::from_str("author: ");
            line.append(author.as_str());
            lines.push(line);
        },
        None => {},
    }
    if post.entities.hashtags.len() > 0 {
        let mut line = String::from_str("tags: [");
        line.append(front_matter_tags(post).as_str());
        line.append("]");
        lines.push(line);
    }
    assert(line_views(lines@) == lead_lines(post@, args@, date@));
    lines.push(front_matter_links(post, args));
    proof {
        let links = link_lines(post@, args@.metadata_key);
        lemma_joined_nested(lead_lines(post@, args@, date@), links, seq!['\n']);
        assert(line_views(lines@) == lead_lines(post@, args@, date@).push(
            joined(links, seq!['\n']),
        ));
    }
    join_lines(&lines)
}

/// The front matter of `post` under the options of `args`.
///
/// Fails only where the date pattern cannot be applied to the time of the
/// post.
pub fn front_matter(post: &Post, args: &Args) -> (out: Result<String, CoreError>)
    ensures
        text_of(out) == front_matter_text(post@, args@),
{
    match format_timestamp(&post.created_at, args.post_date_format.as_str()) {
        Some(date) => Ok(front_matter_with_date(post, args, date.as_str())),
        None => Err(CoreError::UnformattableTimestamp),
    }
}

} // verus!
