use tweet_archive_to_markdown::document::{
    assemble, delivery, file_name, file_name_from_date, post, Delivery,
};
use tweet_archive_to_markdown::header::{
    front_matter, front_matter_with_date, twitter_url_account, twitter_url_status,
};
use tweet_archive_to_markdown::model::{
    Args, CoreError, Entities, Entity, Post, ReplyTarget, Timestamp,
};

fn entity(start: usize, end: usize, value: &str) -> Entity {
    Entity { start, end, display_value: value.to_string() }
}

fn options() -> Args {
    Args {
        post_layout: "post".to_string(),
        post_date_format: "%F %T %z".to_string(),
        post_author: None,
        post_twitter_key: "twitter".to_string(),
    }
}

/// 2021-01-05 20:17:27 UTC.
fn moment() -> Timestamp {
    Timestamp { seconds: 1_609_877_847, nanos: 0, offset_seconds: 0 }
}

fn bare_post() -> Post {
    Post {
        id: "1346551404433977352".to_string(),
        full_text: "words".to_string(),
        created_at: moment(),
        in_reply_to: None,
        entities: Entities { mentions: vec![], urls: vec![], hashtags: vec![] },
    }
}

fn reply_post() -> Post {
    Post {
        id: "1346551404433977352".to_string(),
        full_text: "@akash_webdev @L422Y edit history from #JavaScript, see link".to_string(),
        created_at: moment(),
        in_reply_to: Some(ReplyTarget {
            account: "akash_webdev".to_string(),
            post_id: "1346453666148990976".to_string(),
        }),
        entities: Entities {
            mentions: vec![entity(14, 20, "l422y")],
            urls: vec![entity(56, 60, "https://developer.mozilla.org/en-US/docs/Web/API/History_API")],
            hashtags: vec![entity(39, 50, "JavaScript")],
        },
    }
}

#[test]
fn permanent_links() {
    assert_eq!(twitter_url_status("42"), "https://twitter.com/i/web/status/42");
    assert_eq!(twitter_url_account("bob"), "https://twitter.com/bob");
}

#[test]
fn assemble_puts_the_header_between_rules() {
    assert_eq!(assemble("layout: post", "body"), "---\nlayout: post\n---\n\nbody");
    assert_eq!(assemble("", ""), "---\n\n---\n\n");
}

#[test]
fn file_name_from_a_formatted_date() {
    assert_eq!(file_name_from_date("2021-01-05", "77"), "2021-01-05-77.md");
}

#[test]
fn file_name_holds_day_and_identifier() {
    assert_eq!(file_name(&bare_post()), Ok("2021-01-05-1346551404433977352.md".to_string()));
}

#[test]
fn file_name_takes_the_day_in_the_zone_of_the_post() {
    let mut late = bare_post();
    late.created_at = Timestamp { seconds: 1_609_877_847, nanos: 0, offset_seconds: 4 * 3600 };
    assert_eq!(file_name(&late), Ok("2021-01-06-1346551404433977352.md".to_string()));
}

#[test]
fn file_name_fails_on_a_time_without_a_day() {
    let mut lost = bare_post();
    lost.created_at = Timestamp { seconds: i64::MAX, nanos: 0, offset_seconds: 0 };
    assert_eq!(file_name(&lost), Err(CoreError::UnformattableTimestamp));
    lost.created_at = Timestamp { seconds: 0, nanos: 0, offset_seconds: 86_400 };
    assert_eq!(file_name(&lost), Err(CoreError::UnformattableTimestamp));
}

#[test]
fn front_matter_of_a_bare_post() {
    assert_eq!(
        front_matter(&bare_post(), &options()),
        Ok("layout: post\n\
            date: \"2021-01-05 20:17:27 +0000\"\n\
            twitter:\n  post: https://twitter.com/i/web/status/1346551404433977352"
            .to_string())
    );
}

#[test]
fn front_matter_of_a_reply_with_everything() {
    let mut args = options();
    args.post_author = Some("S0AndS0".to_string());
    assert_eq!(
        front_matter(&reply_post(), &args),
        Ok("layout: post\n\
            date: \"2021-01-05 20:17:27 +0000\"\n\
            author: S0AndS0\n\
            tags: [JavaScript]\n\
            twitter:\n  post: https://twitter.com/i/web/status/1346551404433977352\n  \
            reply_to:\n    account: https://twitter.com/akash_webdev\n    \
            post: https://twitter.com/i/web/status/1346453666148990976\n  \
            mentions:\n    - https://twitter.com/l422y\n  \
            urls:\n    - https://developer.mozilla.org/en-US/docs/Web/API/History_API"
            .to_string())
    );
}

#[test]
fn tags_line_follows_the_date_when_no_author_is_set() {
    let mut tagged = bare_post();
    tagged.entities.hashtags = vec![entity(0, 1, "JavaScript"), entity(2, 3, "CSS")];
    let header = front_matter(&tagged, &options()).unwrap();
    let lines: Vec<&str> = header.lines().collect();
    assert_eq!(lines[0], "layout: post");
    assert_eq!(lines[1], "date: \"2021-01-05 20:17:27 +0000\"");
    assert_eq!(lines[2], "tags: [JavaScript,CSS]");
    assert_eq!(lines[3], "twitter:");
    assert_eq!(lines[4], "  post: https://twitter.com/i/web/status/1346551404433977352");
    assert_eq!(lines.len(), 5);
    assert!(!header.contains("author:"));
}

#[test]
fn reply_target_is_left_out_of_the_mentions() {
    let mut reply = bare_post();
    reply.in_reply_to =
        Some(ReplyTarget { account: "alice".to_string(), post_id: "9".to_string() });
    reply.entities.mentions = vec![entity(0, 6, "alice"), entity(7, 11, "bob")];
    let header = front_matter(&reply, &options()).unwrap();
    assert!(header.ends_with(
        "  reply_to:\n    account: https://twitter.com/alice\n    \
         post: https://twitter.com/i/web/status/9\n  \
         mentions:\n    - https://twitter.com/bob"
    ));
    assert_eq!(header.matches("https://twitter.com/alice").count(), 1);
}

#[test]
fn reply_that_mentions_only_its_target_has_no_mentions_list() {
    let mut reply = bare_post();
    reply.in_reply_to =
        Some(ReplyTarget { account: "alice".to_string(), post_id: "9".to_string() });
    reply.entities.mentions = vec![entity(0, 6, "alice")];
    let header = front_matter(&reply, &options()).unwrap();
    assert!(!header.contains("mentions:"));
}

#[test]
fn post_that_is_no_reply_lists_every_mention() {
    let mut open = bare_post();
    open.entities.mentions = vec![entity(0, 6, "alice"), entity(7, 11, "bob")];
    let header = front_matter(&open, &options()).unwrap();
    assert!(header.ends_with(
        "  mentions:\n    - https://twitter.com/alice\n    - https://twitter.com/bob"
    ));
    assert!(!header.contains("reply_to:"));
}

#[test]
fn urls_are_listed_in_their_order() {
    let mut linked = bare_post();
    linked.entities.urls = vec![entity(3, 4, "https://b.test/"), entity(0, 1, "https://a.test/")];
    let header = front_matter(&linked, &options()).unwrap();
    assert!(header.ends_with("  urls:\n    - https://b.test/\n    - https://a.test/"));
}

#[test]
fn front_matter_uses_layout_key_and_pattern() {
    let args = Args {
        post_layout: "note".to_string(),
        post_date_format: "%Y/%m/%d".to_string(),
        post_author: Some("me".to_string()),
        post_twitter_key: "x".to_string(),
    };
    assert_eq!(
        front_matter(&bare_post(), &args),
        Ok("layout: note\ndate: \"2021/01/05\"\nauthor: me\nx:\n  \
            post: https://twitter.com/i/web/status/1346551404433977352"
            .to_string())
    );
}

#[test]
fn front_matter_with_a_given_date() {
    assert_eq!(
        front_matter_with_date(&bare_post(), &options(), "someday"),
        "layout: post\ndate: \"someday\"\ntwitter:\n  \
         post: https://twitter.com/i/web/status/1346551404433977352"
    );
}

#[test]
fn front_matter_fails_on_a_pattern_that_cannot_be_applied() {
    let mut args = options();
    args.post_date_format = "%Q".to_string();
    assert_eq!(front_matter(&bare_post(), &args), Err(CoreError::UnformattableTimestamp));
    assert_eq!(post(&bare_post(), &args), Err(CoreError::UnformattableTimestamp));
}

#[test]
fn front_matter_fails_on_a_time_out_of_range() {
    let mut lost = bare_post();
    lost.created_at = Timestamp { seconds: i64::MIN, nanos: 0, offset_seconds: 0 };
    assert_eq!(front_matter(&lost, &options()), Err(CoreError::UnformattableTimestamp));
}

#[test]
fn post_joins_front_matter_and_body() {
    let mut linked = bare_post();
    linked.full_text = "hi @bob".to_string();
    linked.entities.mentions = vec![entity(3, 7, "bob")];
    assert_eq!(
        post(&linked, &options()),
        Ok("---\nlayout: post\ndate: \"2021-01-05 20:17:27 +0000\"\ntwitter:\n  \
            post: https://twitter.com/i/web/status/1346551404433977352\n  \
            mentions:\n    - https://twitter.com/bob\n---\n\n\
            hi [@bob](https://twitter.com/bob)"
            .to_string())
    );
}

#[test]
fn post_reports_the_date_before_the_entities() {
    let mut broken = bare_post();
    broken.entities.mentions = vec![entity(3, 3, "bob")];
    assert_eq!(post(&broken, &options()), Err(CoreError::MalformedEntityRange));
    let mut args = options();
    args.post_date_format = "%Q".to_string();
    assert_eq!(post(&broken, &args), Err(CoreError::UnformattableTimestamp));
}

#[test]
fn post_reports_a_range_out_of_bounds() {
    let mut broken = bare_post();
    broken.entities.urls = vec![entity(0, 99, "u")];
    assert_eq!(post(&broken, &options()), Err(CoreError::EntityOutOfBounds));
}

#[test]
fn existing_file_is_skipped() {
    assert_eq!(delivery(true, false), Delivery::Skip);
    assert_eq!(delivery(true, true), Delivery::Skip);
}

#[test]
fn new_file_is_printed_on_a_dry_run_and_written_otherwise() {
    assert_eq!(delivery(false, true), Delivery::Print);
    assert_eq!(delivery(false, false), Delivery::Write);
}

#[test]
fn reply_target_needs_both_parts() {
    assert_eq!(
        ReplyTarget::from_parts(Some("alice".to_string()), Some("9".to_string())),
        Some(ReplyTarget { account: "alice".to_string(), post_id: "9".to_string() })
    );
    assert_eq!(ReplyTarget::from_parts(Some("alice".to_string()), None), None);
    assert_eq!(ReplyTarget::from_parts(None, Some("9".to_string())), None);
    assert_eq!(ReplyTarget::from_parts(None, None), None);
}

#[test]
fn post_with_half_a_reply_lists_every_mention() {
    let mut open = bare_post();
    open.in_reply_to = ReplyTarget::from_parts(Some("alice".to_string()), None);
    open.entities.mentions = vec![entity(0, 6, "alice")];
    let header = front_matter(&open, &options()).unwrap();
    assert!(header.ends_with("  mentions:\n    - https://twitter.com/alice"));
    assert!(!header.contains("reply_to:"));
}
