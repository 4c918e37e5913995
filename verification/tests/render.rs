use tweet_archive_to_markdown::model::{CoreError, Entities, Entity, Post, Timestamp};
use tweet_archive_to_markdown::overlay::{content, render};

fn entity(start: usize, end: usize, value: &str) -> Entity {
    Entity { start, end, display_value: value.to_string() }
}

fn post_with(text: &str, mentions: Vec<Entity>, urls: Vec<Entity>, hashtags: Vec<Entity>) -> Post {
    Post {
        id: "1".to_string(),
        full_text: text.to_string(),
        created_at: Timestamp { seconds: 0, nanos: 0, offset_seconds: 0 },
        in_reply_to: None,
        entities: Entities { mentions, urls, hashtags },
    }
}

#[test]
fn text_without_entities_is_unchanged() {
    assert_eq!(render("plain words", &vec![], &vec![]), Ok("plain words".to_string()));
}

#[test]
fn empty_text_without_entities_is_empty() {
    assert_eq!(render("", &vec![], &vec![]), Ok(String::new()));
}

#[test]
fn multi_byte_text_without_entities_is_unchanged() {
    let text = "caf\u{e9} \u{1f980} na\u{ef}ve \u{65e5}\u{672c}";
    assert_eq!(render(text, &vec![], &vec![]), Ok(text.to_string()));
}

#[test]
fn mention_and_url_become_links() {
    let text = "hi @bob see https://x.test/y";
    assert_eq!(text.chars().count(), 28);
    let mentions = vec![entity(3, 7, "bob")];
    let urls = vec![entity(12, 28, "https://example.test/page")];
    assert_eq!(
        render(text, &mentions, &urls),
        Ok("hi [@bob](https://twitter.com/bob) see [https://x.test/y](https://example.test/page)"
            .to_string())
    );
}

#[test]
fn range_one_past_the_text_is_out_of_bounds() {
    let text = "hi @bob see https://x.test/y";
    let mentions = vec![entity(3, 7, "bob")];
    let urls = vec![entity(12, 29, "https://example.test/page")];
    assert_eq!(render(text, &mentions, &urls), Err(CoreError::EntityOutOfBounds));
}

#[test]
fn url_alone_is_rendered() {
    let urls = vec![entity(4, 8, "https://example.test/")];
    assert_eq!(
        render("see link now", &vec![], &urls),
        Ok("see [link](https://example.test/) now".to_string())
    );
}

#[test]
fn range_over_the_whole_text_closes_behind_it() {
    let mentions = vec![entity(0, 4, "ann")];
    assert_eq!(render("@ann", &mentions, &vec![]), Ok("[@ann](https://twitter.com/ann)".to_string()));
}

#[test]
fn ranges_count_characters_not_bytes() {
    let text = "\u{1f980}\u{e9} @zo\u{eb} ok";
    let mentions = vec![entity(3, 7, "zoe")];
    assert_eq!(
        render(text, &mentions, &vec![]),
        Ok("\u{1f980}\u{e9} [@zo\u{eb}](https://twitter.com/zoe) ok".to_string())
    );
}

#[test]
fn adjacent_ranges_close_before_they_open() {
    let mentions = vec![entity(0, 2, "a"), entity(2, 4, "b")];
    assert_eq!(
        render("@a@b", &mentions, &vec![]),
        Ok("[@a](https://twitter.com/a)[@b](https://twitter.com/b)".to_string())
    );
}

#[test]
fn mention_markers_come_before_url_markers() {
    let mentions = vec![entity(0, 2, "a")];
    let urls = vec![entity(2, 4, "u")];
    assert_eq!(render("@axy", &mentions, &urls), Ok("[@a](https://twitter.com/a)[xy](u)".to_string()));
    let mentions = vec![entity(2, 4, "a")];
    let urls = vec![entity(0, 2, "u")];
    assert_eq!(render("xy@a", &mentions, &urls), Ok("[xy[](u)@a](https://twitter.com/a)".to_string()));
    let mentions = vec![entity(0, 2, "a")];
    let urls = vec![entity(0, 2, "u")];
    assert_eq!(render("@a", &mentions, &urls), Ok("[[@a](https://twitter.com/a)](u)".to_string()));
}

#[test]
fn unsorted_input_is_sorted_by_start() {
    let sorted = vec![entity(0, 2, "a"), entity(3, 5, "b"), entity(6, 8, "c")];
    let shuffled = vec![entity(6, 8, "c"), entity(0, 2, "a"), entity(3, 5, "b")];
    let expected =
        "[@a](https://twitter.com/a) [@b](https://twitter.com/b) [@c](https://twitter.com/c)";
    assert_eq!(render("@a @b @c", &sorted, &vec![]), Ok(expected.to_string()));
    assert_eq!(render("@a @b @c", &shuffled, &vec![]), Ok(expected.to_string()));
}

#[test]
fn equal_starts_keep_their_order() {
    let urls = vec![entity(0, 2, "first"), entity(0, 2, "second")];
    assert_eq!(render("ab", &vec![], &urls), Ok("[[ab](first)](second)".to_string()));
    let urls = vec![entity(0, 2, "second"), entity(0, 2, "first")];
    assert_eq!(render("ab", &vec![], &urls), Ok("[[ab](second)](first)".to_string()));
}

#[test]
fn nested_ranges_each_get_their_markers() {
    let urls = vec![entity(0, 6, "outer"), entity(2, 4, "inner")];
    assert_eq!(render("abcdef", &vec![], &urls), Ok("[ab[cd](inner)ef](outer)".to_string()));
}

#[test]
fn empty_range_is_malformed() {
    let mentions = vec![entity(5, 5, "bob")];
    assert_eq!(render("hello world", &mentions, &vec![]), Err(CoreError::MalformedEntityRange));
    assert_eq!(render("hello world", &vec![], &mentions), Err(CoreError::MalformedEntityRange));
}

#[test]
fn inverted_range_is_malformed() {
    let urls = vec![entity(4, 2, "u")];
    assert_eq!(render("hello", &vec![], &urls), Err(CoreError::MalformedEntityRange));
}

#[test]
fn end_behind_the_text_is_out_of_bounds() {
    let mentions = vec![entity(0, 6, "bob")];
    assert_eq!(render("hello", &mentions, &vec![]), Err(CoreError::EntityOutOfBounds));
    assert_eq!(render("hello", &vec![], &mentions), Err(CoreError::EntityOutOfBounds));
    assert_eq!(render("", &mentions, &vec![]), Err(CoreError::EntityOutOfBounds));
}

#[test]
fn malformed_range_is_reported_before_one_out_of_bounds() {
    let mentions = vec![entity(0, 9, "far")];
    let urls = vec![entity(3, 3, "u")];
    assert_eq!(render("hello", &mentions, &urls), Err(CoreError::MalformedEntityRange));
}

#[test]
fn brackets_balance_on_valid_input() {
    let mentions = vec![entity(3, 7, "bob"), entity(8, 12, "amy")];
    let urls = vec![entity(18, 22, "https://example.test/")];
    let out = render("hi @bob @amy look link", &mentions, &urls).unwrap();
    assert_eq!(out.matches('[').count(), 3);
    assert_eq!(out.matches(']').count(), 3);
    assert_eq!(out.matches("](").count(), 3);
}

#[test]
fn removing_the_insertions_gives_the_text_back() {
    let text = "hi @bob see link";
    let mentions = vec![entity(3, 7, "bob")];
    let urls = vec![entity(12, 16, "https://example.test/")];
    let out = render(text, &mentions, &urls).unwrap();
    let stripped = out
        .replace("](https://twitter.com/bob)", "")
        .replace("](https://example.test/)", "")
        .replace('[', "");
    assert_eq!(stripped, text);
}

#[test]
fn content_renders_mentions_and_urls_of_a_post() {
    let post = post_with(
        "hi @bob see link #tag",
        vec![entity(3, 7, "bob")],
        vec![entity(12, 16, "https://example.test/")],
        vec![entity(17, 21, "tag")],
    );
    assert_eq!(
        content(&post),
        Ok("hi [@bob](https://twitter.com/bob) see [link](https://example.test/) #tag".to_string())
    );
}

#[test]
fn content_with_urls_only_still_links_them() {
    let post = post_with("see link", vec![], vec![entity(4, 8, "https://example.test/")], vec![]);
    assert_eq!(content(&post), Ok("see [link](https://example.test/)".to_string()));
}

#[test]
fn content_reports_a_fault_in_the_entities() {
    let post = post_with("short", vec![entity(2, 2, "x")], vec![], vec![]);
    assert_eq!(content(&post), Err(CoreError::MalformedEntityRange));
    let post = post_with("short", vec![], vec![entity(2, 20, "x")], vec![]);
    assert_eq!(content(&post), Err(CoreError::EntityOutOfBounds));
}

#[test]
fn any_order_of_the_same_entities_renders_alike() {
    let text = "@a x @b y @c";
    let a = entity(0, 2, "a");
    let b = entity(5, 7, "b");
    let c = entity(10, 12, "c");
    let x = entity(3, 4, "https://x.test/");
    let y = entity(8, 9, "https://y.test/");
    let first = render(text, &vec![a.clone(), b.clone(), c.clone()], &vec![x.clone(), y.clone()]);
    let orders = vec![
        vec![a.clone(), c.clone(), b.clone()],
        vec![b.clone(), a.clone(), c.clone()],
        vec![b.clone(), c.clone(), a.clone()],
        vec![c.clone(), a.clone(), b.clone()],
        vec![c.clone(), b.clone(), a.clone()],
    ];
    for mentions in orders.iter() {
        assert_eq!(render(text, mentions, &vec![y.clone(), x.clone()]), first);
    }
    assert_eq!(
        first,
        Ok("[@a](https://twitter.com/a) [x](https://x.test/) [@b](https://twitter.com/b) \
            [y](https://y.test/) [@c](https://twitter.com/c)"
            .to_string())
    );
}

#[test]
fn brackets_in_the_text_are_kept() {
    let mentions = vec![entity(4, 6, "a")];
    assert_eq!(
        render("[x] @a", &mentions, &vec![]),
        Ok("[x] [@a](https://twitter.com/a)".to_string())
    );
}
