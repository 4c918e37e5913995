use tweet_archive_to_markdown::archive::{
    data_json, input_kind, manifest_json, strip_first, InputKind,
};

#[test]
fn extensions_name_the_kind_of_input() {
    assert_eq!(input_kind("zip"), InputKind::Archive);
    assert_eq!(input_kind("js"), InputKind::Script);
    assert_eq!(input_kind("json"), InputKind::Json);
}

#[test]
fn other_extensions_are_unknown() {
    assert_eq!(input_kind(""), InputKind::Unknown);
    assert_eq!(input_kind("ZIP"), InputKind::Unknown);
    assert_eq!(input_kind("jso"), InputKind::Unknown);
    assert_eq!(input_kind("jsonl"), InputKind::Unknown);
    assert_eq!(input_kind("md"), InputKind::Unknown);
}

#[test]
fn first_occurrence_is_removed() {
    assert_eq!(strip_first("window.x = [1]", "window.x = "), "[1]");
    assert_eq!(strip_first("abcabc", "bc"), "aabc");
    assert_eq!(strip_first("abcabc", "abcabc"), "");
    assert_eq!(strip_first("xxabc", "abc"), "xx");
}

#[test]
fn only_the_first_occurrence_is_removed() {
    assert_eq!(strip_first("aaaa", "aa"), "aa");
    assert_eq!(strip_first("a = a = b", "a = "), "a = b");
}

#[test]
fn text_without_the_pattern_is_unchanged() {
    assert_eq!(strip_first("abc", "abd"), "abc");
    assert_eq!(strip_first("ab", "abc"), "ab");
    assert_eq!(strip_first("", "a"), "");
}

#[test]
fn empty_pattern_removes_nothing() {
    assert_eq!(strip_first("abc", ""), "abc");
    assert_eq!(strip_first("", ""), "");
}

#[test]
fn stripping_counts_characters_not_bytes() {
    assert_eq!(strip_first("\u{e9}\u{1f980}=\u{65e5}", "\u{1f980}="), "\u{e9}\u{65e5}");
}

#[test]
fn stripping_agrees_with_replacing_once() {
    let texts = ["window.YTD.tweets.part0 = [ ]", "aXbXc", "XX", "abc", ""];
    let patterns = ["window.YTD.tweets.part0 = ", "X", "XX", "c", "abc", ""];
    for text in texts.iter() {
        for pattern in patterns.iter() {
            assert_eq!(strip_first(text, pattern), text.replacen(pattern, "", 1));
        }
    }
}

#[test]
fn manifest_script_gives_its_json() {
    assert_eq!(manifest_json("window.__THAR_CONFIG = {\"a\": 1}"), "{\"a\": 1}");
    assert_eq!(manifest_json("{\"a\": 1}"), "{\"a\": 1}");
}

#[test]
fn data_script_gives_its_json() {
    assert_eq!(data_json("window.YTD.tweets.part0 = [ ]", "YTD.tweets.part0"), "[ ]");
    assert_eq!(data_json("window.YTD.tweets.part0 = [ ]", "YTD.tweets.part1"),
        "window.YTD.tweets.part0 = [ ]");
}
