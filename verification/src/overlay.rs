//! The body of a document: the text of a post with each mention and each
//! URL turned into an inline link.
//!
//! A link opens with `[` in front of the first character of its range and
//! closes with `](destination)` behind the last one. Ranges may arrive in any
//! order; each kind is put in order of its starts before the text is walked.

use vstd::prelude::*;
use vstd::string::*;
use crate::model::{spans, text_of, CoreError, Entity, Post, Span};
use crate::order::{arranged, lemma_stable_by_start, order_by_start, ordered_by_start, stable_by_start};

verus! {

/// What stands in front of a handle in the link to an account.
pub open spec fn account_base() -> Seq<char> {
    "https://twitter.com/"@
}

/// What `span` inserts in front of the character at index `at`: the opening
/// bracket where it starts, the closing bracket and the destination where it
/// ends, nothing elsewhere. The destination is `base` followed by the span's
/// value.
pub open spec fn marker(span: Span, base: Seq<char>, at: int) -> Seq<char> {
    if span.start == at {
        seq!['[']
    } else if span.end == at {
        closing(span, base)
    } else {
        Seq::empty()
    }
}

/// What closes the link of `span`: the bracket, then the destination in
/// parentheses.
pub open spec fn closing(span: Span, base: Seq<char>) -> Seq<char> {
    seq![']', '('] + base + span.value + seq![')']
}

/// What the spans of `spans` insert at index `at`, one after the other.
pub open spec fn markers_at(spans: Seq<Span>, base: Seq<char>, at: int) -> Seq<char>
    decreases spans.len(),
{
    if spans.len() == 0 {
        Seq::empty()
    } else {
        markers_at(spans.drop_last(), base, at) + marker(spans.last(), base, at)
    }
}

/// Everything inserted at index `at`: the markers of the mentions, then
/// those of the URLs.
pub open spec fn boundary(mentions: Seq<Span>, urls: Seq<Span>, at: int) -> Seq<char> {
    markers_at(mentions, account_base(), at) + markers_at(urls, Seq::empty(), at)
}

/// The rendering of the first `upto` characters of `text`, each with what
/// is inserted in front of it.
pub open spec fn overlay_upto(
    text: Seq<char>,
    mentions: Seq<Span>,
    urls: Seq<Span>,
    upto: int,
) -> Seq<char>
    decreases upto,
{
    if upto <= 0 {
        Seq::empty()
    } else {
        overlay_upto(text, mentions, urls, upto - 1) + boundary(mentions, urls, upto - 1)
            + seq![text[upto - 1]]
    }
}

/// `text` with the markers of `mentions` and `urls` laid over it. Spans that
/// end with the text close behind its last character.
pub open spec fn overlay(text: Seq<char>, mentions: Seq<Span>, urls: Seq<Span>) -> Seq<char> {
    overlay_upto(text, mentions, urls, text.len() as int) + boundary(
        mentions,
        urls,
        text.len() as int,
    )
}

/// The range is empty or runs backwards.
pub open spec fn malformed(span: Span) -> bool {
    span.start >= span.end
}

/// Some span of `spans` is malformed.
pub open spec fn any_malformed(spans: Seq<Span>) -> bool {
    exists|k: int| 0 <= k < spans.len() && malformed(#[trigger] spans[k])
}

/// The range ends behind a text of `len` characters.
pub open spec fn out_of_bounds(span: Span, len: int) -> bool {
    span.end > len
}

/// Some span of `spans` ends behind a text of `len` characters.
pub open spec fn any_out_of_bounds(spans: Seq<Span>, len: int) -> bool {
    exists|k: int| 0 <= k < spans.len() && out_of_bounds(#[trigger] spans[k], len)
}

/// What rendering `text` with `mentions` and `urls` gives.
///
/// A malformed range anywhere is reported first, then a range that leaves
/// the text. Otherwise each kind is ordered by start and laid over the text.
pub open spec fn rendered(text: Seq<char>, mentions: Seq<Span>, urls: Seq<Span>) -> Result<
    Seq<char>,
    CoreError,
> {
    if any_malformed(mentions) || any_malformed(urls) {
        Err(CoreError::MalformedEntityRange)
    } else if any_out_of_bounds(mentions, text.len() as int) || any_out_of_bounds(
        urls,
        text.len() as int,
    ) {
        Err(CoreError::EntityOutOfBounds)
    } else {
        Ok(overlay(text, stable_by_start(mentions), stable_by_start(urls)))
    }
}

/// The markers of a sequence are those of its front followed by those of
/// its back.
pub proof fn lemma_markers_split(front: Seq<Span>, back: Seq<Span>, base: Seq<char>, at: int)
    ensures
        markers_at(front + back, base, at) == markers_at(front, base, at) + markers_at(
            back,
            base,
            at,
        ),
    decreases back.len(),
{
    if back.len() == 0 {
        assert(front + back =~= front);
    } else {
        lemma_markers_split(front, back.drop_last(), base, at);
        assert((front + back).drop_last() =~= front + back.drop_last());
    }
}

/// Spans that neither start nor end at `at` insert nothing there.
pub proof fn lemma_markers_none(spans: Seq<Span>, base: Seq<char>, at: int)
    requires
        forall|k: int| 0 <= k < spans.len() ==> spans[k].start != at && spans[k].end != at,
    ensures
        markers_at(spans, base, at) == Seq::<char>::empty(),
    decreases spans.len(),
{
    if spans.len() > 0 {
        lemma_markers_none(spans.drop_last(), base, at);
    }
}

/// Without spans the text is rendered as it is.
pub proof fn lemma_overlay_plain(text: Seq<char>, upto: int)
    requires
        0 <= upto <= text.len(),
    ensures
        overlay_upto(text, Seq::empty(), Seq::empty(), upto) == text.take(upto),
        boundary(Seq::empty(), Seq::empty(), upto) == Seq::<char>::empty(),
    decreases upto,
{
    if upto > 0 {
        lemma_overlay_plain(text, upto - 1);
        assert(text.take(upto - 1) + Seq::<char>::empty() + seq![text[upto - 1]] =~= text.take(
            upto,
        ));
    } else {
        assert(text.take(0) =~= Seq::<char>::empty());
    }
}

/// The indices in `order` arrange `entities` by start, and no entity is
/// malformed.
pub open spec fn lined_up(entities: Seq<Entity>, order: Seq<usize>) -> bool {
    &&& order.len() == entities.len()
    &&& forall|k: int| 0 <= k < order.len() ==> order[k] < entities.len()
    &&& forall|k: int| 0 <= k < entities.len() ==> entities[k].start < entities[k].end
    &&& ordered_by_start(arranged(spans(entities), order))
}

/// Where the walk stands in an ordered list when it reaches index `at`:
/// everything before `lo` ended earlier, nothing from `hi` on has started.
pub open spec fn window(sorted: Seq<Span>, lo: int, hi: int, at: int) -> bool {
    &&& 0 <= lo <= hi <= sorted.len()
    &&& forall|k: int| 0 <= k < lo ==> sorted[k].end < at
    &&& forall|k: int| hi <= k < sorted.len() ==> sorted[k].start >= at
}

fn has_malformed(entities: &Vec<Entity>) -> (found: bool)
    ensures
        found == any_malformed(spans(entities@)),
{
    let mut k: usize = 0;
    while k < entities.len()
        invariant
            k <= entities.len(),
            forall|j: int| 0 <= j < k ==> !malformed(#[trigger] spans(entities@)[j]),
        decreases entities.len() - k,
    {
        if entities[k].start >= entities[k].end {
            assert(malformed(spans(entities@)[k as int]));
            return true;
        }
        k += 1;
    }
    false
}

fn has_out_of_bounds(entities: &Vec<Entity>, len: usize) -> (found: bool)
    ensures
        found == any_out_of_bounds(spans(entities@), len as int),
{
    let mut k: usize = 0;
    while k < entities.len()
        invariant
            k <= entities.len(),
            forall|j: int| 0 <= j < k ==> !out_of_bounds(#[trigger] spans(entities@)[j], len as int),
        decreases entities.len() - k,
    {
        if entities[k].end > len {
            assert(out_of_bounds(spans(entities@)[k as int], len as int));
            return true;
        }
        k += 1;
    }
    false
}

/// Appends to `out` what the entities insert at index `at`, and moves the
/// window on to the next index.
fn emit_markers(
    out: &mut String,
    entities: &Vec<Entity>,
    order: &Vec<usize>,
    base: &str,
    at: usize,
    lo: usize,
    hi: usize,
) -> (next: (usize, usize))
    requires
        lined_up(entities@, order@),
        window(arranged(spans(entities@), order@), lo as int, hi as int, at as int),
    ensures
        final(out)@ == old(out)@ + markers_at(
            arranged(spans(entities@), order@),
            base@,
            at as int,
        ),
        window(arranged(spans(entities@), order@), next.0 as int, next.1 as int, at + 1),
{
    let ghost sorted = arranged(spans(entities@), order@);
    let ghost before = out@;
    let mut hi = hi;
    while hi < order.len() && entities[order[hi]].start <= at
        invariant
            lined_up(entities@, order@),
            sorted == arranged(spans(entities@), order@),
            lo <= hi <= order.len(),
        decreases order.len() - hi,
    {
        hi += 1;
    }
    assert forall|k: int| hi <= k < sorted.len() implies sorted[k].start > at
        && sorted[k].end > at by {
        assert(sorted[hi as int].start <= sorted[k].start);
    }
    let mut k = lo;
    while k < hi
        invariant
            lined_up(entities@, order@),
            sorted == arranged(spans(entities@), order@),
            lo <= k <= hi <= order.len(),
            out@ == before + markers_at(sorted.subrange(lo as int, k as int), base@, at as int),
        decreases hi - k,
    {
        let entity = &entities[order[k]];
        proof {
            assert(sorted.subrange(lo as int, k + 1).drop_last() == sorted.subrange(
                lo as int,
                k as int,
            ));
            assert(sorted.subrange(lo as int, k + 1).last() == entity@);
        }
        if entity.start == at {
            out.push('[');
        } else if entity.end == at {
            out.push(']');
            out.push('(');
            out.append(base);
            out.append(entity.display_value.as_str());
            out.push(')');
        }
        assert(out@ == before + markers_at(sorted.subrange(lo as int, k + 1), base@, at as int));
        k += 1;
    }
    proof {
        let head = sorted.subrange(0, lo as int);
        let body = sorted.subrange(lo as int, hi as int);
        let tail = sorted.subrange(hi as int, sorted.len() as int);
        assert(sorted == head + body + tail);
        assert forall|j: int| 0 <= j < head.len() implies head[j].start != at && head[j].end
            != at by {
            assert(head[j] == sorted[j]);
        }
        lemma_markers_none(head, base@, at as int);
        lemma_markers_none(tail, base@, at as int);
        lemma_markers_split(head + body, tail, base@, at as int);
        lemma_markers_split(head, body, base@, at as int);
    }
    let mut lo = lo;
    while lo < hi && entities[order[lo]].end <= at
        invariant
            lined_up(entities@, order@),
            sorted == arranged(spans(entities@), order@),
            lo <= hi <= order.len(),
            forall|j: int| 0 <= j < lo ==> sorted[j].end < at + 1,
        decreases hi - lo,
    {
        lo += 1;
    }
    (lo, hi)
}

/// Renders `full_text` with each mention and each URL as an inline link.
///
/// The ranges count characters of `full_text`. A mention links to the
/// account of its handle, a URL to its expanded destination. Neither list
/// has to be in order: each is put in order of its starts, and ranges that
/// start together keep the order in which they came. Where both kinds
/// insert something at the same index, the mentions come first. A range
/// with `start >= end` is refused as malformed; after that, a range that
/// ends behind the text is refused as out of bounds.
pub fn render(full_text: &str, mentions: &Vec<Entity>, urls: &Vec<Entity>) -> (out: Result<
    String,
    CoreError,
>)
    ensures
        text_of(out) == rendered(full_text@, spans(mentions@), spans(urls@)),
{
    if has_malformed(mentions) || has_malformed(urls) {
        return Err(CoreError::MalformedEntityRange);
    }
    let len = full_text.unicode_len();
    if has_out_of_bounds(mentions, len) || has_out_of_bounds(urls, len) {
        return Err(CoreError::EntityOutOfBounds);
    }
    if mentions.len() == 0 && urls.len() == 0 {
        proof {
            lemma_overlay_plain(full_text@, full_text@.len() as int);
            assert(spans(mentions@) =~= Seq::empty());
            assert(spans(urls@) =~= Seq::empty());
            assert(full_text@.take(full_text@.len() as int) =~= full_text@);
        }
        return Ok(full_text.to_owned());
    }
    let mention_order = order_by_start(mentions);
    let url_order = order_by_start(urls);
    let ghost text = full_text@;
    let ghost sorted_mentions = stable_by_start(spans(mentions@));
    let ghost sorted_urls = stable_by_start(spans(urls@));
    proof {
        lemma_stable_by_start(spans(mentions@));
        lemma_stable_by_start(spans(urls@));
        reveal_strlit("");
        assert(""@ =~= Seq::<char>::empty());
        assert forall|k: int| 0 <= k < mentions@.len() implies mentions@[k].start
            < mentions@[k].end by {
            assert(!malformed(spans(mentions@)[k]));
        }
        assert forall|k: int| 0 <= k < urls@.len() implies urls@[k].start < urls@[k].end by {
            assert(!malformed(spans(urls@)[k]));
        }
    }
    let mut out = String::new();
    let mut mention_window: (usize, usize) = (0, 0);
    let mut url_window: (usize, usize) = (0, 0);
    let mut at: usize = 0;
    for c in it: full_text.chars()
        invariant
            it.seq() == text,
            text == full_text@,
            text.len() == len,
            at == it.index(),
            ""@ == Seq::<char>::empty(),
            sorted_mentions == arranged(spans(mentions@), mention_order@),
            sorted_urls == arranged(spans(urls@), url_order@),
            lined_up(mentions@, mention_order@),
            lined_up(urls@, url_order@),
            window(sorted_mentions, mention_window.0 as int, mention_window.1 as int, at as int),
            window(sorted_urls, url_window.0 as int, url_window.1 as int, at as int),
            out@ == overlay_upto(text, sorted_mentions, sorted_urls, at as int),
    {
        mention_window =
        emit_markers(
            &mut out,
            mentions,
            &mention_order,
            "https://twitter.com/",
            at,
            mention_window.0,
            mention_window.1,
        );
        url_window = emit_markers(&mut out, urls, &url_order, "", at, url_window.0, url_window.1);
        out.push(c);
        assert(at < len);
        at += 1;
    }
    assert(at == text.len());
    let _ = emit_markers(
        &mut out,
        mentions,
        &mention_order,
        "https://twitter.com/",
        at,
        mention_window.0,
        mention_window.1,
    );
    let _ = emit_markers(&mut out, urls, &url_order, "", at, url_window.0, url_window.1);
    assert(out@ == overlay(text, sorted_mentions, sorted_urls));
    Ok(out)
}

/// The body of the document for `post`: its text with its mentions and URLs
/// as inline links. Hashtags stay as they are written.
pub fn content(post: &Post) -> (out: Result<String, CoreError>)
    ensures
        text_of(out) == rendered(post@.full_text, post@.mentions, post@.urls),
{
    render(post.full_text.as_str(), &post.entities.mentions, &post.entities.urls)
}

} // verus!
