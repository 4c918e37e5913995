//! Rendering does not depend on the order in which the entities arrive.

use vstd::prelude::*;
use vstd::multiset::{lemma_insert_increases_count_by_1, lemma_insert_other_elements_unchanged};
use vstd::seq_lib::{to_multiset_build, to_multiset_contains, to_multiset_len};
use crate::model::Span;
use crate::order::{lemma_stable_by_start, ordered_by_start, stable_by_start};
use crate::overlay::{
    account_base, any_malformed, any_out_of_bounds, malformed, marker, markers_at, out_of_bounds,
    overlay_upto, rendered,
};

verus! {

/// Spans over the same range carry the same value.
pub open spec fn values_follow_ranges(spans: Seq<Span>) -> bool {
    forall|a: int, b: int|
        0 <= a < spans.len() && 0 <= b < spans.len() && spans[a].start == spans[b].start
            && spans[a].end == spans[b].end ==> spans[a] == spans[b]
}

/// The spans that end at index `at` and start elsewhere.
pub open spec fn ends_at(at: int) -> spec_fn(Span) -> bool {
    |span: Span| span.start != at && span.end == at
}

/// The spans that start at index `at`.
pub open spec fn starts_at(at: int) -> spec_fn(Span) -> bool {
    |span: Span| span.start == at
}

/// Sequences with the same spans in some order have the same members.
pub proof fn lemma_same_members(left: Seq<Span>, right: Seq<Span>)
    requires
        left.to_multiset() == right.to_multiset(),
    ensures
        left.len() == right.len(),
        forall|k: int| 0 <= k < left.len() ==> right.contains(#[trigger] left[k]),
        forall|k: int| 0 <= k < right.len() ==> left.contains(#[trigger] right[k]),
{
    to_multiset_len(left);
    to_multiset_len(right);
    assert forall|k: int| 0 <= k < left.len() implies right.contains(#[trigger] left[k]) by {
        assert(left.contains(left[k]));
        to_multiset_contains(left, left[k]);
        to_multiset_contains(right, left[k]);
    }
    assert forall|k: int| 0 <= k < right.len() implies left.contains(#[trigger] right[k]) by {
        assert(right.contains(right[k]));
        to_multiset_contains(left, right[k]);
        to_multiset_contains(right, right[k]);
    }
}

/// A filter keeps each span that passes as often as it occurs, and no
/// other.
proof fn lemma_filter_count(spans: Seq<Span>, keep: spec_fn(Span) -> bool, span: Span)
    ensures
        spans.filter(keep).to_multiset().count(span) == if keep(span) {
            spans.to_multiset().count(span)
        } else {
            0
        },
    decreases spans.len(),
{
    reveal(Seq::filter);
    if spans.len() == 0 {
        to_multiset_len(spans);
    } else {
        let front = spans.drop_last();
        let last = spans.last();
        lemma_filter_count(front, keep, span);
        assert(spans == front.push(last));
        to_multiset_build(front, last);
        to_multiset_build(front.filter(keep), last);
        lemma_insert_increases_count_by_1(front.to_multiset(), last);
        lemma_insert_other_elements_unchanged(front.to_multiset(), last, span);
        lemma_insert_increases_count_by_1(front.filter(keep).to_multiset(), last);
        lemma_insert_other_elements_unchanged(front.filter(keep).to_multiset(), last, span);
        if keep(last) {
            assert(spans.filter(keep) == front.filter(keep).push(last));
        } else {
            assert(spans.filter(keep) == front.filter(keep));
        }
    }
}

/// Filtering the same spans in another order gives the same spans.
proof fn lemma_filter_same_spans(left: Seq<Span>, right: Seq<Span>, keep: spec_fn(Span) -> bool)
    requires
        left.to_multiset() == right.to_multiset(),
    ensures
        left.filter(keep).to_multiset() == right.filter(keep).to_multiset(),
{
    assert forall|span: Span|
        left.filter(keep).to_multiset().count(span) == right.filter(keep).to_multiset().count(
            span,
        ) by {
        lemma_filter_count(left, keep, span);
        lemma_filter_count(right, keep, span);
    }
    assert(left.filter(keep).to_multiset() =~= right.filter(keep).to_multiset());
}

/// A filter keeps spans in order.
proof fn lemma_filter_ordered(spans: Seq<Span>, keep: spec_fn(Span) -> bool)
    requires
        ordered_by_start(spans),
    ensures
        ordered_by_start(spans.filter(keep)),
    decreases spans.len(),
{
    reveal(Seq::filter);
    if spans.len() > 0 {
        let front = spans.drop_last();
        let last = spans.last();
        lemma_filter_ordered(front, keep);
        if keep(last) {
            let kept = front.filter(keep);
            assert(spans.filter(keep) == kept.push(last));
            assert forall|k: int| 0 <= k < kept.len() implies kept[k].start <= last.start by {
                assert(kept.contains(kept[k]));
                front.lemma_filter_contains_rev(keep, kept[k]);
                let j = choose|j: int| 0 <= j < front.len() && front[j] == kept[k];
                assert(spans[j].start <= spans[spans.len() - 1].start);
            }
        }
    }
}

/// A filter that nothing passes keeps nothing.
proof fn lemma_filter_nothing(spans: Seq<Span>, keep: spec_fn(Span) -> bool)
    requires
        forall|k: int| 0 <= k < spans.len() ==> !keep(#[trigger] spans[k]),
    ensures
        spans.filter(keep) == Seq::<Span>::empty(),
    decreases spans.len(),
{
    reveal(Seq::filter);
    if spans.len() > 0 {
        assert(!keep(spans[spans.len() - 1]));
        lemma_filter_nothing(spans.drop_last(), keep);
    } else {
        assert(spans =~= Seq::<Span>::empty());
    }
}

/// Two ordered sequences of the same spans are equal where spans that start
/// together are equal.
proof fn lemma_ordered_unique(left: Seq<Span>, right: Seq<Span>)
    requires
        ordered_by_start(left),
        ordered_by_start(right),
        left.to_multiset() == right.to_multiset(),
        forall|a: int, b: int|
            0 <= a < left.len() && 0 <= b < left.len() && left[a].start == left[b].start
                ==> left[a] == left[b],
    ensures
        left == right,
    decreases left.len(),
{
    lemma_same_members(left, right);
    if left.len() == 0 {
        assert(left =~= right);
    } else {
        let top = left.len() - 1;
        let x = left[top];
        let y = right[top];
        assert(right.contains(left[top]));
        let j = choose|j: int| 0 <= j < right.len() && right[j] == x;
        assert(right[j].start <= right[top].start);
        assert(left.contains(right[top]));
        let i = choose|i: int| 0 <= i < left.len() && left[i] == y;
        assert(left[i].start <= left[top].start);
        assert(left[i] == left[top]);
        let left_front = left.drop_last();
        let right_front = right.drop_last();
        assert(left == left_front.push(x));
        assert(right == right_front.push(x));
        to_multiset_build(left_front, x);
        to_multiset_build(right_front, x);
        assert forall|span: Span|
            left_front.to_multiset().count(span) == right_front.to_multiset().count(span) by {
            lemma_insert_increases_count_by_1(left_front.to_multiset(), x);
            lemma_insert_increases_count_by_1(right_front.to_multiset(), x);
            lemma_insert_other_elements_unchanged(left_front.to_multiset(), x, span);
            lemma_insert_other_elements_unchanged(right_front.to_multiset(), x, span);
        }
        assert(left_front.to_multiset() =~= right_front.to_multiset());
        assert forall|a: int, b: int|
            0 <= a < left_front.len() && 0 <= b < left_front.len() && left_front[a].start
                == left_front[b].start implies left_front[a] == left_front[b] by {
            assert(left[a].start == left[b].start);
        }
        lemma_ordered_unique(left_front, right_front);
    }
}

/// The markers of one more span come behind the markers of the others.
proof fn lemma_markers_push(spans: Seq<Span>, span: Span, base: Seq<char>, at: int)
    ensures
        markers_at(spans.push(span), base, at) == markers_at(spans, base, at) + marker(
            span,
            base,
            at,
        ),
{
    assert(spans.push(span).drop_last() =~= spans);
}

/// Spans that all start at `at` insert one opening bracket each.
proof fn lemma_markers_opening(spans: Seq<Span>, base: Seq<char>, at: int)
    requires
        forall|k: int| 0 <= k < spans.len() ==> (#[trigger] spans[k]).start == at,
    ensures
        markers_at(spans, base, at) == Seq::new(spans.len(), |k: int| '['),
    decreases spans.len(),
{
    if spans.len() > 0 {
        assert(spans[spans.len() - 1].start == at);
        lemma_markers_opening(spans.drop_last(), base, at);
        assert(markers_at(spans, base, at) =~= Seq::new(spans.len(), |k: int| '['));
    } else {
        assert(markers_at(spans, base, at) =~= Seq::new(spans.len(), |k: int| '['));
    }
}

/// In an ordered sequence, the spans that end at an index insert their
/// markers before those that start there.
proof fn lemma_markers_by_kind(spans: Seq<Span>, base: Seq<char>, at: int)
    requires
        ordered_by_start(spans),
        forall|k: int| 0 <= k < spans.len() ==> !malformed(#[trigger] spans[k]),
    ensures
        markers_at(spans, base, at) == markers_at(spans.filter(ends_at(at)), base, at)
            + markers_at(spans.filter(starts_at(at)), base, at),
    decreases spans.len(),
{
    reveal(Seq::filter);
    if spans.len() > 0 {
        let front = spans.drop_last();
        let last = spans[spans.len() - 1];
        let closed = front.filter(ends_at(at));
        let opened = front.filter(starts_at(at));
        lemma_markers_by_kind(front, base, at);
        assert(!malformed(last));
        if last.start == at {
            assert(spans.filter(starts_at(at)) == opened.push(last));
            assert(spans.filter(ends_at(at)) == closed);
            lemma_markers_push(opened, last, base, at);
            assert(markers_at(spans, base, at) =~= markers_at(closed, base, at) + markers_at(
                opened.push(last),
                base,
                at,
            ));
        } else if last.end == at {
            assert(spans.filter(starts_at(at)) == opened);
            assert(spans.filter(ends_at(at)) == closed.push(last));
            assert forall|k: int| 0 <= k < front.len() implies !(starts_at(at))(
                #[trigger] front[k],
            ) by {
                assert(spans[k].start <= spans[spans.len() - 1].start);
            }
            lemma_filter_nothing(front, starts_at(at));
            lemma_markers_push(closed, last, base, at);
            assert(markers_at(spans, base, at) =~= markers_at(closed.push(last), base, at)
                + markers_at(opened, base, at));
        } else {
            assert(spans.filter(starts_at(at)) == opened);
            assert(spans.filter(ends_at(at)) == closed);
            assert(markers_at(spans, base, at) =~= markers_at(closed, base, at) + markers_at(
                opened,
                base,
                at,
            ));
        }
    } else {
        assert(markers_at(spans, base, at) =~= markers_at(spans.filter(ends_at(at)), base, at)
            + markers_at(spans.filter(starts_at(at)), base, at));
    }
}

/// Two ordered sequences of the same well-formed spans insert the same at
/// every index, where spans over the same range carry the same value.
proof fn lemma_same_markers(left: Seq<Span>, right: Seq<Span>, base: Seq<char>, at: int)
    requires
        ordered_by_start(left),
        ordered_by_start(right),
        left.to_multiset() == right.to_multiset(),
        values_follow_ranges(left),
        forall|k: int| 0 <= k < left.len() ==> !malformed(#[trigger] left[k]),
    ensures
        markers_at(left, base, at) == markers_at(right, base, at),
{
    lemma_same_members(left, right);
    assert forall|k: int| 0 <= k < right.len() implies !malformed(#[trigger] right[k]) by {
        assert(left.contains(right[k]));
        let j = choose|j: int| 0 <= j < left.len() && left[j] == right[k];
        assert(!malformed(left[j]));
    }
    lemma_markers_by_kind(left, base, at);
    lemma_markers_by_kind(right, base, at);
    let left_closed = left.filter(ends_at(at));
    let right_closed = right.filter(ends_at(at));
    let left_opened = left.filter(starts_at(at));
    let right_opened = right.filter(starts_at(at));
    lemma_filter_same_spans(left, right, ends_at(at));
    lemma_filter_same_spans(left, right, starts_at(at));
    lemma_filter_ordered(left, ends_at(at));
    lemma_filter_ordered(right, ends_at(at));
    assert forall|a: int, b: int|
        0 <= a < left_closed.len() && 0 <= b < left_closed.len() && left_closed[a].start
            == left_closed[b].start implies left_closed[a] == left_closed[b] by {
        left.lemma_filter_pred(ends_at(at), a);
        left.lemma_filter_pred(ends_at(at), b);
        assert(left_closed.contains(left_closed[a]));
        assert(left_closed.contains(left_closed[b]));
        left.lemma_filter_contains_rev(ends_at(at), left_closed[a]);
        left.lemma_filter_contains_rev(ends_at(at), left_closed[b]);
        let i = choose|i: int| 0 <= i < left.len() && left[i] == left_closed[a];
        let j = choose|j: int| 0 <= j < left.len() && left[j] == left_closed[b];
        assert(left[i] == left[j]);
    }
    lemma_ordered_unique(left_closed, right_closed);
    to_multiset_len(left_opened);
    to_multiset_len(right_opened);
    assert forall|k: int| 0 <= k < left_opened.len() implies (#[trigger] left_opened[k]).start
        == at by {
        left.lemma_filter_pred(starts_at(at), k);
    }
    assert forall|k: int| 0 <= k < right_opened.len() implies (#[trigger] right_opened[k]).start
        == at by {
        right.lemma_filter_pred(starts_at(at), k);
    }
    lemma_markers_opening(left_opened, base, at);
    lemma_markers_opening(right_opened, base, at);
}

/// Spans that insert the same at every index give the same rendering.
proof fn lemma_same_overlay(
    text: Seq<char>,
    mentions: Seq<Span>,
    urls: Seq<Span>,
    other_mentions: Seq<Span>,
    other_urls: Seq<Span>,
    upto: int,
)
    requires
        forall|at: int| #[trigger]
            markers_at(mentions, account_base(), at) == markers_at(
                other_mentions,
                account_base(),
                at,
            ),
        forall|at: int| #[trigger]
            markers_at(urls, Seq::empty(), at) == markers_at(other_urls, Seq::empty(), at),
    ensures
        overlay_upto(text, mentions, urls, upto) == overlay_upto(
            text,
            other_mentions,
            other_urls,
            upto,
        ),
    decreases upto,
{
    if upto > 0 {
        lemma_same_overlay(text, mentions, urls, other_mentions, other_urls, upto - 1);
    }
}

/// Order independence: the same mentions and the same URLs, handed over in
/// another order, give the same rendering or the same fault. This rests on
/// spans over the same range carrying the same value: of two that differ
/// only in their value, the one that arrives first closes first.
pub proof fn lemma_order_independent(
    text: Seq<char>,
    mentions: Seq<Span>,
    urls: Seq<Span>,
    other_mentions: Seq<Span>,
    other_urls: Seq<Span>,
)
    requires
        mentions.to_multiset() == other_mentions.to_multiset(),
        urls.to_multiset() == other_urls.to_multiset(),
        values_follow_ranges(mentions),
        values_follow_ranges(urls),
    ensures
        rendered(text, mentions, urls) == rendered(text, other_mentions, other_urls),
{
    let len = text.len() as int;
    lemma_same_faults(mentions, other_mentions, len);
    lemma_same_faults(urls, other_urls, len);
    if rendered(text, mentions, urls) is Ok {
        lemma_same_ordered_markers(mentions, other_mentions, account_base());
        lemma_same_ordered_markers(urls, other_urls, Seq::empty());
        lemma_same_overlay(
            text,
            stable_by_start(mentions),
            stable_by_start(urls),
            stable_by_start(other_mentions),
            stable_by_start(other_urls),
            len,
        );
    }
}

/// The same spans in another order hold the same faults.
proof fn lemma_same_faults(left: Seq<Span>, right: Seq<Span>, len: int)
    requires
        left.to_multiset() == right.to_multiset(),
    ensures
        any_malformed(left) == any_malformed(right),
        any_out_of_bounds(left, len) == any_out_of_bounds(right, len),
{
    lemma_same_members(left, right);
    if any_malformed(left) {
        let k = choose|k: int| 0 <= k < left.len() && malformed(#[trigger] left[k]);
        assert(right.contains(left[k]));
        let j = choose|j: int| 0 <= j < right.len() && right[j] == left[k];
        assert(malformed(right[j]));
    }
    if any_malformed(right) {
        let k = choose|k: int| 0 <= k < right.len() && malformed(#[trigger] right[k]);
        assert(left.contains(right[k]));
        let j = choose|j: int| 0 <= j < left.len() && left[j] == right[k];
        assert(malformed(left[j]));
    }
    if any_out_of_bounds(left, len) {
        let k = choose|k: int| 0 <= k < left.len() && out_of_bounds(#[trigger] left[k], len);
        assert(right.contains(left[k]));
        let j = choose|j: int| 0 <= j < right.len() && right[j] == left[k];
        assert(out_of_bounds(right[j], len));
    }
    if any_out_of_bounds(right, len) {
        let k = choose|k: int| 0 <= k < right.len() && out_of_bounds(#[trigger] right[k], len);
        assert(left.contains(right[k]));
        let j = choose|j: int| 0 <= j < left.len() && left[j] == right[k];
        assert(out_of_bounds(left[j], len));
    }
}

/// The same well-formed spans in another order insert, once ordered, the
/// same at every index.
proof fn lemma_same_ordered_markers(left: Seq<Span>, right: Seq<Span>, base: Seq<char>)
    requires
        left.to_multiset() == right.to_multiset(),
        values_follow_ranges(left),
        !any_malformed(left),
    ensures
        forall|at: int| #[trigger]
            markers_at(stable_by_start(left), base, at) == markers_at(
                stable_by_start(right),
                base,
                at,
            ),
{
    let ordered_left = stable_by_start(left);
    let ordered_right = stable_by_start(right);
    lemma_stable_by_start(left);
    lemma_stable_by_start(right);
    lemma_same_members(ordered_left, left);
    assert forall|k: int| 0 <= k < ordered_left.len() implies !malformed(
        #[trigger] ordered_left[k],
    ) by {
        assert(left.contains(ordered_left[k]));
        let j = choose|j: int| 0 <= j < left.len() && left[j] == ordered_left[k];
        assert(!malformed(left[j]));
    }
    assert forall|a: int, b: int|
        0 <= a < ordered_left.len() && 0 <= b < ordered_left.len() && ordered_left[a].start
            == ordered_left[b].start && ordered_left[a].end
            == ordered_left[b].end implies ordered_left[a] == ordered_left[b] by {
        assert(left.contains(ordered_left[a]));
        assert(left.contains(ordered_left[b]));
        let i = choose|i: int| 0 <= i < left.len() && left[i] == ordered_left[a];
        let j = choose|j: int| 0 <= j < left.len() && left[j] == ordered_left[b];
        assert(left[i] == left[j]);
    }
    assert forall|at: int| #[trigger]
        markers_at(ordered_left, base, at) == markers_at(ordered_right, base, at) by {
        lemma_same_markers(ordered_left, ordered_right, base, at);
    }
}

} // verus!
