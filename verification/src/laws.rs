//! What holds of rendering on every input.

use vstd::prelude::*;
use crate::model::{CoreError, Span};
use crate::order::{lemma_stable_by_start, stable_by_start};
use crate::overlay::{
    account_base, boundary, closing, lemma_overlay_plain, malformed, marker, markers_at,
    out_of_bounds, overlay, overlay_upto, rendered,
};

verus! {

/// Ordering neither adds nor loses a span.
pub proof fn lemma_stable_members(spans: Seq<Span>)
    ensures
        forall|span: Span| #[trigger] stable_by_start(spans).contains(span) <==> spans.contains(span),
{
    lemma_stable_by_start(spans);
    assert forall|span: Span| #[trigger]
        stable_by_start(spans).contains(span) <==> spans.contains(span) by {
        vstd::seq_lib::to_multiset_contains(stable_by_start(spans), span);
        vstd::seq_lib::to_multiset_contains(spans, span);
    }
}

/// What holds of every span holds of every span after ordering.
pub proof fn lemma_stable_keeps(spans: Seq<Span>, holds: spec_fn(Span) -> bool)
    requires
        forall|k: int| 0 <= k < spans.len() ==> holds(#[trigger] spans[k]),
    ensures
        forall|k: int|
            0 <= k < stable_by_start(spans).len() ==> holds(#[trigger] stable_by_start(spans)[k]),
{
    lemma_stable_members(spans);
    let sorted = stable_by_start(spans);
    assert forall|k: int| 0 <= k < sorted.len() implies holds(#[trigger] sorted[k]) by {
        assert(sorted.contains(sorted[k]));
        assert(spans.contains(sorted[k]));
        let j = choose|j: int| 0 <= j < spans.len() && spans[j] == sorted[k];
        assert(holds(spans[j]));
    }
}

/// Identity without entities: a text that is rendered with no mention and
/// no URL comes back as it is, whatever it holds.
pub proof fn lemma_render_without_entities(text: Seq<char>)
    ensures
        rendered(text, Seq::empty(), Seq::empty()) == Ok::<Seq<char>, CoreError>(text),
{
    lemma_overlay_plain(text, text.len() as int);
    assert(text.take(text.len() as int) =~= text);
    assert(overlay(text, Seq::empty(), Seq::empty()) =~= text);
}

/// The rendering from the character at index `from` on, with what is
/// inserted in front of it.
pub open spec fn overlay_from(
    text: Seq<char>,
    mentions: Seq<Span>,
    urls: Seq<Span>,
    from: int,
) -> Seq<char>
    decreases text.len() - from,
{
    if from >= text.len() {
        boundary(mentions, urls, text.len() as int)
    } else {
        boundary(mentions, urls, from) + seq![text[from]] + overlay_from(
            text,
            mentions,
            urls,
            from + 1,
        )
    }
}

/// The rendering is what is rendered up to an index followed by what is
/// rendered from it on.
pub proof fn lemma_overlay_joins(text: Seq<char>, mentions: Seq<Span>, urls: Seq<Span>, at: int)
    requires
        0 <= at <= text.len(),
    ensures
        overlay_upto(text, mentions, urls, at) + overlay_from(text, mentions, urls, at) == overlay(
            text,
            mentions,
            urls,
        ),
    decreases text.len() - at,
{
    if at < text.len() {
        lemma_overlay_joins(text, mentions, urls, at + 1);
        assert(overlay_upto(text, mentions, urls, at + 1) + overlay_from(
            text,
            mentions,
            urls,
            at + 1,
        ) =~= overlay_upto(text, mentions, urls, at) + overlay_from(text, mentions, urls, at));
    }
}

/// `out` without what the ordered spans `mentions` and `urls` insert from
/// index `from` on: in front of each of the `len - from` characters that
/// are left, as many characters are dropped as are inserted there.
pub open spec fn stripped(
    out: Seq<char>,
    mentions: Seq<Span>,
    urls: Seq<Span>,
    from: int,
    len: int,
) -> Seq<char>
    decreases len - from,
{
    if from >= len {
        Seq::empty()
    } else {
        let skip = boundary(mentions, urls, from).len() as int;
        seq![out[skip]] + stripped(out.skip(skip + 1), mentions, urls, from + 1, len)
    }
}

/// A rendering of a text of `len` characters without what `mentions` and
/// `urls` inserted into it.
pub open spec fn without_insertions(
    out: Seq<char>,
    mentions: Seq<Span>,
    urls: Seq<Span>,
    len: nat,
) -> Seq<char> {
    stripped(out, stable_by_start(mentions), stable_by_start(urls), 0, len as int)
}

/// Stripping the rendering from an index on gives the text from that index
/// on.
pub proof fn lemma_stripped_from(text: Seq<char>, mentions: Seq<Span>, urls: Seq<Span>, from: int)
    requires
        0 <= from <= text.len(),
    ensures
        stripped(
            overlay_from(text, mentions, urls, from),
            mentions,
            urls,
            from,
            text.len() as int,
        ) == text.skip(from),
    decreases text.len() - from,
{
    if from < text.len() {
        let inserted = boundary(mentions, urls, from);
        let rest = overlay_from(text, mentions, urls, from + 1);
        let out = overlay_from(text, mentions, urls, from);
        lemma_stripped_from(text, mentions, urls, from + 1);
        assert(out == inserted + seq![text[from]] + rest);
        assert(out[inserted.len() as int] == text[from]);
        assert(out.skip(inserted.len() as int + 1) =~= rest);
        assert(text.skip(from) =~= seq![text[from]] + text.skip(from + 1));
    } else {
        assert(text.skip(from) =~= Seq::<char>::empty());
    }
}

/// Character preservation: taking the brackets and destinations that were
/// inserted out of a rendering gives back the text that was rendered.
pub proof fn lemma_text_survives(text: Seq<char>, mentions: Seq<Span>, urls: Seq<Span>)
    requires
        rendered(text, mentions, urls) is Ok,
    ensures
        rendered(text, mentions, urls) matches Ok(out) && without_insertions(
            out,
            mentions,
            urls,
            text.len(),
        ) == text,
{
    let ordered_mentions = stable_by_start(mentions);
    let ordered_urls = stable_by_start(urls);
    lemma_overlay_joins(text, ordered_mentions, ordered_urls, 0);
    lemma_stripped_from(text, ordered_mentions, ordered_urls, 0);
    assert(overlay_upto(text, ordered_mentions, ordered_urls, 0) + overlay_from(
        text,
        ordered_mentions,
        ordered_urls,
        0,
    ) =~= overlay_from(text, ordered_mentions, ordered_urls, 0));
    assert(text.skip(0) =~= text);
}

/// How often `ch` occurs in `text`.
pub open spec fn occurrences(text: Seq<char>, ch: char) -> nat
    decreases text.len(),
{
    if text.len() == 0 {
        0
    } else {
        occurrences(text.drop_last(), ch) + if text.last() == ch {
            1nat
        } else {
            0nat
        }
    }
}

/// `text` holds neither an opening nor a closing square bracket.
pub open spec fn bracket_free(text: Seq<char>) -> bool {
    !text.contains('[') && !text.contains(']')
}

/// The value of every span is free of square brackets.
pub open spec fn values_bracket_free(spans: Seq<Span>) -> bool {
    forall|k: int| 0 <= k < spans.len() ==> bracket_free(#[trigger] spans[k].value)
}

/// The closing bracket at index `at` of `out` has a parenthesis right
/// behind it, and that parenthesis is closed further on.
pub open spec fn closes_link(out: Seq<char>, at: int) -> bool {
    &&& at + 1 < out.len()
    &&& out[at + 1] == '('
    &&& exists|k: int| at + 1 < k < out.len() && #[trigger] out[k] == ')'
}

/// Every closing bracket of `out` is followed by a destination in
/// parentheses.
pub open spec fn well_closed(out: Seq<char>) -> bool {
    forall|at: int| 0 <= at < out.len() && #[trigger] out[at] == ']' ==> closes_link(out, at)
}

/// Occurrences add up over concatenation.
pub proof fn lemma_occurrences_split(front: Seq<char>, back: Seq<char>, ch: char)
    ensures
        occurrences(front + back, ch) == occurrences(front, ch) + occurrences(back, ch),
    decreases back.len(),
{
    if back.len() == 0 {
        assert(front + back =~= front);
    } else {
        lemma_occurrences_split(front, back.drop_last(), ch);
        assert((front + back).drop_last() =~= front + back.drop_last());
    }
}

/// A character that a text does not contain occurs in it no times.
pub proof fn lemma_occurrences_absent(text: Seq<char>, ch: char)
    requires
        !text.contains(ch),
    ensures
        occurrences(text, ch) == 0,
    decreases text.len(),
{
    if text.len() > 0 {
        assert(text[text.len() - 1] != ch);
        assert forall|k: int| 0 <= k < text.drop_last().len() implies text.drop_last()[k]
            != ch by {
            assert(text[k] != ch);
        }
        lemma_occurrences_absent(text.drop_last(), ch);
    }
}

/// In a text of one character, that character occurs once and no other.
pub proof fn lemma_occurrences_one(only: char, ch: char)
    ensures
        occurrences(seq![only], ch) == if only == ch {
            1nat
        } else {
            0nat
        },
{
    reveal_with_fuel(occurrences, 2);
    assert(seq![only].drop_last() =~= Seq::<char>::empty());
}

/// A single span inserts its own marker.
pub proof fn lemma_markers_one(span: Span, base: Seq<char>, at: int)
    ensures
        markers_at(seq![span], base, at) == marker(span, base, at),
{
    reveal_with_fuel(markers_at, 2);
    assert(seq![span].drop_last() =~= Seq::<Span>::empty());
    assert(markers_at(seq![span], base, at) =~= marker(span, base, at));
}

/// Texts in which every closing bracket is followed by a destination stay
/// so when one is put behind the other.
pub proof fn lemma_well_closed_split(front: Seq<char>, back: Seq<char>)
    requires
        well_closed(front),
        well_closed(back),
    ensures
        well_closed(front + back),
{
    let out = front + back;
    assert forall|at: int| 0 <= at < out.len() && #[trigger] out[at] == ']' implies closes_link(
        out,
        at,
    ) by {
        if at < front.len() {
            assert(front[at] == ']');
            assert(closes_link(front, at));
            let k = choose|k: int| at + 1 < k < front.len() && #[trigger] front[k] == ')';
            assert(out[k] == ')');
            assert(out[at + 1] == front[at + 1]);
        } else {
            let there = at - front.len();
            assert(back[there] == ']');
            assert(closes_link(back, there));
            let k = choose|k: int| there + 1 < k < back.len() && #[trigger] back[k] == ')';
            assert(out[k + front.len()] == ')');
            assert(out[at + 1] == back[there + 1]);
        }
    }
}

/// The facts about the link to an account that the counting rests on.
pub proof fn lemma_account_base_bracket_free()
    ensures
        bracket_free(account_base()),
{
    reveal_strlit("https://twitter.com/");
}

/// The closing of a link holds one closing bracket, which is followed by
/// the destination, and no opening bracket.
pub proof fn lemma_closing_brackets(span: Span, base: Seq<char>)
    requires
        bracket_free(base),
        bracket_free(span.value),
    ensures
        occurrences(closing(span, base), '[') == 0,
        occurrences(closing(span, base), ']') == 1,
        well_closed(closing(span, base)),
{
    let out = closing(span, base);
    let inner = base + span.value;
    assert forall|k: int| 0 <= k < inner.len() implies inner[k] != '[' && inner[k] != ']' by {
        if k < base.len() {
            assert(base[k] == inner[k]);
        } else {
            assert(span.value[k - base.len()] == inner[k]);
        }
    }
    assert(!inner.contains('['));
    assert(!inner.contains(']'));
    lemma_occurrences_absent(inner, '[');
    lemma_occurrences_absent(inner, ']');
    assert(out =~= seq![']', '('] + inner + seq![')']);
    lemma_occurrences_split(seq![']', '('] + inner, seq![')'], '[');
    lemma_occurrences_split(seq![']', '('] + inner, seq![')'], ']');
    lemma_occurrences_split(seq![']', '('], inner, '[');
    lemma_occurrences_split(seq![']', '('], inner, ']');
    lemma_occurrences_one(')', '[');
    lemma_occurrences_one(')', ']');
    lemma_occurrences_one(']', '[');
    lemma_occurrences_one(']', ']');
    assert(seq![']', '('].drop_last() =~= seq![']']);
    assert(occurrences(seq![']', '('], '[') == 0);
    assert(occurrences(seq![']', '('], ']') == 1);
    assert forall|at: int| 0 <= at < out.len() && #[trigger] out[at] == ']' implies closes_link(
        out,
        at,
    ) by {
        if 2 <= at < 2 + inner.len() {
            assert(out[at] == inner[at - 2]);
        }
        assert(at == 0);
        assert(out[out.len() - 1] == ')');
    }
}

/// How often `ch` is inserted in front of the first `upto` indices.
pub open spec fn inserted(spans: Seq<Span>, base: Seq<char>, ch: char, upto: int) -> nat
    decreases upto,
{
    if upto <= 0 {
        0
    } else {
        inserted(spans, base, ch, upto - 1) + occurrences(markers_at(spans, base, upto - 1), ch)
    }
}

/// What is inserted for a sequence of spans is what is inserted for all
/// but the last, and for the last.
pub proof fn lemma_inserted_last(spans: Seq<Span>, base: Seq<char>, ch: char, upto: int)
    requires
        spans.len() > 0,
    ensures
        inserted(spans, base, ch, upto) == inserted(spans.drop_last(), base, ch, upto) + inserted(
            seq![spans.last()],
            base,
            ch,
            upto,
        ),
    decreases upto,
{
    if upto > 0 {
        lemma_inserted_last(spans, base, ch, upto - 1);
        let at = upto - 1;
        lemma_markers_one(spans.last(), base, at);
        lemma_occurrences_split(
            markers_at(spans.drop_last(), base, at),
            marker(spans.last(), base, at),
            ch,
        );
    }
}

/// One span inserts its opening bracket at its start and its closing at
/// its end.
pub proof fn lemma_inserted_one(span: Span, base: Seq<char>, ch: char, upto: int)
    requires
        span.start < span.end,
    ensures
        inserted(seq![span], base, ch, upto) == (if span.start < upto {
            occurrences(seq!['['], ch)
        } else {
            0
        }) + (if span.end < upto {
            occurrences(closing(span, base), ch)
        } else {
            0
        }),
    decreases upto,
{
    if upto > 0 {
        lemma_inserted_one(span, base, ch, upto - 1);
        lemma_markers_one(span, base, upto - 1);
        lemma_occurrences_absent(Seq::<char>::empty(), ch);
    }
}

/// Spans that lie within the first `upto - 1` characters insert one
/// opening and one closing bracket each.
pub proof fn lemma_inserted_brackets(spans: Seq<Span>, base: Seq<char>, upto: int)
    requires
        forall|k: int| 0 <= k < spans.len() ==> !malformed(#[trigger] spans[k]),
        forall|k: int| 0 <= k < spans.len() ==> (#[trigger] spans[k]).end < upto,
        bracket_free(base),
        values_bracket_free(spans),
    ensures
        inserted(spans, base, '[', upto) == spans.len(),
        inserted(spans, base, ']', upto) == spans.len(),
    decreases spans.len(),
{
    if spans.len() == 0 {
        assert(spans =~= Seq::<Span>::empty());
        lemma_inserted_none(base, '[', upto);
        lemma_inserted_none(base, ']', upto);
    } else {
        let last = spans.last();
        assert(!malformed(spans[spans.len() - 1]));
        assert(spans[spans.len() - 1].end < upto);
        assert(bracket_free(spans[spans.len() - 1].value));
        assert forall|k: int| 0 <= k < spans.drop_last().len() implies bracket_free(
            #[trigger] spans.drop_last()[k].value,
        ) by {
            assert(bracket_free(spans[k].value));
        }
        lemma_inserted_brackets(spans.drop_last(), base, upto);
        lemma_inserted_last(spans, base, '[', upto);
        lemma_inserted_last(spans, base, ']', upto);
        lemma_inserted_one(last, base, '[', upto);
        lemma_inserted_one(last, base, ']', upto);
        lemma_closing_brackets(last, base);
        lemma_occurrences_one('[', '[');
        lemma_occurrences_one('[', ']');
    }
}

/// No spans insert nothing.
pub proof fn lemma_inserted_none(base: Seq<char>, ch: char, upto: int)
    ensures
        inserted(Seq::<Span>::empty(), base, ch, upto) == 0,
    decreases upto,
{
    if upto > 0 {
        lemma_inserted_none(base, ch, upto - 1);
    }
}

/// The occurrences of a character in a rendering are those in the text and
/// those that were inserted.
pub proof fn lemma_overlay_occurrences(
    text: Seq<char>,
    mentions: Seq<Span>,
    urls: Seq<Span>,
    ch: char,
    upto: int,
)
    requires
        0 <= upto <= text.len(),
    ensures
        occurrences(overlay_upto(text, mentions, urls, upto), ch) == occurrences(
            text.take(upto),
            ch,
        ) + inserted(mentions, account_base(), ch, upto) + inserted(urls, Seq::empty(), ch, upto),
    decreases upto,
{
    if upto > 0 {
        let at = upto - 1;
        lemma_overlay_occurrences(text, mentions, urls, ch, at);
        let before = overlay_upto(text, mentions, urls, at);
        let here = boundary(mentions, urls, at);
        lemma_occurrences_split(before + here, seq![text[at]], ch);
        lemma_occurrences_split(before, here, ch);
        lemma_occurrences_split(
            markers_at(mentions, account_base(), at),
            markers_at(urls, Seq::empty(), at),
            ch,
        );
        assert(text.take(upto) =~= text.take(at) + seq![text[at]]);
        lemma_occurrences_split(text.take(at), seq![text[at]], ch);
    } else {
        assert(text.take(0) =~= Seq::<char>::empty());
    }
}

/// What spans with bracket-free values insert at an index is well closed.
pub proof fn lemma_markers_well_closed(spans: Seq<Span>, base: Seq<char>, at: int)
    requires
        bracket_free(base),
        values_bracket_free(spans),
    ensures
        well_closed(markers_at(spans, base, at)),
    decreases spans.len(),
{
    if spans.len() > 0 {
        assert(bracket_free(spans[spans.len() - 1].value));
        assert forall|k: int| 0 <= k < spans.drop_last().len() implies bracket_free(
            #[trigger] spans.drop_last()[k].value,
        ) by {
            assert(bracket_free(spans[k].value));
        }
        lemma_markers_well_closed(spans.drop_last(), base, at);
        lemma_closing_brackets(spans.last(), base);
        lemma_well_closed_split(
            markers_at(spans.drop_last(), base, at),
            marker(spans.last(), base, at),
        );
    }
}

/// The rendering of a bracket-free text with bracket-free values is well
/// closed up to every index.
pub proof fn lemma_overlay_well_closed(
    text: Seq<char>,
    mentions: Seq<Span>,
    urls: Seq<Span>,
    upto: int,
)
    requires
        0 <= upto <= text.len(),
        bracket_free(text),
        values_bracket_free(mentions),
        values_bracket_free(urls),
    ensures
        well_closed(overlay_upto(text, mentions, urls, upto)),
        well_closed(boundary(mentions, urls, upto)),
    decreases upto,
{
    lemma_account_base_bracket_free();
    lemma_markers_well_closed(mentions, account_base(), upto);
    lemma_markers_well_closed(urls, Seq::empty(), upto);
    lemma_well_closed_split(
        markers_at(mentions, account_base(), upto),
        markers_at(urls, Seq::empty(), upto),
    );
    if upto > 0 {
        let at = upto - 1;
        lemma_overlay_well_closed(text, mentions, urls, at);
        assert(text[at] != ']');
        lemma_well_closed_split(
            overlay_upto(text, mentions, urls, at),
            boundary(mentions, urls, at),
        );
        lemma_well_closed_split(
            overlay_upto(text, mentions, urls, at) + boundary(mentions, urls, at),
            seq![text[at]],
        );
    }
}

/// Bracket balance: where neither the text nor a handle nor a destination
/// holds a square bracket, a rendering holds one opening and one closing
/// bracket for each mention and each URL, and every closing bracket is
/// followed by a destination in parentheses.
pub proof fn lemma_brackets_balance(text: Seq<char>, mentions: Seq<Span>, urls: Seq<Span>)
    requires
        rendered(text, mentions, urls) is Ok,
        bracket_free(text),
        values_bracket_free(mentions),
        values_bracket_free(urls),
    ensures
        rendered(text, mentions, urls) matches Ok(out) && occurrences(out, '[') == mentions.len()
            + urls.len() && occurrences(out, ']') == mentions.len() + urls.len() && well_closed(
            out,
        ),
{
    let len = text.len() as int;
    let ordered_mentions = stable_by_start(mentions);
    let ordered_urls = stable_by_start(urls);
    let out = overlay(text, ordered_mentions, ordered_urls);
    lemma_stable_by_start(mentions);
    lemma_stable_by_start(urls);
    lemma_stable_keeps(mentions, |span: Span| bracket_free(span.value));
    lemma_stable_keeps(urls, |span: Span| bracket_free(span.value));
    lemma_stable_keeps(mentions, |span: Span| !malformed(span) && !out_of_bounds(span, len));
    lemma_stable_keeps(urls, |span: Span| !malformed(span) && !out_of_bounds(span, len));
    lemma_account_base_bracket_free();
    assert(bracket_free(Seq::<char>::empty()));
    lemma_inserted_brackets(ordered_mentions, account_base(), len + 1);
    lemma_inserted_brackets(ordered_urls, Seq::empty(), len + 1);
    lemma_overlay_occurrences(text, ordered_mentions, ordered_urls, '[', len);
    lemma_overlay_occurrences(text, ordered_mentions, ordered_urls, ']', len);
    lemma_occurrences_split(
        overlay_upto(text, ordered_mentions, ordered_urls, len),
        boundary(ordered_mentions, ordered_urls, len),
        '[',
    );
    lemma_occurrences_split(
        overlay_upto(text, ordered_mentions, ordered_urls, len),
        boundary(ordered_mentions, ordered_urls, len),
        ']',
    );
    lemma_occurrences_split(
        markers_at(ordered_mentions, account_base(), len),
        markers_at(ordered_urls, Seq::empty(), len),
        '[',
    );
    lemma_occurrences_split(
        markers_at(ordered_mentions, account_base(), len),
        markers_at(ordered_urls, Seq::empty(), len),
        ']',
    );
    assert(text.take(len) =~= text);
    lemma_occurrences_absent(text, '[');
    lemma_occurrences_absent(text, ']');
    lemma_overlay_well_closed(text, ordered_mentions, ordered_urls, len);
    lemma_well_closed_split(
        overlay_upto(text, ordered_mentions, ordered_urls, len),
        boundary(ordered_mentions, ordered_urls, len),
    );
}

} // verus!
