//! Ordering of spans by where they start, keeping the order of the archive
//! among spans that start together.

use vstd::prelude::*;
use crate::model::{spans, Entity, Span};

verus! {

/// `sorted` with `span` put behind the last span that starts no later.
pub open spec fn placed(sorted: Seq<Span>, span: Span) -> Seq<Span>
    decreases sorted.len(),
{
    if sorted.len() == 0 || sorted.last().start <= span.start {
        sorted.push(span)
    } else {
        placed(sorted.drop_last(), span).push(sorted.last())
    }
}

/// The spans of `spans` by ascending start; spans with the same start keep
/// their order.
pub open spec fn stable_by_start(spans: Seq<Span>) -> Seq<Span>
    decreases spans.len(),
{
    if spans.len() == 0 {
        Seq::empty()
    } else {
        placed(stable_by_start(spans.drop_last()), spans.last())
    }
}

/// No span starts before one that stands earlier.
pub open spec fn ordered_by_start(spans: Seq<Span>) -> bool {
    forall|a: int, b: int| 0 <= a <= b < spans.len() ==> spans[a].start <= spans[b].start
}

/// The spans that `order` picks out of `spans`, in the order of `order`.
pub open spec fn arranged(spans: Seq<Span>, order: Seq<usize>) -> Seq<Span> {
    Seq::new(order.len(), |k: int| spans[order[k] as int])
}

/// Placing a span puts it at the one index where everything before starts
/// no later and everything behind starts later.
pub proof fn lemma_placed_at(sorted: Seq<Span>, span: Span, at: int)
    requires
        0 <= at <= sorted.len(),
        at > 0 ==> sorted[at - 1].start <= span.start,
        forall|k: int| at <= k < sorted.len() ==> sorted[k].start > span.start,
    ensures
        placed(sorted, span) == sorted.insert(at, span),
    decreases sorted.len() - at,
{
    if at == sorted.len() {
        assert(sorted.push(span) =~= sorted.insert(at, span));
    } else {
        lemma_placed_at(sorted.drop_last(), span, at);
        assert(sorted.drop_last().insert(at, span).push(sorted.last()) =~= sorted.insert(
            at,
            span,
        ));
    }
}

/// Placing a span into an ordered sequence leaves it ordered, one longer,
/// and with exactly that span added.
pub proof fn lemma_placed_ordered(sorted: Seq<Span>, span: Span)
    requires
        ordered_by_start(sorted),
    ensures
        ordered_by_start(placed(sorted, span)),
        placed(sorted, span).len() == sorted.len() + 1,
        placed(sorted, span).to_multiset() == sorted.to_multiset().insert(span),
    decreases sorted.len(),
{
    broadcast use vstd::seq_lib::to_multiset_build;

    if sorted.len() == 0 || sorted.last().start <= span.start {
    } else {
        let front = sorted.drop_last();
        lemma_placed_ordered(front, span);
        let inner = placed(front, span);
        assert(sorted == front.push(sorted.last()));
        assert(inner.to_multiset().insert(sorted.last()) == sorted.to_multiset().insert(span));
        assert forall|k: int| 0 <= k < inner.len() implies inner[k].start
            <= sorted.last().start by {
            vstd::seq_lib::to_multiset_contains(inner, inner[k]);
            vstd::seq_lib::to_multiset_contains(front, inner[k]);
            assert(inner.contains(inner[k]));
            if inner[k] != span {
                assert(front.to_multiset().count(inner[k]) > 0);
                let j = choose|j: int| 0 <= j < front.len() && front[j] == inner[k];
                assert(sorted[j] == inner[k]);
            }
        }
    }
}

/// Ordering keeps every span, and the result is ordered by start.
pub proof fn lemma_stable_by_start(spans: Seq<Span>)
    ensures
        ordered_by_start(stable_by_start(spans)),
        stable_by_start(spans).len() == spans.len(),
        stable_by_start(spans).to_multiset() == spans.to_multiset(),
    decreases spans.len(),
{
    broadcast use vstd::seq_lib::to_multiset_build;

    if spans.len() == 0 {
        assert(spans =~= Seq::empty());
    } else {
        let front = spans.drop_last();
        lemma_stable_by_start(front);
        lemma_placed_ordered(stable_by_start(front), spans.last());
        assert(spans == front.push(spans.last()));
        assert(front.push(spans.last()).to_multiset() == front.to_multiset().insert(
            spans.last(),
        ));
    }
}

/// The indices of `entities` in the order in which `stable_by_start` puts
/// their spans.
pub fn order_by_start(entities: &Vec<Entity>) -> (order: Vec<usize>)
    ensures
        order@.len() == entities@.len(),
        forall|k: int| 0 <= k < order@.len() ==> order@[k] < entities@.len(),
        arranged(spans(entities@), order@) == stable_by_start(spans(entities@)),
{
    let ghost all = spans(entities@);
    let mut order: Vec<usize> = Vec::new();
    let mut next: usize = 0;
    while next < entities.len()
        invariant
            next <= entities.len(),
            all == spans(entities@),
            order@.len() == next,
            forall|k: int| 0 <= k < order@.len() ==> order@[k] < entities@.len(),
            arranged(all, order@) == stable_by_start(all.take(next as int)),
        decreases entities.len() - next,
    {
        let ghost before = arranged(all, order@);
        let start = entities[next].start;
        let mut at: usize = next;
        while at > 0 && entities[order[at - 1]].start > start
            invariant
                at <= next,
                next < entities.len(),
                all == spans(entities@),
                order@.len() == next,
                before == arranged(all, order@),
                start == all[next as int].start,
                forall|k: int| 0 <= k < order@.len() ==> order@[k] < entities@.len(),
                forall|k: int| at <= k < before.len() ==> before[k].start > start,
            decreases at,
        {
            at -= 1;
        }
        order.insert(at, next);
        proof {
            lemma_placed_at(before, all[next as int], at as int);
            assert(arranged(all, order@) =~= before.insert(at as int, all[next as int]));
            assert(all.take(next + 1).drop_last() == all.take(next as int));
        }
        next += 1;
    }
    assert(all.take(next as int) == all);
    order
}

} // verus!
