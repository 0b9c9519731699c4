//! What holds of the queries taken together.

use vstd::prelude::*;

use crate::search::{FilterView, QueryView, RankWeights};
use crate::selection::{
    by_position, is_leading, lemma_all_in_order_count, lemma_by_position_strict,
    lemma_filter_congruent, lemma_leading_length, lemma_leading_prefix, lemma_leading_restrict,
    lemma_leading_unique,
};
use crate::timestamp::Moment;
use crate::tummy::TummyView;

verus! {

/// A query has one answer: two lists that are both the page of the same
/// request are the same list.
pub proof fn law_page_is_pinned(
    s: TummyView,
    channel_id: Seq<char>,
    cursor: Option<Moment>,
    limit: int,
    since: Moment,
    first: Seq<int>,
    second: Seq<int>,
)
    requires
        s.is_page(channel_id, cursor, limit, since, first),
        s.is_page(channel_id, cursor, limit, since, second),
    ensures
        first == second,
{
    lemma_by_position_strict(s.messages.len() as int);
    lemma_leading_unique(
        s.messages.len() as int,
        s.page_wanted(channel_id, cursor, since),
        by_position(),
        Some(limit),
        first,
        second,
    );
}

/// A page leaves out a message that belongs on it only when it is full, and
/// then only later ones: whether a message has replies plays no part.
pub proof fn law_page_leaves_no_gap(
    s: TummyView,
    channel_id: Seq<char>,
    cursor: Option<Moment>,
    limit: int,
    since: Moment,
    picked: Seq<int>,
    position: int,
)
    requires
        s.is_page(channel_id, cursor, limit, since, picked),
        0 <= position < s.messages.len(),
        s.on_page(position, channel_id, cursor, since),
        !picked.contains(position),
    ensures
        picked.len() == limit,
        forall|k: int| 0 <= k < picked.len() ==> #[trigger] picked[k] < position,
{
    let wanted = s.page_wanted(channel_id, cursor, since);
    assert(wanted(position));
    assert forall|k: int| 0 <= k < picked.len() implies #[trigger] picked[k] < position by {
        assert(by_position()(picked[k], position));
    }
}

/// Paging goes through a channel without gaps, repeats or changes of order:
/// a page that is not empty and the page asked for with the timestamp of its
/// last row as cursor share no message, and the two together are the
/// beginning of the list of all messages that the first request asks for.
pub proof fn law_pages_continue(
    s: TummyView,
    channel_id: Seq<char>,
    cursor: Option<Moment>,
    limit: int,
    since: Moment,
    first: Seq<int>,
    second: Seq<int>,
    all: Seq<int>,
)
    requires
        s.wf(),
        s.is_page(channel_id, cursor, limit, since, first),
        first.len() > 0,
        s.is_page(channel_id, Some(s.messages[first.last()].ts), limit, since, second),
        is_leading(
            s.messages.len() as int,
            s.page_wanted(channel_id, cursor, since),
            by_position(),
            None,
            all,
        ),
    ensures
        forall|a: int, b: int|
            0 <= a < first.len() && 0 <= b < second.len() ==> #[trigger] first[a]
                != #[trigger] second[b],
        (first + second).len() <= all.len(),
        first + second == all.take((first + second).len() as int),
{
    let n = s.messages.len() as int;
    let before = by_position();
    let wanted = s.page_wanted(channel_id, cursor, since);
    let last = first.last();
    let turn = s.messages[last].ts;
    let after = s.page_wanted(channel_id, Some(turn), since);
    let both = first + second;
    let split = first.len() as int;
    assert(0 <= last < n && wanted(last));
    assert forall|a: int| 0 <= a < first.len() implies 0 <= #[trigger] first[a] <= last
        && wanted(first[a]) by {
        if a < first.len() - 1 {
            assert(before(first[a], first[first.len() - 1]));
        }
    }
    assert forall|b: int| 0 <= b < second.len() implies last < #[trigger] second[b] < n && wanted(
        second[b],
    ) by {
        let j = second[b];
        assert(0 <= j < n && after(j));
        if j < last {
            assert(s.messages[j].ts.instant() <= s.messages[last].ts.instant());
        }
    }
    assert forall|k: int| 0 <= k < both.len() implies 0 <= #[trigger] both[k] < n && wanted(
        both[k],
    ) by {
        if k < split {
            assert(both[k] == first[k]);
        } else {
            assert(both[k] == second[k - split]);
        }
    }
    assert forall|a: int, b: int| 0 <= a < b < both.len() implies before(
        #[trigger] both[a],
        #[trigger] both[b],
    ) by {
        if b < split {
            assert(both[a] == first[a] && both[b] == first[b]);
        } else if a < split {
            assert(both[a] == first[a] && both[b] == second[b - split]);
        } else {
            assert(both[a] == second[a - split] && both[b] == second[b - split]);
        }
    }
    assert forall|j: int|
        #![trigger wanted(j)]
        0 <= j < n && wanted(j) && !both.contains(j) implies (forall|k: int|
        0 <= k < both.len() ==> before(#[trigger] both[k], j)) by {
        if first.contains(j) {
            let a = choose|a: int| 0 <= a < first.len() && first[a] == j;
            assert(both[a] == j);
        }
        assert(before(first[first.len() - 1], j));
        assert(s.messages[last].ts.instant() <= s.messages[j].ts.instant());
        assert(s.messages[last].channel_id == s.messages[j].channel_id);
        assert(after(j));
        if second.contains(j) {
            let b = choose|b: int| 0 <= b < second.len() && second[b] == j;
            assert(both[split + b] == j);
        }
        assert forall|k: int| 0 <= k < both.len() implies before(#[trigger] both[k], j) by {
            if k < split {
                assert(both[k] == first[k]);
                assert(before(first[k], j));
            } else {
                assert(both[k] == second[k - split]);
                assert(before(second[k - split], j));
            }
        }
    }
    assert(is_leading(n, wanted, before, Some(both.len() as int), both));
    lemma_by_position_strict(n);
    lemma_leading_length(n, wanted, before, None, all, Some(both.len() as int), both);
    lemma_leading_prefix(n, wanted, before, Some(both.len() as int), both, None, all);
}

/// The number of replies that a page shows for a message is the number of
/// rows that its thread has.
pub proof fn law_reply_count_is_thread_length(
    s: TummyView,
    channel_id: Seq<char>,
    parent_ts: Moment,
    parent_user_id: Seq<char>,
    picked: Seq<int>,
)
    requires
        s.is_thread(channel_id, parent_ts, parent_user_id, picked),
    ensures
        picked.len() == s.reply_count(channel_id, parent_ts, parent_user_id),
{
    lemma_all_in_order_count(
        s.messages.len() as int,
        s.thread_wanted(channel_id, parent_ts, parent_user_id),
        picked,
    );
}

/// A thread has one list of replies.
pub proof fn law_thread_is_pinned(
    s: TummyView,
    channel_id: Seq<char>,
    parent_ts: Moment,
    parent_user_id: Seq<char>,
    first: Seq<int>,
    second: Seq<int>,
)
    requires
        s.is_thread(channel_id, parent_ts, parent_user_id, first),
        s.is_thread(channel_id, parent_ts, parent_user_id, second),
    ensures
        first == second,
{
    lemma_by_position_strict(s.messages.len() as int);
    lemma_leading_unique(
        s.messages.len() as int,
        s.thread_wanted(channel_id, parent_ts, parent_user_id),
        by_position(),
        None,
        first,
        second,
    );
}

/// A search has one answer.
pub proof fn law_search_is_pinned(
    s: TummyView,
    query: QueryView,
    filter: FilterView,
    weights: RankWeights,
    limit: int,
    first: Seq<int>,
    second: Seq<int>,
)
    requires
        s.is_search(query, filter, weights, limit, first),
        s.is_search(query, filter, weights, limit, second),
    ensures
        first == second,
{
    s.lemma_search_order_strict(query, weights);
    lemma_leading_unique(
        s.messages.len() as int,
        s.search_wanted(query, filter),
        s.search_order(query, weights),
        Some(limit),
        first,
        second,
    );
}

/// The scores of the rows of a search never rise, and where no two messages
/// that the search finds have the same score they fall from row to row.
pub proof fn law_search_descends(
    s: TummyView,
    query: QueryView,
    filter: FilterView,
    weights: RankWeights,
    limit: int,
    picked: Seq<int>,
)
    requires
        s.is_search(query, filter, weights, limit, picked),
    ensures
        forall|a: int, b: int|
            0 <= a < b < picked.len() ==> s.rank_at(#[trigger] picked[a], query, weights)
                >= s.rank_at(#[trigger] picked[b], query, weights),
        (forall|i: int, j: int|
            0 <= i < j < s.messages.len() && s.is_hit(i, query, filter) && s.is_hit(
                j,
                query,
                filter,
            ) ==> #[trigger] s.rank_at(i, query, weights) != #[trigger] s.rank_at(
                j,
                query,
                weights,
            )) ==> (forall|a: int, b: int|
            0 <= a < b < picked.len() ==> s.rank_at(#[trigger] picked[a], query, weights)
                > s.rank_at(#[trigger] picked[b], query, weights)),
{
    let before = s.search_order(query, weights);
    let wanted = s.search_wanted(query, filter);
    assert forall|a: int, b: int| 0 <= a < b < picked.len() implies s.rank_at(
        #[trigger] picked[a],
        query,
        weights,
    ) >= s.rank_at(#[trigger] picked[b], query, weights) by {
        assert(before(picked[a], picked[b]));
    }
    if forall|i: int, j: int|
        0 <= i < j < s.messages.len() && s.is_hit(i, query, filter) && s.is_hit(j, query, filter)
            ==> #[trigger] s.rank_at(i, query, weights) != #[trigger] s.rank_at(
            j,
            query,
            weights,
        ) {
        assert forall|a: int, b: int| 0 <= a < b < picked.len() implies s.rank_at(
            #[trigger] picked[a],
            query,
            weights,
        ) > s.rank_at(#[trigger] picked[b], query, weights) by {
            let i = picked[a];
            let j = picked[b];
            assert(before(i, j));
            assert(wanted(i) && wanted(j));
            assert(0 <= i < s.messages.len() && 0 <= j < s.messages.len());
            if i < j {
                assert(s.rank_at(i, query, weights) != s.rank_at(j, query, weights));
            } else if j < i {
                assert(s.rank_at(j, query, weights) != s.rank_at(i, query, weights));
            }
        }
    }
}

/// The test that a filter admits the message at a position.
pub open spec fn admitted_by(s: TummyView, filter: FilterView) -> spec_fn(int) -> bool {
    |i: int| filter.admits(s.messages[i])
}

/// A search with a narrower filter agrees with the search with the wider
/// one: the rows of the wide search that the narrow filter admits and the
/// rows of the narrow search are, in the same order, one the beginning of
/// the other; and where the wide search did not reach its limit, the narrow
/// search is the beginning of what the narrow filter admits of the wide one.
pub proof fn law_narrower_search_agrees(
    s: TummyView,
    query: QueryView,
    weights: RankWeights,
    narrow: FilterView,
    narrow_limit: int,
    narrow_picked: Seq<int>,
    wide: FilterView,
    wide_limit: int,
    wide_picked: Seq<int>,
)
    requires
        narrow.narrows(wide),
        s.is_search(query, narrow, weights, narrow_limit, narrow_picked),
        s.is_search(query, wide, weights, wide_limit, wide_picked),
    ensures
        ({
            let admitted = wide_picked.filter(admitted_by(s, narrow));
            &&& narrow_picked.len() <= admitted.len() ==> narrow_picked == admitted.take(
                narrow_picked.len() as int,
            )
            &&& admitted.len() <= narrow_picked.len() ==> admitted == narrow_picked.take(
                admitted.len() as int,
            )
            &&& wide_picked.len() < wide_limit ==> narrow_picked.len() <= admitted.len()
        }),
{
    let n = s.messages.len() as int;
    let before = s.search_order(query, weights);
    let wanted = s.search_wanted(query, wide);
    let stricter = s.search_wanted(query, narrow);
    let admitted = wide_picked.filter(admitted_by(s, narrow));
    s.lemma_search_order_strict(query, weights);
    assert forall|k: int| 0 <= k < wide_picked.len() implies stricter(#[trigger] wide_picked[k])
        == admitted_by(s, narrow)(wide_picked[k]) by {
        assert(wanted(wide_picked[k]));
    }
    lemma_filter_congruent(wide_picked, stricter, admitted_by(s, narrow));
    lemma_leading_restrict(n, wanted, before, Some(wide_limit), wide_picked, stricter);
    let own = Some(admitted.len() as int);
    if narrow_picked.len() <= admitted.len() {
        lemma_leading_prefix(
            n,
            stricter,
            before,
            Some(narrow_limit),
            narrow_picked,
            own,
            admitted,
        );
    }
    if admitted.len() <= narrow_picked.len() {
        lemma_leading_prefix(
            n,
            stricter,
            before,
            own,
            admitted,
            Some(narrow_limit),
            narrow_picked,
        );
    }
    if wide_picked.len() < wide_limit {
        lemma_leading_length(
            n,
            stricter,
            before,
            None,
            admitted,
            Some(narrow_limit),
            narrow_picked,
        );
    }
}

} // verus!
