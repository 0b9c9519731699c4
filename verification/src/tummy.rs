//! The archive held in memory and the queries it answers.

use vstd::prelude::*;

use crate::error::TummyError;
use crate::intake::{
    arrange_channels, arrange_messages, channel_order, check_channels, check_references,
    check_timestamps, check_user_ids, lemma_in_order_is_wf, lemma_timestamps_differ_in_order,
    message_order, rows_admissible,
};
use crate::models::{
    moment_of, views, Channel, ChannelView, Message, MessageView, ParentMessage,
    ParentMessageView, ReplyMessage, ReplyMessageView, SearchResult, SearchResultView, User,
    UserView,
};
use crate::order::{cap_of, has_key, key_order, leading, positions};
use crate::search::{
    parse, words, FilterView, Hit, QueryView, RankWeights, SearchFilter, SearchQuery,
    PHRASE_WEIGHT, TERM_WEIGHT,
};
use crate::selection::{
    arrangement, by_position, capped, count_wanted, in_order, is_leading, is_strict_order,
    lemma_all_in_order_count, lemma_by_position_strict, lemma_count_congruent,
    lemma_leading_congruent, lemma_leading_fits, lemma_leading_push, lemma_leading_skip,
    lemma_leading_stop, lemma_leading_unique,
};
use crate::text::{bytes_of, same_text, text_before};
use crate::timestamp::{from_pg_ts, pg_ts_moment, Moment, Timestamp};

verus! {

/// What the archive holds: its channels in the order of their names, its
/// users, and its messages from the earliest to the latest.
pub struct TummyView {
    pub channels: Seq<ChannelView>,
    pub users: Seq<UserView>,
    pub messages: Seq<MessageView>,
}

impl TummyView {
    /// Some user has the identifier `id`.
    pub open spec fn has_user(self, id: Seq<char>) -> bool {
        exists|u: int| 0 <= u < self.users.len() && (#[trigger] self.users[u]).id == id
    }

    /// Some channel has the identifier `id`.
    pub open spec fn has_channel(self, id: Seq<char>) -> bool {
        exists|c: int| 0 <= c < self.channels.len() && (#[trigger] self.channels[c]).id == id
    }

    /// The rules of the archive: channels are told apart by their
    /// identifiers and stand in the order of their names, which differ; users
    /// are told apart by their identifiers; every message names a user and a
    /// channel that exist; messages stand in the order of their timestamps,
    /// and no two messages of one channel have the same timestamp.
    pub open spec fn wf(self) -> bool {
        &&& forall|i: int, j: int|
            #![trigger self.channels[i], self.channels[j]]
            0 <= i < j < self.channels.len() ==> self.channels[i].id != self.channels[j].id
        &&& forall|i: int, j: int|
            #![trigger self.channels[i], self.channels[j]]
            0 <= i < j < self.channels.len() ==> text_before(
                self.channels[i].name,
                self.channels[j].name,
            )
        &&& forall|i: int, j: int|
            #![trigger self.users[i], self.users[j]]
            0 <= i < j < self.users.len() ==> self.users[i].id != self.users[j].id
        &&& forall|m: int|
            0 <= m < self.messages.len() ==> self.has_user((#[trigger] self.messages[m]).user_id)
                && self.has_channel(self.messages[m].channel_id)
        &&& forall|i: int, j: int|
            #![trigger self.messages[i], self.messages[j]]
            0 <= i < j < self.messages.len() ==> self.messages[i].ts.instant()
                <= self.messages[j].ts.instant()
        &&& forall|i: int, j: int|
            #![trigger self.messages[i], self.messages[j]]
            0 <= i < j < self.messages.len() && self.messages[i].channel_id
                == self.messages[j].channel_id ==> self.messages[i].ts.instant()
                != self.messages[j].ts.instant()
    }

    /// The place, among the users, of the author of the message at
    /// `position`.
    pub open spec fn author_index(self, position: int) -> int {
        choose|u: int|
            0 <= u < self.users.len() && (#[trigger] self.users[u]).id
                == self.messages[position].user_id
    }

    /// The test that a message is a reply, in `channel_id`, to what
    /// `parent_user_id` sent at `parent_ts`.
    pub open spec fn thread_wanted(
        self,
        channel_id: Seq<char>,
        parent_ts: Moment,
        parent_user_id: Seq<char>,
    ) -> spec_fn(int) -> bool {
        |j: int| self.messages[j].is_reply_to(channel_id, parent_ts, parent_user_id)
    }

    /// The number of replies, in `channel_id`, to what `parent_user_id` sent
    /// at `parent_ts`.
    pub open spec fn reply_count(
        self,
        channel_id: Seq<char>,
        parent_ts: Moment,
        parent_user_id: Seq<char>,
    ) -> int {
        count_wanted(
            self.messages.len() as int,
            self.thread_wanted(channel_id, parent_ts, parent_user_id),
        )
    }

    /// The row of a page for the message at `position`: the message, its
    /// author, and the number of replies to it.
    pub open spec fn parent_row(self, position: int) -> ParentMessageView {
        let message = self.messages[position];
        ParentMessageView {
            message,
            author: self.users[self.author_index(position)],
            reply_count: self.reply_count(message.channel_id, message.ts, message.user_id),
        }
    }

    /// The row of a thread for the message at `position`: the message and
    /// its author.
    pub open spec fn reply_row(self, position: int) -> ReplyMessageView {
        ReplyMessageView {
            message: self.messages[position],
            author: self.users[self.author_index(position)],
        }
    }

    /// The message at `position` belongs on the pages of `channel_id`: it is
    /// a top-level message of that channel, later than `since`, and later
    /// than `cursor` where there is one.
    pub open spec fn on_page(
        self,
        position: int,
        channel_id: Seq<char>,
        cursor: Option<Moment>,
        since: Moment,
    ) -> bool {
        let message = self.messages[position];
        &&& message.channel_id == channel_id
        &&& message.is_top_level()
        &&& message.ts.instant() > since.instant()
        &&& cursor matches Some(c) ==> message.ts.instant() > c.instant()
    }

    /// [`TummyView::on_page`] as a test of positions.
    pub open spec fn page_wanted(
        self,
        channel_id: Seq<char>,
        cursor: Option<Moment>,
        since: Moment,
    ) -> spec_fn(int) -> bool {
        |i: int| self.on_page(i, channel_id, cursor, since)
    }

    /// `picked` holds the positions of the first `limit` messages that
    /// belong on the pages of `channel_id` after `cursor` and `since`, from
    /// the earliest on.
    pub open spec fn is_page(
        self,
        channel_id: Seq<char>,
        cursor: Option<Moment>,
        limit: int,
        since: Moment,
        picked: Seq<int>,
    ) -> bool {
        is_leading(
            self.messages.len() as int,
            self.page_wanted(channel_id, cursor, since),
            by_position(),
            Some(limit),
            picked,
        )
    }

    /// The positions of the messages of a page.
    pub open spec fn page_positions(
        self,
        channel_id: Seq<char>,
        cursor: Option<Moment>,
        limit: int,
        since: Moment,
    ) -> Seq<int> {
        choose|picked: Seq<int>| self.is_page(channel_id, cursor, limit, since, picked)
    }

    /// The rows of a page.
    pub open spec fn page(
        self,
        channel_id: Seq<char>,
        cursor: Option<Moment>,
        limit: int,
        since: Moment,
    ) -> Seq<ParentMessageView> {
        self.page_positions(channel_id, cursor, limit, since).map_values(
            |i: int| self.parent_row(i),
        )
    }

    /// `picked` holds the positions of all replies, in `channel_id`, to what
    /// `parent_user_id` sent at `parent_ts`, from the earliest on.
    pub open spec fn is_thread(
        self,
        channel_id: Seq<char>,
        parent_ts: Moment,
        parent_user_id: Seq<char>,
        picked: Seq<int>,
    ) -> bool {
        is_leading(
            self.messages.len() as int,
            self.thread_wanted(channel_id, parent_ts, parent_user_id),
            by_position(),
            None,
            picked,
        )
    }

    /// The positions of the replies of a thread.
    pub open spec fn thread_positions(
        self,
        channel_id: Seq<char>,
        parent_ts: Moment,
        parent_user_id: Seq<char>,
    ) -> Seq<int> {
        choose|picked: Seq<int>| self.is_thread(channel_id, parent_ts, parent_user_id, picked)
    }

    /// The rows of a thread.
    pub open spec fn thread(
        self,
        channel_id: Seq<char>,
        parent_ts: Moment,
        parent_user_id: Seq<char>,
    ) -> Seq<ReplyMessageView> {
        self.thread_positions(channel_id, parent_ts, parent_user_id).map_values(
            |i: int| self.reply_row(i),
        )
    }

    /// The words of the text of the message at `position`.
    pub open spec fn doc_at(self, position: int) -> Seq<Seq<u8>> {
        words(bytes_of(self.messages[position].msg_text))
    }

    /// The message at `position` is found by a search for `query` among the
    /// messages that `filter` admits.
    pub open spec fn is_hit(self, position: int, query: QueryView, filter: FilterView) -> bool {
        filter.admits(self.messages[position]) && query.matches(self.doc_at(position))
    }

    /// The score of the message at `position` for `query`.
    pub open spec fn rank_at(self, position: int, query: QueryView, weights: RankWeights) -> int {
        query.rank(weights, self.doc_at(position))
    }

    /// [`TummyView::is_hit`] as a test of positions.
    pub open spec fn search_wanted(self, query: QueryView, filter: FilterView) -> spec_fn(
        int,
    ) -> bool {
        |i: int| self.is_hit(i, query, filter)
    }

    /// The order of search results: the higher score first, and of two
    /// messages with the same score the one that stands later in the
    /// archive, which is no earlier in time.
    pub open spec fn search_order(self, query: QueryView, weights: RankWeights) -> spec_fn(
        int,
        int,
    ) -> bool {
        |i: int, j: int|
            self.rank_at(i, query, weights) > self.rank_at(j, query, weights) || (self.rank_at(
                i,
                query,
                weights,
            ) == self.rank_at(j, query, weights) && i > j)
    }

    /// `picked` holds the positions of the first `limit` messages that a
    /// search for `query` finds among those that `filter` admits, in the
    /// order of search results.
    pub open spec fn is_search(
        self,
        query: QueryView,
        filter: FilterView,
        weights: RankWeights,
        limit: int,
        picked: Seq<int>,
    ) -> bool {
        is_leading(
            self.messages.len() as int,
            self.search_wanted(query, filter),
            self.search_order(query, weights),
            Some(limit),
            picked,
        )
    }

    /// The positions of the messages that a search hands out.
    pub open spec fn search_positions(
        self,
        query: QueryView,
        filter: FilterView,
        weights: RankWeights,
        limit: int,
    ) -> Seq<int> {
        choose|picked: Seq<int>| self.is_search(query, filter, weights, limit, picked)
    }

    /// The row of a search for the message at `position`: the message, its
    /// author and its score.
    pub open spec fn result_row(self, position: int, query: QueryView, weights: RankWeights) -> SearchResultView {
        SearchResultView {
            message: self.messages[position],
            author: self.users[self.author_index(position)],
            rank: self.rank_at(position, query, weights),
        }
    }

    /// The rows that a search hands out.
    pub open spec fn search(
        self,
        query: QueryView,
        filter: FilterView,
        weights: RankWeights,
        limit: int,
    ) -> Seq<SearchResultView> {
        self.search_positions(query, filter, weights, limit).map_values(
            |i: int| self.result_row(i, query, weights),
        )
    }

    /// The order of search results is strict and total.
    pub proof fn lemma_search_order_strict(self, query: QueryView, weights: RankWeights)
        ensures
            is_strict_order(self.messages.len() as int, self.search_order(query, weights)),
    {
        let n = self.messages.len() as int;
        let before = self.search_order(query, weights);
        assert forall|i: int, j: int|
            #![trigger before(i, j)]
            0 <= i < n && 0 <= j < n && i != j implies before(i, j) || before(j, i) by {
        }
    }
}

/// The cursor to ask for the page after `page` with: the timestamp of the
/// last row, or `current` where the page has no row.
pub fn next_cursor(page: &Vec<ParentMessage>, current: &Option<Timestamp>) -> (cursor: Option<
    Timestamp,
>)
    ensures
        page@.len() == 0 ==> cursor == *current,
        page@.len() > 0 ==> cursor == Some(page@[page@.len() - 1].message.ts),
{
    if page.len() == 0 {
        *current
    } else {
        Some(page[page.len() - 1].message.ts)
    }
}

/// The archive: channels, users and messages held in memory, kept to the
/// rules of [`TummyView::wf`].
#[derive(Debug)]
pub struct Tummy {
    channels: Vec<Channel>,
    users: Vec<User>,
    messages: Vec<Message>,
}

impl View for Tummy {
    type V = TummyView;

    closed spec fn view(&self) -> TummyView {
        TummyView {
            channels: views(self.channels@),
            users: views(self.users@),
            messages: views(self.messages@),
        }
    }
}

impl Tummy {
    #[verifier::type_invariant]
    spec fn sound(self) -> bool {
        self@.wf()
    }

    /// The archive of the given rows: the channels put in the order of their
    /// names, the users as given, the messages put in the order of their
    /// timestamps (those with the same timestamp as they were given). Rows
    /// that break the rules of [`rows_admissible`] give `QueryFailed`.
    pub fn new(channels: Vec<Channel>, users: Vec<User>, messages: Vec<Message>) -> (made: Result<
        Tummy,
        TummyError,
    >)
        ensures
            match made {
                Ok(tummy) => {
                    &&& rows_admissible(views(channels@), views(users@), views(messages@))
                    &&& tummy@.wf()
                    &&& tummy@.channels == in_order(
                        views(channels@),
                        channel_order(views(channels@)),
                    )
                    &&& tummy@.users == views(users@)
                    &&& tummy@.messages == in_order(
                        views(messages@),
                        message_order(views(messages@)),
                    )
                    &&& tummy@.channels.len() == channels@.len()
                    &&& tummy@.messages.len() == messages@.len()
                },
                Err(e) => e == TummyError::QueryFailed && !rows_admissible(
                    views(channels@),
                    views(users@),
                    views(messages@),
                ),
            },
    {
        if !check_user_ids(&users) || !check_channels(&channels) || !check_references(
            &channels,
            &users,
            &messages,
        ) {
            return Err(TummyError::QueryFailed);
        }
        let arranged_channels = arrange_channels(&channels);
        let arranged_messages = arrange_messages(&messages);
        let ghost given = views(messages@);
        let ghost morder = message_order(given);
        let ghost places = arrangement(given.len() as int, morder);
        proof {
            lemma_timestamps_differ_in_order(given);
            assert forall|i: int, j: int|
                #![trigger arranged_messages@[i], arranged_messages@[j]]
                0 <= i < j < arranged_messages@.len() implies arranged_messages@[i]@.ts.instant()
                <= arranged_messages@[j]@.ts.instant() by {
                let rows = views(arranged_messages@);
                assert(rows[i] == given[places[i]] && rows[j] == given[places[j]]);
                assert(0 <= places[i] < given.len() && 0 <= places[j] < given.len());
                assert(morder(places[i], places[j]));
            }
        }
        if !check_timestamps(&arranged_messages) {
            return Err(TummyError::QueryFailed);
        }
        proof {
            lemma_in_order_is_wf(views(channels@), views(users@), given);
        }
        Ok(Tummy { channels: arranged_channels, users, messages: arranged_messages })
    }

    /// All channels, in the order of their names.
    pub fn get_all_channels(&self) -> (channels: Vec<Channel>)
        ensures
            views(channels@) == self@.channels,
            self@.wf(),
            forall|a: int, b: int|
                #![trigger channels@[a], channels@[b]]
                0 <= a < b < channels@.len() ==> text_before(
                    channels@[a]@.name,
                    channels@[b]@.name,
                ),
    {
        proof {
            use_type_invariant(self);
        }
        let mut channels: Vec<Channel> = Vec::new();
        let mut i: usize = 0;
        while i < self.channels.len()
            invariant
                i <= self.channels@.len(),
                channels@.len() == i,
                forall|k: int| 0 <= k < i ==> (#[trigger] channels@[k])@ == self.channels@[k]@,
            decreases self.channels@.len() - i,
        {
            channels.push(self.channels[i].duplicate());
            i = i + 1;
        }
        assert(views(channels@) =~= self@.channels);
        assert forall|a: int, b: int|
            #![trigger channels@[a], channels@[b]]
            0 <= a < b < channels@.len() implies text_before(
            channels@[a]@.name,
            channels@[b]@.name,
        ) by {
            assert(channels@[a]@ == self@.channels[a] && channels@[b]@ == self@.channels[b]);
        }
        channels
    }

    /// The channel named `channel_name`, or `NotFound` where no channel has
    /// that name.
    pub fn get_channel_info(&self, channel_name: &str) -> (found: Result<Channel, TummyError>)
        ensures
            self@.wf(),
            match found {
                Ok(channel) => exists|i: int|
                    0 <= i < self@.channels.len() && (#[trigger] self@.channels[i]) == channel@
                        && channel@.name == channel_name@,
                Err(e) => e == TummyError::NotFound && forall|i: int|
                    0 <= i < self@.channels.len() ==> (#[trigger] self@.channels[i]).name
                        != channel_name@,
            },
    {
        proof {
            use_type_invariant(self);
        }
        let mut i: usize = 0;
        while i < self.channels.len()
            invariant
                i <= self.channels@.len(),
                self@.wf(),
                forall|k: int|
                    0 <= k < i ==> (#[trigger] self@.channels[k]).name != channel_name@,
            decreases self.channels@.len() - i,
        {
            if same_text(self.channels[i].name.as_str(), channel_name) {
                let channel = self.channels[i].duplicate();
                assert(self@.channels[i as int] == channel@);
                return Ok(channel);
            }
            i = i + 1;
        }
        Err(TummyError::NotFound)
    }

    /// The user with the identifier `user_id`, or `NotFound` where no user
    /// has it.
    pub fn get_user_info(&self, user_id: &str) -> (found: Result<User, TummyError>)
        ensures
            self@.wf(),
            match found {
                Ok(user) => exists|i: int|
                    0 <= i < self@.users.len() && (#[trigger] self@.users[i]) == user@ && user@.id
                        == user_id@,
                Err(e) => e == TummyError::NotFound && !self@.has_user(user_id@),
            },
    {
        proof {
            use_type_invariant(self);
        }
        let mut i: usize = 0;
        while i < self.users.len()
            invariant
                i <= self.users@.len(),
                self@.wf(),
                forall|k: int| 0 <= k < i ==> (#[trigger] self@.users[k]).id != user_id@,
            decreases self.users@.len() - i,
        {
            if same_text(self.users[i].id.as_str(), user_id) {
                let user = self.users[i].duplicate();
                assert(self@.users[i as int] == user@);
                return Ok(user);
            }
            i = i + 1;
        }
        Err(TummyError::NotFound)
    }

    /// The author of the message at `position`.
    fn author_of(&self, position: usize) -> (author: User)
        requires
            position < self@.messages.len(),
        ensures
            author@ == self@.users[self@.author_index(position as int)],
    {
        proof {
            use_type_invariant(self);
        }
        let ghost wanted = self@.messages[position as int].user_id;
        assert(self@.has_user(wanted));
        let total = self.users.len();
        let mut u: usize = 0;
        loop
            invariant
                total == self@.users.len(),
                position < self@.messages.len(),
                wanted == self@.messages[position as int].user_id,
                self@.wf(),
                exists|w: int|
                    u <= w < self@.users.len() && (#[trigger] self@.users[w]).id == wanted,
            decreases self@.users.len() - u,
        {
            if self.users[u].id == self.messages[position].user_id {
                let ghost chosen = self@.author_index(position as int);
                assert(self@.users[u as int].id == wanted);
                assert(0 <= chosen < self@.users.len() && self@.users[chosen].id == wanted);
                assert(chosen == u) by {
                    if chosen < u {
                        assert(self@.users[chosen].id != self@.users[u as int].id);
                    } else if chosen > u {
                        assert(self@.users[u as int].id != self@.users[chosen].id);
                    }
                }
                return self.users[u].duplicate();
            }
            proof {
                let w = choose|w: int|
                    u <= w < self@.users.len() && (#[trigger] self@.users[w]).id == wanted;
                assert(self@.users[u as int].id != wanted);
                assert(w > u);
            }
            u = u + 1;
        }
    }

    /// Whether the message at `position` is a reply, in `channel_id`, to
    /// what `parent_user_id` sent at `parent_ts`.
    fn is_reply_at(
        &self,
        position: usize,
        channel_id: &str,
        parent_ts: &Timestamp,
        parent_user_id: &str,
    ) -> (yes: bool)
        requires
            position < self@.messages.len(),
        ensures
            yes == self@.messages[position as int].is_reply_to(
                channel_id@,
                parent_ts@,
                parent_user_id@,
            ),
    {
        let message = &self.messages[position];
        if !same_text(message.channel_id.as_str(), channel_id) {
            return false;
        }
        if !same_text(message.parent_user_id.as_str(), parent_user_id) {
            return false;
        }
        match &message.thread_ts {
            Some(t) => t.same_as(parent_ts),
            None => false,
        }
    }

    /// The number of replies, in `channel_id`, to what `parent_user_id` sent
    /// at `parent_ts`.
    pub fn count_replies(&self, channel_id: &str, parent_ts: &Timestamp, parent_user_id: &str) -> (count:
        u64)
        ensures
            count == self@.reply_count(channel_id@, parent_ts@, parent_user_id@),
    {
        let ghost wanted = self@.thread_wanted(channel_id@, parent_ts@, parent_user_id@);
        let mut count: usize = 0;
        let mut j: usize = 0;
        while j < self.messages.len()
            invariant
                j <= self@.messages.len(),
                self@.messages.len() == self.messages@.len(),
                wanted == self@.thread_wanted(channel_id@, parent_ts@, parent_user_id@),
                count == count_wanted(j as int, wanted),
                count <= j,
            decreases self@.messages.len() - j,
        {
            if self.is_reply_at(j, channel_id, parent_ts, parent_user_id) {
                count = count + 1;
            }
            j = j + 1;
        }
        count as u64
    }

    /// The row of a page for the message at `position`.
    fn parent_row_at(&self, position: usize) -> (row: ParentMessage)
        requires
            position < self@.messages.len(),
        ensures
            row@ == self@.parent_row(position as int),
    {
        let message = self.messages[position].duplicate();
        let author = self.author_of(position);
        let reply_count = self.count_replies(
            message.channel_id.as_str(),
            &message.ts,
            message.user_id.as_str(),
        );
        ParentMessage { message, author, reply_count }
    }

    /// Whether the message at `position` belongs on the pages of
    /// `channel_id` after `cursor` and `since`.
    fn on_page_at(
        &self,
        position: usize,
        channel_id: &str,
        cursor: &Option<Timestamp>,
        since: &Timestamp,
    ) -> (yes: bool)
        requires
            position < self@.messages.len(),
        ensures
            yes == self@.on_page(position as int, channel_id@, moment_of(*cursor), since@),
    {
        let message = &self.messages[position];
        if !same_text(message.channel_id.as_str(), channel_id) {
            return false;
        }
        if !message.parent_user_id.as_str().is_empty() {
            return false;
        }
        if !since.is_before(&message.ts) {
            return false;
        }
        match cursor {
            Some(c) => c.is_before(&message.ts),
            None => true,
        }
    }

    /// One page of the top-level messages of `channel_id`: the first
    /// `msgs_per_page` of them that are later than `since_timestamp` and,
    /// where `last_msg_timestamp` is given, later than that, from the
    /// earliest on, each with its author and the number of its replies. For
    /// the page after this one, pass the timestamp of its last row as
    /// `last_msg_timestamp`.
    pub fn fetch_msg_page(
        &self,
        channel_id: &str,
        last_msg_timestamp: &Option<Timestamp>,
        msgs_per_page: &u32,
        since_timestamp: &Timestamp,
    ) -> (page: Vec<ParentMessage>)
        ensures
            self@.wf(),
            self@.is_page(
                channel_id@,
                moment_of(*last_msg_timestamp),
                *msgs_per_page as int,
                since_timestamp@,
                self@.page_positions(
                    channel_id@,
                    moment_of(*last_msg_timestamp),
                    *msgs_per_page as int,
                    since_timestamp@,
                ),
            ),
            views(page@) == self@.page(
                channel_id@,
                moment_of(*last_msg_timestamp),
                *msgs_per_page as int,
                since_timestamp@,
            ),
            page@.len() <= *msgs_per_page,
            forall|k: int|
                0 <= k < page@.len() ==> {
                    let row = (#[trigger] page@[k])@;
                    &&& row.message.channel_id == channel_id@
                    &&& row.message.is_top_level()
                    &&& row.message.ts.instant() > since_timestamp@.instant()
                    &&& last_msg_timestamp matches Some(c) ==> row.message.ts.instant()
                        > c@.instant()
                    &&& row.author.id == row.message.user_id
                    &&& row.reply_count == self@.reply_count(
                        row.message.channel_id,
                        row.message.ts,
                        row.message.user_id,
                    )
                },
            forall|a: int, b: int|
                #![trigger page@[a], page@[b]]
                0 <= a < b < page@.len() ==> page@[a]@.message.ts.instant()
                    < page@[b]@.message.ts.instant(),
    {
        proof {
            use_type_invariant(self);
        }
        let n = self.messages.len();
        let limit: usize = *msgs_per_page as usize;
        let ghost cursor = moment_of(*last_msg_timestamp);
        let ghost wanted = self@.page_wanted(channel_id@, cursor, since_timestamp@);
        let mut page: Vec<ParentMessage> = Vec::new();
        let ghost mut picked: Seq<int> = Seq::empty();
        let mut i: usize = 0;
        while i < n && page.len() < limit
            invariant
                i <= n,
                n == self@.messages.len(),
                limit == *msgs_per_page,
                cursor == moment_of(*last_msg_timestamp),
                wanted == self@.page_wanted(channel_id@, cursor, since_timestamp@),
                is_leading(i as int, wanted, by_position(), None, picked),
                page@.len() == picked.len(),
                page@.len() <= limit,
                forall|k: int|
                    0 <= k < picked.len() ==> (#[trigger] page@[k])@ == self@.parent_row(picked[k]),
            decreases n - i,
        {
            if self.on_page_at(i, channel_id, last_msg_timestamp, since_timestamp) {
                let row = self.parent_row_at(i);
                page.push(row);
                proof {
                    lemma_leading_push(i as int, wanted, picked);
                    picked = picked.push(i as int);
                }
            } else {
                proof {
                    lemma_leading_skip(i as int, wanted, by_position(), None, picked);
                }
            }
            i = i + 1;
        }
        proof {
            let view = self@;
            let since = since_timestamp@;
            let limit_int = *msgs_per_page as int;
            lemma_leading_stop(n as int, i as int, wanted, limit_int, picked);
            assert(view.is_page(channel_id@, cursor, limit_int, since, picked));
            let chosen = view.page_positions(channel_id@, cursor, limit_int, since);
            assert(view.is_page(channel_id@, cursor, limit_int, since, chosen));
            lemma_by_position_strict(n as int);
            lemma_leading_unique(n as int, wanted, by_position(), Some(limit_int), picked, chosen);
            assert(views(page@) =~= view.page(channel_id@, cursor, limit_int, since));
            assert forall|k: int| 0 <= k < page@.len() implies {
                let row = (#[trigger] page@[k])@;
                &&& row.message.channel_id == channel_id@
                &&& row.message.is_top_level()
                &&& row.message.ts.instant() > since.instant()
                &&& last_msg_timestamp matches Some(c) ==> row.message.ts.instant() > c@.instant()
                &&& row.author.id == row.message.user_id
                &&& row.reply_count == view.reply_count(
                    row.message.channel_id,
                    row.message.ts,
                    row.message.user_id,
                )
            } by {
                let p = picked[k];
                assert(0 <= p < n && wanted(p));
                assert(page@[k]@ == view.parent_row(p));
                assert(view.has_user(view.messages[p].user_id));
            }
            assert forall|a: int, b: int|
                #![trigger page@[a], page@[b]]
                0 <= a < b < page@.len() implies page@[a]@.message.ts.instant()
                < page@[b]@.message.ts.instant() by {
                let p = picked[a];
                let q = picked[b];
                assert(0 <= p < n && wanted(p));
                assert(0 <= q < n && wanted(q));
                assert(by_position()(p, q));
                assert(page@[a]@ == view.parent_row(p));
                assert(page@[b]@ == view.parent_row(q));
                assert(view.messages[p].channel_id == view.messages[q].channel_id);
            }
        }
        page
    }

    /// All replies, in `channel_id`, to what `parent_user_id` sent at
    /// `parent_ts`, from the earliest on, each with its author. The list is
    /// empty where there are none.
    pub fn replies_of(&self, parent_ts: &Timestamp, channel_id: &str, parent_user_id: &str) -> (replies:
        Vec<ReplyMessage>)
        ensures
            self@.wf(),
            self@.is_thread(
                channel_id@,
                parent_ts@,
                parent_user_id@,
                self@.thread_positions(channel_id@, parent_ts@, parent_user_id@),
            ),
            views(replies@) == self@.thread(channel_id@, parent_ts@, parent_user_id@),
            replies@.len() == self@.reply_count(channel_id@, parent_ts@, parent_user_id@),
            forall|k: int|
                0 <= k < replies@.len() ==> {
                    let row = (#[trigger] replies@[k])@;
                    &&& row.message.is_reply_to(channel_id@, parent_ts@, parent_user_id@)
                    &&& row.author.id == row.message.user_id
                    &&& parent_user_id@.len() > 0 ==> !row.message.is_top_level()
                },
            forall|a: int, b: int|
                #![trigger replies@[a], replies@[b]]
                0 <= a < b < replies@.len() ==> replies@[a]@.message.ts.instant()
                    < replies@[b]@.message.ts.instant(),
    {
        proof {
            use_type_invariant(self);
        }
        let n = self.messages.len();
        let ghost wanted = self@.thread_wanted(channel_id@, parent_ts@, parent_user_id@);
        let mut replies: Vec<ReplyMessage> = Vec::new();
        let ghost mut picked: Seq<int> = Seq::empty();
        let mut i: usize = 0;
        while i < n
            invariant
                i <= n,
                n == self@.messages.len(),
                wanted == self@.thread_wanted(channel_id@, parent_ts@, parent_user_id@),
                is_leading(i as int, wanted, by_position(), None, picked),
                replies@.len() == picked.len(),
                forall|k: int|
                    0 <= k < picked.len() ==> (#[trigger] replies@[k])@ == self@.reply_row(
                        picked[k],
                    ),
            decreases n - i,
        {
            if self.is_reply_at(i, channel_id, parent_ts, parent_user_id) {
                let row = ReplyMessage {
                    message: self.messages[i].duplicate(),
                    author: self.author_of(i),
                };
                replies.push(row);
                proof {
                    lemma_leading_push(i as int, wanted, picked);
                    picked = picked.push(i as int);
                }
            } else {
                proof {
                    lemma_leading_skip(i as int, wanted, by_position(), None, picked);
                }
            }
            i = i + 1;
        }
        proof {
            let view = self@;
            assert(view.is_thread(channel_id@, parent_ts@, parent_user_id@, picked));
            let chosen = view.thread_positions(channel_id@, parent_ts@, parent_user_id@);
            assert(view.is_thread(channel_id@, parent_ts@, parent_user_id@, chosen));
            lemma_by_position_strict(n as int);
            lemma_leading_unique(n as int, wanted, by_position(), None, picked, chosen);
            assert(views(replies@) =~= view.thread(channel_id@, parent_ts@, parent_user_id@));
            lemma_all_in_order_count(n as int, wanted, picked);
            assert forall|k: int| 0 <= k < replies@.len() implies {
                let row = (#[trigger] replies@[k])@;
                &&& row.message.is_reply_to(channel_id@, parent_ts@, parent_user_id@)
                &&& row.author.id == row.message.user_id
                &&& parent_user_id@.len() > 0 ==> !row.message.is_top_level()
            } by {
                let p = picked[k];
                assert(0 <= p < n && wanted(p));
                assert(replies@[k]@ == view.reply_row(p));
                assert(view.has_user(view.messages[p].user_id));
            }
            assert forall|a: int, b: int|
                #![trigger replies@[a], replies@[b]]
                0 <= a < b < replies@.len() implies replies@[a]@.message.ts.instant()
                < replies@[b]@.message.ts.instant() by {
                let p = picked[a];
                let q = picked[b];
                assert(0 <= p < n && wanted(p));
                assert(0 <= q < n && wanted(q));
                assert(by_position()(p, q));
                assert(replies@[a]@ == view.reply_row(p));
                assert(replies@[b]@ == view.reply_row(q));
                assert(view.messages[p].channel_id == view.messages[q].channel_id);
            }
        }
        replies
    }

    /// The first `limit` messages that answer `query` among those that
    /// `filter` admits, the best first: the higher score comes first, and of
    /// two messages with the same score the one that stands later in the
    /// archive, which is no earlier in time. Each row holds the message, its
    /// author and its score under `weights`.
    pub fn search_ranked(
        &self,
        query: &SearchQuery,
        filter: &SearchFilter,
        weights: &RankWeights,
        limit: u64,
    ) -> (found: Vec<SearchResult>)
        ensures
            self@.wf(),
            self@.is_search(
                query@,
                filter@,
                *weights,
                limit as int,
                self@.search_positions(query@, filter@, *weights, limit as int),
            ),
            views(found@) == self@.search(query@, filter@, *weights, limit as int),
            found@.len() == capped(
                count_wanted(self@.messages.len() as int, self@.search_wanted(query@, filter@)),
                Some(limit as int),
            ),
            found@.len() <= limit,
            forall|k: int|
                0 <= k < found@.len() ==> {
                    let row = (#[trigger] found@[k])@;
                    &&& filter@.admits(row.message)
                    &&& query@.matches(words(bytes_of(row.message.msg_text)))
                    &&& row.rank == query@.rank(*weights, words(bytes_of(row.message.msg_text)))
                    &&& row.author.id == row.message.user_id
                },
            forall|a: int, b: int|
                #![trigger found@[a], found@[b]]
                0 <= a < b < found@.len() ==> found@[a]@.rank >= found@[b]@.rank && (
                found@[a]@.rank == found@[b]@.rank ==> found@[a]@.message.ts.instant()
                    >= found@[b]@.message.ts.instant()),
    {
        proof {
            use_type_invariant(self);
        }
        let n = self.messages.len();
        let ghost view = self@;
        let ghost wanted = view.search_wanted(query@, filter@);
        let ghost before = view.search_order(query@, *weights);
        let mut keys: Vec<Option<Hit>> = Vec::new();
        let mut i: usize = 0;
        while i < n
            invariant
                i <= n,
                n == self@.messages.len(),
                view == self@,
                wanted == view.search_wanted(query@, filter@),
                keys@.len() == i,
                forall|k: int|
                    0 <= k < i ==> ((#[trigger] keys@[k]) is Some) == wanted(k),
                forall|k: int|
                    0 <= k < i && (#[trigger] keys@[k]) is Some ==> keys@[k]->0.rank
                        == view.rank_at(k, query@, *weights) && keys@[k]->0.position == k,
            decreases n - i,
        {
            let message = &self.messages[i];
            let mut key: Option<Hit> = None;
            if filter.admits(message) {
                let doc = crate::search::tokenize(message.msg_text.as_str().as_bytes());
                if query.matches(&doc) {
                    key = Some(Hit { rank: query.rank(&doc, weights), position: i });
                }
            }
            keys.push(key);
            i = i + 1;
        }
        let cap: Option<usize> = if limit > usize::MAX as u64 {
            None
        } else {
            Some(limit as usize)
        };
        let picked = leading(&keys, cap);
        let taken = picked.len();
        let ghost places = positions(picked@);
        proof {
            let limit_int = limit as int;
            assert(places.len() == taken);
            view.lemma_search_order_strict(query@, *weights);
            lemma_leading_congruent(
                n as int,
                has_key(keys@),
                key_order(keys@),
                wanted,
                before,
                cap_of(cap),
                places,
            );
            lemma_count_congruent(n as int, has_key(keys@), wanted);
            if cap is None {
                lemma_leading_fits(n as int, wanted, before, places, limit_int);
            }
            assert(view.is_search(query@, filter@, *weights, limit_int, places));
            let chosen = view.search_positions(query@, filter@, *weights, limit_int);
            assert(view.is_search(query@, filter@, *weights, limit_int, chosen));
            lemma_leading_unique(n as int, wanted, before, Some(limit_int), places, chosen);
        }
        let mut found: Vec<SearchResult> = Vec::new();
        let mut k: usize = 0;
        while k < picked.len()
            invariant
                k <= picked@.len(),
                n == self@.messages.len(),
                view == self@,
                keys@.len() == n,
                places == positions(picked@),
                wanted == view.search_wanted(query@, filter@),
                forall|a: int| 0 <= a < places.len() ==> 0 <= #[trigger] places[a] < n && wanted(places[a]),
                forall|j: int|
                    0 <= j < n ==> ((#[trigger] keys@[j]) is Some) == wanted(j),
                forall|j: int|
                    0 <= j < n && (#[trigger] keys@[j]) is Some ==> keys@[j]->0.rank
                        == view.rank_at(j, query@, *weights),
                found@.len() == k,
                forall|a: int|
                    0 <= a < k ==> (#[trigger] found@[a])@ == view.result_row(
                        places[a],
                        query@,
                        *weights,
                    ),
            decreases picked@.len() - k,
        {
            let position = picked[k];
            assert(0 <= places[k as int] < n && wanted(places[k as int]));
            assert(keys@[position as int] is Some);
            let rank = match &keys[position] {
                Some(hit) => hit.rank,
                None => 0,
            };
            found.push(
                SearchResult {
                    message: self.messages[position].duplicate(),
                    author: self.author_of(position),
                    rank,
                },
            );
            k = k + 1;
        }
        proof {
            let limit_int = limit as int;
            assert(views(found@) =~= view.search(query@, filter@, *weights, limit_int));
            assert forall|k: int| 0 <= k < found@.len() implies {
                let row = (#[trigger] found@[k])@;
                &&& filter@.admits(row.message)
                &&& query@.matches(words(bytes_of(row.message.msg_text)))
                &&& row.rank == query@.rank(*weights, words(bytes_of(row.message.msg_text)))
                &&& row.author.id == row.message.user_id
            } by {
                let p = places[k];
                assert(0 <= p < n && wanted(p));
                assert(found@[k]@ == view.result_row(p, query@, *weights));
                assert(view.has_user(view.messages[p].user_id));
            }
            assert forall|a: int, b: int|
                #![trigger found@[a], found@[b]]
                0 <= a < b < found@.len() implies found@[a]@.rank >= found@[b]@.rank && (
            found@[a]@.rank == found@[b]@.rank ==> found@[a]@.message.ts.instant()
                >= found@[b]@.message.ts.instant()) by {
                let p = places[a];
                let q = places[b];
                assert(0 <= p < n && wanted(p));
                assert(0 <= q < n && wanted(q));
                assert(before(p, q));
                assert(found@[a]@ == view.result_row(p, query@, *weights));
                assert(found@[b]@ == view.result_row(q, query@, *weights));
                if p > q {
                    assert(view.messages[q].ts.instant() <= view.messages[p].ts.instant());
                }
            }
        }
        found
    }

    /// The first `limit` messages that answer the query text among those of
    /// the channel and of the user that are named, the best first, scored
    /// with the weights 2 for a word and 4 for a phrase; see
    /// [`Tummy::search_ranked`]. A negative `limit` gives `QueryFailed`.
    pub fn search_msg_text(
        &self,
        query_text: &str,
        channel_id: Option<&str>,
        user_id: Option<&str>,
        limit: i64,
    ) -> (found: Result<Vec<SearchResult>, TummyError>)
        ensures
            self@.wf(),
            limit < 0 ==> found == Err::<Vec<SearchResult>, TummyError>(TummyError::QueryFailed),
            limit >= 0 ==> (found matches Ok(rows) && {
                let query = parse(bytes_of(query_text@));
                let filter = (SearchFilter { channel_id, user_id })@;
                let weights = RankWeights { term: TERM_WEIGHT, phrase: PHRASE_WEIGHT };
                &&& views(rows@) == self@.search(query, filter, weights, limit as int)
                &&& rows@.len() <= limit
                &&& forall|k: int|
                    0 <= k < rows@.len() ==> {
                        let row = (#[trigger] rows@[k])@;
                        &&& filter.admits(row.message)
                        &&& query.matches(words(bytes_of(row.message.msg_text)))
                        &&& row.rank == query.rank(weights, words(bytes_of(row.message.msg_text)))
                    }
                &&& forall|a: int, b: int|
                    #![trigger rows@[a], rows@[b]]
                    0 <= a < b < rows@.len() ==> rows@[a]@.rank >= rows@[b]@.rank && (
                    rows@[a]@.rank == rows@[b]@.rank ==> rows@[a]@.message.ts.instant()
                        >= rows@[b]@.message.ts.instant())
            }),
    {
        proof {
            use_type_invariant(self);
        }
        if limit < 0 {
            return Err(TummyError::QueryFailed);
        }
        let query = SearchQuery::parse(query_text.as_bytes());
        let filter = SearchFilter { channel_id, user_id };
        let weights = RankWeights::standard();
        Ok(self.search_ranked(&query, &filter, &weights, limit as u64))
    }

    /// All replies, in `channel_id`, to what `user_id` sent at the time that
    /// `message_ts` names in the store's text notation; see
    /// [`Tummy::replies_of`]. A text that names no time gives
    /// `MalformedTimestamp`.
    pub fn fetch_replies(&self, message_ts: &str, channel_id: &str, user_id: &str) -> (replies:
        Result<Vec<ReplyMessage>, TummyError>)
        ensures
            self@.wf(),
            pg_ts_moment(message_ts@) is None ==> replies == Err::<Vec<ReplyMessage>, TummyError>(
                TummyError::MalformedTimestamp,
            ),
            pg_ts_moment(message_ts@) matches Some(parent_ts) ==> (replies matches Ok(rows) && {
                &&& views(rows@) == self@.thread(channel_id@, parent_ts, user_id@)
                &&& rows@.len() == self@.reply_count(channel_id@, parent_ts, user_id@)
                &&& forall|k: int|
                    0 <= k < rows@.len() ==> {
                        let row = (#[trigger] rows@[k])@;
                        &&& row.message.is_reply_to(channel_id@, parent_ts, user_id@)
                        &&& row.author.id == row.message.user_id
                        &&& user_id@.len() > 0 ==> !row.message.is_top_level()
                    }
                &&& forall|a: int, b: int|
                    #![trigger rows@[a], rows@[b]]
                    0 <= a < b < rows@.len() ==> rows@[a]@.message.ts.instant()
                        < rows@[b]@.message.ts.instant()
            }),
    {
        proof {
            use_type_invariant(self);
        }
        match from_pg_ts(message_ts) {
            Ok(parent_ts) => Ok(self.replies_of(&parent_ts, channel_id, user_id)),
            Err(_) => Err(TummyError::MalformedTimestamp),
        }
    }
}

} // verus!
