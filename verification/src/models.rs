//! The records of the archive and the rows that queries hand out.

use vstd::prelude::*;

use crate::timestamp::{Moment, Timestamp};

verus! {

/// A channel of the archive.
#[derive(Clone, Debug, PartialEq, Eq)]
pub struct Channel {
    pub id: String,
    pub name: String,
    pub topic: String,
    pub purpose: String,
}

/// What a [`Channel`] holds.
pub struct ChannelView {
    pub id: Seq<char>,
    pub name: Seq<char>,
    pub topic: Seq<char>,
    pub purpose: Seq<char>,
}

impl View for Channel {
    type V = ChannelView;

    open spec fn view(&self) -> ChannelView {
        ChannelView { id: self.id@, name: self.name@, topic: self.topic@, purpose: self.purpose@ }
    }
}

impl Channel {
    /// A copy of the channel.
    pub fn duplicate(&self) -> (copy: Channel)
        ensures
            copy@ == self@,
    {
        Channel {
            id: self.id.clone(),
            name: self.name.clone(),
            topic: self.topic.clone(),
            purpose: self.purpose.clone(),
        }
    }
}

/// A member of the workspace.
#[derive(Clone, Debug, PartialEq, Eq)]
pub struct User {
    pub id: String,
    pub name: String,
    pub real_name: String,
    pub display_name: String,
    pub image_url: String,
    pub email: String,
    pub deleted: bool,
    pub is_bot: bool,
}

/// What a [`User`] holds.
pub struct UserView {
    pub id: Seq<char>,
    pub name: Seq<char>,
    pub real_name: Seq<char>,
    pub display_name: Seq<char>,
    pub image_url: Seq<char>,
    pub email: Seq<char>,
    pub deleted: bool,
    pub is_bot: bool,
}

impl View for User {
    type V = UserView;

    open spec fn view(&self) -> UserView {
        UserView {
            id: self.id@,
            name: self.name@,
            real_name: self.real_name@,
            display_name: self.display_name@,
            image_url: self.image_url@,
            email: self.email@,
            deleted: self.deleted,
            is_bot: self.is_bot,
        }
    }
}

impl User {
    /// A copy of the user.
    pub fn duplicate(&self) -> (copy: User)
        ensures
            copy@ == self@,
    {
        User {
            id: self.id.clone(),
            name: self.name.clone(),
            real_name: self.real_name.clone(),
            display_name: self.display_name.clone(),
            image_url: self.image_url.clone(),
            email: self.email.clone(),
            deleted: self.deleted,
            is_bot: self.is_bot,
        }
    }
}

/// A message as the store holds it. It is a top-level message where
/// `parent_user_id` is empty, and else a reply to the message of
/// `parent_user_id` that was sent at `thread_ts` in the same channel.
#[derive(Clone, Debug, PartialEq, Eq)]
pub struct Message {
    pub channel_id: String,
    pub user_id: String,
    pub msg_text: String,
    pub ts: Timestamp,
    pub thread_ts: Option<Timestamp>,
    pub parent_user_id: String,
}

/// What a [`Message`] holds.
pub struct MessageView {
    pub channel_id: Seq<char>,
    pub user_id: Seq<char>,
    pub msg_text: Seq<char>,
    pub ts: Moment,
    pub thread_ts: Option<Moment>,
    pub parent_user_id: Seq<char>,
}

/// The reading of a timestamp that may be absent.
pub open spec fn moment_of(ts: Option<Timestamp>) -> Option<Moment> {
    match ts {
        Some(t) => Some(t@),
        None => None,
    }
}

impl View for Message {
    type V = MessageView;

    open spec fn view(&self) -> MessageView {
        MessageView {
            channel_id: self.channel_id@,
            user_id: self.user_id@,
            msg_text: self.msg_text@,
            ts: self.ts@,
            thread_ts: moment_of(self.thread_ts),
            parent_user_id: self.parent_user_id@,
        }
    }
}

impl MessageView {
    /// The message is no reply.
    pub open spec fn is_top_level(self) -> bool {
        self.parent_user_id.len() == 0
    }

    /// The message is a reply, in `channel_id`, to what `parent_user_id`
    /// sent at `parent_ts`.
    pub open spec fn is_reply_to(
        self,
        channel_id: Seq<char>,
        parent_ts: Moment,
        parent_user_id: Seq<char>,
    ) -> bool {
        &&& self.channel_id == channel_id
        &&& self.thread_ts == Some(parent_ts)
        &&& self.parent_user_id == parent_user_id
    }
}

impl Message {
    /// A copy of the message.
    pub fn duplicate(&self) -> (copy: Message)
        ensures
            copy@ == self@,
    {
        Message {
            channel_id: self.channel_id.clone(),
            user_id: self.user_id.clone(),
            msg_text: self.msg_text.clone(),
            ts: self.ts,
            thread_ts: self.thread_ts,
            parent_user_id: self.parent_user_id.clone(),
        }
    }
}

/// A top-level message with its author and the number of its replies.
#[derive(Clone, Debug, PartialEq, Eq)]
pub struct ParentMessage {
    pub message: Message,
    pub author: User,
    pub reply_count: u64,
}

/// What a [`ParentMessage`] holds.
pub struct ParentMessageView {
    pub message: MessageView,
    pub author: UserView,
    pub reply_count: int,
}

impl View for ParentMessage {
    type V = ParentMessageView;

    open spec fn view(&self) -> ParentMessageView {
        ParentMessageView {
            message: self.message@,
            author: self.author@,
            reply_count: self.reply_count as int,
        }
    }
}

/// A message with its author, as a thread lists it.
#[derive(Clone, Debug, PartialEq, Eq)]
pub struct ReplyMessage {
    pub message: Message,
    pub author: User,
}

/// What a [`ReplyMessage`] holds.
pub struct ReplyMessageView {
    pub message: MessageView,
    pub author: UserView,
}

impl View for ReplyMessage {
    type V = ReplyMessageView;

    open spec fn view(&self) -> ReplyMessageView {
        ReplyMessageView { message: self.message@, author: self.author@ }
    }
}

/// A message that a search found, with its author and its relevance score.
#[derive(Clone, Debug, PartialEq, Eq)]
pub struct SearchResult {
    pub message: Message,
    pub author: User,
    pub rank: u64,
}

/// What a [`SearchResult`] holds.
pub struct SearchResultView {
    pub message: MessageView,
    pub author: UserView,
    pub rank: int,
}

impl View for SearchResult {
    type V = SearchResultView;

    open spec fn view(&self) -> SearchResultView {
        SearchResultView { message: self.message@, author: self.author@, rank: self.rank as int }
    }
}

/// What a list of records holds, record by record.
pub open spec fn views<T: View>(rows: Seq<T>) -> Seq<T::V> {
    Seq::new(rows.len(), |i: int| rows[i]@)
}

} // verus!
