//! What the pages of the archive show: the records that the rendering layer
//! fills its pages from.

use vstd::prelude::*;

use crate::error::TummyError;
use crate::models::{Channel, Message, ParentMessage, User};

verus! {

/// The frame that every page stands in.
#[derive(Clone, Copy, Debug, PartialEq, Eq, Structural)]
pub struct Base;

/// The start page: the list of channels.
#[derive(Clone, Debug, PartialEq, Eq)]
pub struct IndexTemplate {
    pub channels: Vec<Channel>,
}

/// The page that tells of an error.
#[derive(Clone, Debug, PartialEq, Eq)]
pub struct ErrTemplate {
    pub err_string: String,
}

/// The page of one channel.
#[derive(Clone, Debug, PartialEq, Eq)]
pub struct ChannelTemplate {
    pub channel: Channel,
}

/// One page of the messages of a channel, each with its author, and the
/// cursor to ask for the next page with.
#[derive(Clone, Debug, PartialEq, Eq)]
pub struct ChannelPageTemplate {
    pub messages: Vec<(Message, User)>,
    pub last_msg_timestamp: String,
    pub channel_name: String,
}

/// The picture shown for a user who has none.
#[derive(Clone, Copy, Debug, PartialEq, Eq, Structural)]
pub struct FallbackAvatarTemplate;

impl ErrTemplate {
    /// The page for `error`, with the sentence of the error on it.
    pub fn of(error: &TummyError) -> (page: ErrTemplate)
        ensures
            page.err_string@ == error.sentence(),
    {
        ErrTemplate { err_string: error.message() }
    }
}

impl ChannelPageTemplate {
    /// The page that shows `rows`: every row's message with its author, in
    /// the order of the rows, under the given cursor text and channel name.
    pub fn of(rows: &Vec<ParentMessage>, last_msg_timestamp: String, channel_name: String) -> (page:
        ChannelPageTemplate)
        ensures
            page.last_msg_timestamp@ == last_msg_timestamp@,
            page.channel_name@ == channel_name@,
            page.messages@.len() == rows@.len(),
            forall|k: int|
                0 <= k < rows@.len() ==> (#[trigger] page.messages@[k]).0@ == rows@[k]@.message
                    && page.messages@[k].1@ == rows@[k]@.author,
    {
        let mut messages: Vec<(Message, User)> = Vec::new();
        let mut k: usize = 0;
        while k < rows.len()
            invariant
                k <= rows@.len(),
                messages@.len() == k,
                forall|j: int|
                    0 <= j < k ==> (#[trigger] messages@[j]).0@ == rows@[j]@.message
                        && messages@[j].1@ == rows@[j]@.author,
            decreases rows@.len() - k,
        {
            messages.push((rows[k].message.duplicate(), rows[k].author.duplicate()));
            k = k + 1;
        }
        ChannelPageTemplate { messages, last_msg_timestamp, channel_name }
    }
}

} // verus!
