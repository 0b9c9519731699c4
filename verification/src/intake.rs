//! Taking rows in: the rules that rows must keep to be made an archive of,
//! and the order that the archive keeps them in.

use vstd::prelude::*;

use crate::models::{views, Channel, ChannelView, Message, MessageView, User, UserView};
use crate::order::{has_key, key_order, leading, lemma_key_order_strict, positions};
use crate::selection::{
    arrangement, every, in_order, is_leading, is_strict_order, lemma_count_all,
    lemma_leading_congruent, lemma_leading_unique, lemma_strict_congruent,
};
use crate::text::{bytes_of, lemma_text_order, text_before, TextKey};
use crate::timestamp::Timestamp;
use crate::tummy::TummyView;

verus! {

/// No two of the users have the same identifier.
pub open spec fn user_ids_differ(users: Seq<UserView>) -> bool {
    forall|i: int, j: int|
        #![trigger users[i], users[j]]
        0 <= i < j < users.len() ==> users[i].id != users[j].id
}

/// No two of the channels have the same identifier or the same name.
pub open spec fn channels_differ(channels: Seq<ChannelView>) -> bool {
    forall|i: int, j: int|
        #![trigger channels[i], channels[j]]
        0 <= i < j < channels.len() ==> channels[i].id != channels[j].id && channels[i].name
            != channels[j].name
}

/// One of the users has the identifier `id`.
pub open spec fn names_user(users: Seq<UserView>, id: Seq<char>) -> bool {
    exists|u: int| 0 <= u < users.len() && (#[trigger] users[u]).id == id
}

/// One of the channels has the identifier `id`.
pub open spec fn names_channel(channels: Seq<ChannelView>, id: Seq<char>) -> bool {
    exists|c: int| 0 <= c < channels.len() && (#[trigger] channels[c]).id == id
}

/// Every message names a user and a channel that are there.
pub open spec fn references_resolve(
    channels: Seq<ChannelView>,
    users: Seq<UserView>,
    messages: Seq<MessageView>,
) -> bool {
    forall|m: int|
        0 <= m < messages.len() ==> names_user(users, (#[trigger] messages[m]).user_id)
            && names_channel(channels, messages[m].channel_id)
}

/// No two messages of one channel have the same timestamp.
pub open spec fn timestamps_differ(messages: Seq<MessageView>) -> bool {
    forall|i: int, j: int|
        #![trigger messages[i], messages[j]]
        0 <= i < j < messages.len() && messages[i].channel_id == messages[j].channel_id
            ==> messages[i].ts.instant() != messages[j].ts.instant()
}

/// The rows keep the rules that an archive is held to.
pub open spec fn rows_admissible(
    channels: Seq<ChannelView>,
    users: Seq<UserView>,
    messages: Seq<MessageView>,
) -> bool {
    &&& user_ids_differ(users)
    &&& channels_differ(channels)
    &&& references_resolve(channels, users, messages)
    &&& timestamps_differ(messages)
}

/// The order of channels by name; of two with the same name the one that
/// stands first comes first.
pub open spec fn channel_order(channels: Seq<ChannelView>) -> spec_fn(int, int) -> bool {
    |i: int, j: int|
        text_before(channels[i].name, channels[j].name) || (!text_before(
            channels[j].name,
            channels[i].name,
        ) && i < j)
}

/// The order of messages by timestamp; of two with the same timestamp the
/// one that stands first comes first.
pub open spec fn message_order(messages: Seq<MessageView>) -> spec_fn(int, int) -> bool {
    |i: int, j: int|
        messages[i].ts.instant() < messages[j].ts.instant() || (messages[i].ts.instant()
            == messages[j].ts.instant() && i < j)
}

/// Whether two messages of one channel share a timestamp does not depend on
/// the order the messages stand in.
pub proof fn lemma_timestamps_differ_in_order(messages: Seq<MessageView>)
    requires
        is_strict_order(messages.len() as int, message_order(messages)),
        is_leading(
            messages.len() as int,
            every(),
            message_order(messages),
            None,
            arrangement(messages.len() as int, message_order(messages)),
        ),
        arrangement(messages.len() as int, message_order(messages)).len() == messages.len(),
    ensures
        timestamps_differ(messages) == timestamps_differ(
            in_order(messages, message_order(messages)),
        ),
{
    let n = messages.len() as int;
    let before = message_order(messages);
    let p = arrangement(n, before);
    let arranged = in_order(messages, before);
    if timestamps_differ(messages) {
        assert forall|a: int, b: int|
            #![trigger arranged[a], arranged[b]]
            0 <= a < b < arranged.len() && arranged[a].channel_id
                == arranged[b].channel_id implies arranged[a].ts.instant()
            != arranged[b].ts.instant() by {
            let i = p[a];
            let j = p[b];
            assert(0 <= i < n && 0 <= j < n);
            assert(before(i, j));
            assert(!before(i, i));
            if i < j {
                assert(messages[i].ts.instant() != messages[j].ts.instant());
            } else {
                assert(messages[j].ts.instant() != messages[i].ts.instant());
            }
        }
    }
    if timestamps_differ(arranged) {
        assert forall|i: int, j: int|
            #![trigger messages[i], messages[j]]
            0 <= i < j < messages.len() && messages[i].channel_id
                == messages[j].channel_id implies messages[i].ts.instant()
            != messages[j].ts.instant() by {
            assert(every()(i) && every()(j));
            assert(p.contains(i) && p.contains(j));
            let a = choose|a: int| 0 <= a < p.len() && p[a] == i;
            let b = choose|b: int| 0 <= b < p.len() && p[b] == j;
            if a < b {
                assert(arranged[a].ts.instant() != arranged[b].ts.instant());
            } else {
                assert(arranged[b].ts.instant() != arranged[a].ts.instant());
            }
        }
    }
}

/// Rows that keep the rules make, put in order, a well-formed archive.
pub proof fn lemma_in_order_is_wf(
    channels: Seq<ChannelView>,
    users: Seq<UserView>,
    messages: Seq<MessageView>,
)
    requires
        rows_admissible(channels, users, messages),
        is_strict_order(channels.len() as int, channel_order(channels)),
        is_leading(
            channels.len() as int,
            every(),
            channel_order(channels),
            None,
            arrangement(channels.len() as int, channel_order(channels)),
        ),
        arrangement(channels.len() as int, channel_order(channels)).len() == channels.len(),
        is_strict_order(messages.len() as int, message_order(messages)),
        is_leading(
            messages.len() as int,
            every(),
            message_order(messages),
            None,
            arrangement(messages.len() as int, message_order(messages)),
        ),
        arrangement(messages.len() as int, message_order(messages)).len() == messages.len(),
    ensures
        (TummyView {
            channels: in_order(channels, channel_order(channels)),
            users,
            messages: in_order(messages, message_order(messages)),
        }).wf(),
{
    let nc = channels.len() as int;
    let corder = channel_order(channels);
    let pc = arrangement(nc, corder);
    let ac = in_order(channels, corder);
    let nm = messages.len() as int;
    let morder = message_order(messages);
    let pm = arrangement(nm, morder);
    let am = in_order(messages, morder);
    let made = TummyView { channels: ac, users, messages: am };
    lemma_timestamps_differ_in_order(messages);
    assert forall|a: int, b: int|
        #![trigger ac[a], ac[b]]
        0 <= a < b < ac.len() implies ac[a].id != ac[b].id && text_before(
        ac[a].name,
        ac[b].name,
    ) by {
        let i = pc[a];
        let j = pc[b];
        assert(0 <= i < nc && 0 <= j < nc);
        assert(corder(i, j));
        assert(!corder(i, i));
        lemma_text_order(channels[i].name, channels[j].name);
        if i < j {
            assert(channels[i].id != channels[j].id && channels[i].name != channels[j].name);
        } else {
            assert(channels[j].id != channels[i].id && channels[j].name != channels[i].name);
        }
    }
    assert forall|m: int| 0 <= m < am.len() implies made.has_user((#[trigger] am[m]).user_id)
        && made.has_channel(am[m].channel_id) by {
        let g = pm[m];
        assert(0 <= g < nm);
        assert(names_user(users, messages[g].user_id));
        assert(names_channel(channels, messages[g].channel_id));
        let c = choose|c: int|
            0 <= c < channels.len() && (#[trigger] channels[c]).id == messages[g].channel_id;
        assert(every()(c));
        assert(pc.contains(c));
        let k = choose|k: int| 0 <= k < pc.len() && pc[k] == c;
        assert(made.channels[k].id == am[m].channel_id);
        let u = choose|u: int|
            0 <= u < users.len() && (#[trigger] users[u]).id == messages[g].user_id;
        assert(made.users[u].id == am[m].user_id);
    }
    assert forall|a: int, b: int|
        #![trigger am[a], am[b]]
        0 <= a < b < am.len() implies am[a].ts.instant() <= am[b].ts.instant() by {
        let i = pm[a];
        let j = pm[b];
        assert(0 <= i < nm && 0 <= j < nm);
        assert(morder(i, j));
    }
}

/// Whether no two of the users have the same identifier.
pub(crate) fn check_user_ids(users: &Vec<User>) -> (ok: bool)
    ensures
        ok == user_ids_differ(views(users@)),
{
    let n = users.len();
    let ghost rows = views(users@);
    let mut i: usize = 0;
    while i < n
        invariant
            i <= n,
            n == users@.len(),
            rows == views(users@),
            forall|a: int, b: int|
                #![trigger rows[a], rows[b]]
                0 <= a < i && a < b < n ==> rows[a].id != rows[b].id,
        decreases n - i,
    {
        let mut j: usize = i + 1;
        while j < n
            invariant
                i < j <= n,
                n == users@.len(),
                rows == views(users@),
                forall|b: int| i < b < j ==> rows[i as int].id != (#[trigger] rows[b]).id,
            decreases n - j,
        {
            if users[i].id == users[j].id {
                assert(rows[i as int].id == rows[j as int].id);
                return false;
            }
            j = j + 1;
        }
        i = i + 1;
    }
    true
}

/// Whether no two of the channels have the same identifier or name.
pub(crate) fn check_channels(channels: &Vec<Channel>) -> (ok: bool)
    ensures
        ok == channels_differ(views(channels@)),
{
    let n = channels.len();
    let ghost rows = views(channels@);
    let mut i: usize = 0;
    while i < n
        invariant
            i <= n,
            n == channels@.len(),
            rows == views(channels@),
            forall|a: int, b: int|
                #![trigger rows[a], rows[b]]
                0 <= a < i && a < b < n ==> rows[a].id != rows[b].id && rows[a].name
                    != rows[b].name,
        decreases n - i,
    {
        let mut j: usize = i + 1;
        while j < n
            invariant
                i < j <= n,
                n == channels@.len(),
                rows == views(channels@),
                forall|b: int|
                    i < b < j ==> rows[i as int].id != (#[trigger] rows[b]).id
                        && rows[i as int].name != rows[b].name,
            decreases n - j,
        {
            if channels[i].id == channels[j].id || channels[i].name == channels[j].name {
                assert(rows[i as int].id == rows[j as int].id || rows[i as int].name
                    == rows[j as int].name);
                return false;
            }
            j = j + 1;
        }
        i = i + 1;
    }
    true
}

/// Whether one of the users has the identifier `id`.
pub(crate) fn knows_user(users: &Vec<User>, id: &String) -> (known: bool)
    ensures
        known == names_user(views(users@), id@),
{
    let ghost rows = views(users@);
    let mut u: usize = 0;
    while u < users.len()
        invariant
            u <= users@.len(),
            rows == views(users@),
            forall|k: int| 0 <= k < u ==> (#[trigger] rows[k]).id != id@,
        decreases users@.len() - u,
    {
        if users[u].id == *id {
            assert(rows[u as int].id == id@);
            return true;
        }
        u = u + 1;
    }
    false
}

/// Whether one of the channels has the identifier `id`.
pub(crate) fn knows_channel(channels: &Vec<Channel>, id: &String) -> (known: bool)
    ensures
        known == names_channel(views(channels@), id@),
{
    let ghost rows = views(channels@);
    let mut c: usize = 0;
    while c < channels.len()
        invariant
            c <= channels@.len(),
            rows == views(channels@),
            forall|k: int| 0 <= k < c ==> (#[trigger] rows[k]).id != id@,
        decreases channels@.len() - c,
    {
        if channels[c].id == *id {
            assert(rows[c as int].id == id@);
            return true;
        }
        c = c + 1;
    }
    false
}

/// Whether every message names a user and a channel that are there.
pub(crate) fn check_references(channels: &Vec<Channel>, users: &Vec<User>, messages: &Vec<Message>) -> (ok:
    bool)
    ensures
        ok == references_resolve(views(channels@), views(users@), views(messages@)),
{
    let ghost rows = views(messages@);
    let mut m: usize = 0;
    while m < messages.len()
        invariant
            m <= messages@.len(),
            rows == views(messages@),
            forall|k: int|
                0 <= k < m ==> names_user(views(users@), (#[trigger] rows[k]).user_id)
                    && names_channel(views(channels@), rows[k].channel_id),
        decreases messages@.len() - m,
    {
        if !knows_user(users, &messages[m].user_id) || !knows_channel(
            channels,
            &messages[m].channel_id,
        ) {
            assert(!(names_user(views(users@), rows[m as int].user_id) && names_channel(
                views(channels@),
                rows[m as int].channel_id,
            )));
            return false;
        }
        m = m + 1;
    }
    true
}

/// Whether no two messages of one channel have the same timestamp, for
/// messages that stand in the order of their timestamps.
pub(crate) fn check_timestamps(messages: &Vec<Message>) -> (ok: bool)
    requires
        forall|i: int, j: int|
            #![trigger messages@[i], messages@[j]]
            0 <= i < j < messages@.len() ==> messages@[i]@.ts.instant()
                <= messages@[j]@.ts.instant(),
    ensures
        ok == timestamps_differ(views(messages@)),
{
    let n = messages.len();
    let ghost rows = views(messages@);
    let mut i: usize = 0;
    while i < n
        invariant
            i <= n,
            n == messages@.len(),
            rows == views(messages@),
            forall|a: int, b: int|
                #![trigger rows[a], rows[b]]
                0 <= a < b < n ==> rows[a].ts.instant() <= rows[b].ts.instant(),
            forall|a: int, b: int|
                #![trigger rows[a], rows[b]]
                0 <= a < i && a < b < n && rows[a].channel_id == rows[b].channel_id
                    ==> rows[a].ts.instant() != rows[b].ts.instant(),
        decreases n - i,
    {
        let mut j: usize = i + 1;
        while j < n && messages[j].ts.same_as(&messages[i].ts)
            invariant
                i < j <= n,
                n == messages@.len(),
                rows == views(messages@),
                forall|b: int|
                    i < b < j ==> (#[trigger] rows[b]).ts.instant() == rows[i as int].ts.instant()
                        && rows[b].channel_id != rows[i as int].channel_id,
            decreases n - j,
        {
            if messages[j].channel_id == messages[i].channel_id {
                assert(rows[i as int].channel_id == rows[j as int].channel_id);
                assert(rows[i as int].ts.instant() == rows[j as int].ts.instant());
                return false;
            }
            j = j + 1;
        }
        assert forall|b: int|
            i < b < n && rows[i as int].channel_id == (#[trigger] rows[b]).channel_id implies rows[i as int].ts.instant()
            != rows[b].ts.instant() by {
            if b >= j {
                assert(rows[j as int].ts.instant() != rows[i as int].ts.instant());
                assert(rows[i as int].ts.instant() <= rows[j as int].ts.instant());
                if b > j {
                    assert(rows[j as int].ts.instant() <= rows[b].ts.instant());
                }
            }
        }
        i = i + 1;
    }
    true
}

/// The channels in the order of their names.
pub(crate) fn arrange_channels(channels: &Vec<Channel>) -> (arranged: Vec<Channel>)
    ensures
        is_strict_order(channels@.len() as int, channel_order(views(channels@))),
        is_leading(
            channels@.len() as int,
            every(),
            channel_order(views(channels@)),
            None,
            arrangement(channels@.len() as int, channel_order(views(channels@))),
        ),
        arrangement(channels@.len() as int, channel_order(views(channels@))).len()
            == channels@.len(),
        views(arranged@) == in_order(views(channels@), channel_order(views(channels@))),
{
    let n = channels.len();
    let ghost rows = views(channels@);
    let ghost before = channel_order(rows);
    let mut keys: Vec<Option<TextKey>> = Vec::new();
    let mut i: usize = 0;
    while i < n
        invariant
            i <= n,
            n == channels@.len(),
            keys@.len() == i,
            forall|k: int|
                0 <= k < i ==> (#[trigger] keys@[k]) is Some && keys@[k]->0.bytes@ == bytes_of(
                    channels@[k]@.name,
                ),
        decreases n - i,
    {
        keys.push(Some(TextKey::of(channels[i].name.as_str())));
        i = i + 1;
    }
    let picked = leading(&keys, None);
    let ghost places = positions(picked@);
    proof {
        lemma_key_order_strict(keys@);
        lemma_strict_congruent(n as int, key_order(keys@), before);
        lemma_leading_congruent(
            n as int,
            has_key(keys@),
            key_order(keys@),
            every(),
            before,
            None,
            places,
        );
        let chosen = arrangement(n as int, before);
        assert(is_leading(n as int, every(), before, None, chosen));
        lemma_leading_unique(n as int, every(), before, None, places, chosen);
        lemma_count_all(n as int, has_key(keys@));
    }
    let mut arranged: Vec<Channel> = Vec::new();
    let mut k: usize = 0;
    while k < picked.len()
        invariant
            k <= picked@.len(),
            picked@.len() == n,
            n == channels@.len(),
            places == positions(picked@),
            is_leading(n as int, every(), before, None, places),
            arranged@.len() == k,
            forall|a: int|
                0 <= a < k ==> (#[trigger] arranged@[a])@ == channels@[places[a]]@,
        decreases picked@.len() - k,
    {
        assert(0 <= places[k as int] < n);
        arranged.push(channels[picked[k]].duplicate());
        k = k + 1;
    }
    assert(views(arranged@) =~= in_order(rows, before));
    arranged
}

/// The messages in the order of their timestamps, those with the same
/// timestamp in the order they were given in.
pub(crate) fn arrange_messages(messages: &Vec<Message>) -> (arranged: Vec<Message>)
    ensures
        is_strict_order(messages@.len() as int, message_order(views(messages@))),
        is_leading(
            messages@.len() as int,
            every(),
            message_order(views(messages@)),
            None,
            arrangement(messages@.len() as int, message_order(views(messages@))),
        ),
        arrangement(messages@.len() as int, message_order(views(messages@))).len()
            == messages@.len(),
        views(arranged@) == in_order(views(messages@), message_order(views(messages@))),
{
    let n = messages.len();
    let ghost rows = views(messages@);
    let ghost before = message_order(rows);
    let mut keys: Vec<Option<Timestamp>> = Vec::new();
    let mut i: usize = 0;
    while i < n
        invariant
            i <= n,
            n == messages@.len(),
            keys@.len() == i,
            forall|k: int|
                0 <= k < i ==> (#[trigger] keys@[k]) is Some && keys@[k]->0@ == messages@[k]@.ts,
        decreases n - i,
    {
        keys.push(Some(messages[i].ts));
        i = i + 1;
    }
    let picked = leading(&keys, None);
    let ghost places = positions(picked@);
    proof {
        lemma_key_order_strict(keys@);
        lemma_strict_congruent(n as int, key_order(keys@), before);
        lemma_leading_congruent(
            n as int,
            has_key(keys@),
            key_order(keys@),
            every(),
            before,
            None,
            places,
        );
        let chosen = arrangement(n as int, before);
        assert(is_leading(n as int, every(), before, None, chosen));
        lemma_leading_unique(n as int, every(), before, None, places, chosen);
        lemma_count_all(n as int, has_key(keys@));
    }
    let mut arranged: Vec<Message> = Vec::new();
    let mut k: usize = 0;
    while k < picked.len()
        invariant
            k <= picked@.len(),
            picked@.len() == n,
            n == messages@.len(),
            places == positions(picked@),
            is_leading(n as int, every(), before, None, places),
            arranged@.len() == k,
            forall|a: int|
                0 <= a < k ==> (#[trigger] arranged@[a])@ == messages@[places[a]]@,
        decreases picked@.len() - k,
    {
        assert(0 <= places[k as int] < n);
        arranged.push(messages[picked[k]].duplicate());
        k = k + 1;
    }
    assert(views(arranged@) =~= in_order(rows, before));
    arranged
}

} // verus!
