use excretor::error::TummyError;
use excretor::models::{Channel, Message, ParentMessage, ReplyMessage, User};
use excretor::timestamp::{from_pg_ts, Timestamp};
use excretor::tummy::{next_cursor, Tummy};

fn ts(raw: &str) -> Timestamp {
    from_pg_ts(raw).unwrap()
}

fn epoch() -> Timestamp {
    Timestamp::new(1970, 1, 1, 0, 0, 0, 0).unwrap()
}

fn channel(id: &str, name: &str) -> Channel {
    Channel {
        id: id.to_string(),
        name: name.to_string(),
        topic: String::new(),
        purpose: String::new(),
    }
}

fn user(id: &str) -> User {
    User {
        id: id.to_string(),
        name: id.to_lowercase(),
        real_name: String::new(),
        display_name: String::new(),
        image_url: String::new(),
        email: String::new(),
        deleted: false,
        is_bot: false,
    }
}

fn top(channel_id: &str, user_id: &str, text: &str, at: &str) -> Message {
    Message {
        channel_id: channel_id.to_string(),
        user_id: user_id.to_string(),
        msg_text: text.to_string(),
        ts: ts(at),
        thread_ts: None,
        parent_user_id: String::new(),
    }
}

fn reply(
    channel_id: &str,
    user_id: &str,
    text: &str,
    at: &str,
    parent_at: &str,
    parent_user: &str,
) -> Message {
    Message {
        channel_id: channel_id.to_string(),
        user_id: user_id.to_string(),
        msg_text: text.to_string(),
        ts: ts(at),
        thread_ts: Some(ts(parent_at)),
        parent_user_id: parent_user.to_string(),
    }
}

fn texts(page: &Vec<ParentMessage>) -> Vec<String> {
    page.iter().map(|row| row.message.msg_text.clone()).collect()
}

fn reply_texts(rows: &Vec<ReplyMessage>) -> Vec<String> {
    rows.iter().map(|row| row.message.msg_text.clone()).collect()
}

/// A channel with one thread, as small as the archive gets.
fn general() -> Tummy {
    Tummy::new(
        vec![channel("general", "general")],
        vec![user("U1"), user("U2")],
        vec![
            reply("general", "U2", "second reply", "2024-01-01 10:07:00", "2024-01-01 10:00:00", "U1"),
            top("general", "U1", "parent", "2024-01-01 10:00:00"),
            reply("general", "U2", "first reply", "2024-01-01 10:05:00", "2024-01-01 10:00:00", "U1"),
        ],
    )
    .unwrap()
}

/// Two channels, seven top-level messages in the first, threads in both.
fn busy() -> Tummy {
    Tummy::new(
        vec![channel("C2", "random"), channel("C1", "general")],
        vec![user("U1"), user("U2"), user("U3")],
        vec![
            top("C1", "U1", "g1", "2024-01-01 09:00:00"),
            top("C1", "U2", "g2", "2024-01-02 09:00:00"),
            top("C2", "U1", "r1", "2024-01-02 09:00:00"),
            top("C1", "U3", "g3", "2024-01-03 09:00:00"),
            reply("C1", "U1", "g2 reply a", "2024-01-03 10:00:00", "2024-01-02 09:00:00", "U2"),
            top("C1", "U1", "g4", "2024-01-04 09:00:00"),
            reply("C2", "U2", "r1 reply", "2024-01-04 10:00:00", "2024-01-02 09:00:00", "U1"),
            top("C1", "U2", "g5", "2024-01-05 09:00:00"),
            reply("C1", "U3", "g2 reply b", "2024-01-05 10:00:00", "2024-01-02 09:00:00", "U2"),
            top("C1", "U3", "g6", "2024-01-06 09:00:00"),
            reply("C1", "U3", "g2 reply c", "2024-01-06 10:00:00", "2024-01-02 09:00:00", "U2"),
            top("C1", "U1", "g7", "2024-01-07 09:00:00"),
            top("C2", "U3", "r2", "2024-01-08 09:00:00"),
        ],
    )
    .unwrap()
}

#[test]
fn a_parent_with_two_replies_is_one_row_with_count_two() {
    let tummy = general();
    let page = tummy.fetch_msg_page("general", &None, &10, &epoch());
    assert_eq!(page.len(), 1);
    assert_eq!(page[0].message, top("general", "U1", "parent", "2024-01-01 10:00:00"));
    assert_eq!(page[0].author, user("U1"));
    assert_eq!(page[0].reply_count, 2);
}

#[test]
fn the_replies_of_the_parent_come_in_the_order_of_time() {
    let tummy = general();
    let replies = tummy.fetch_replies("2024-01-01 10:00:00", "general", "U1").unwrap();
    assert_eq!(
        replies,
        vec![
            ReplyMessage {
                message: reply(
                    "general",
                    "U2",
                    "first reply",
                    "2024-01-01 10:05:00",
                    "2024-01-01 10:00:00",
                    "U1"
                ),
                author: user("U2"),
            },
            ReplyMessage {
                message: reply(
                    "general",
                    "U2",
                    "second reply",
                    "2024-01-01 10:07:00",
                    "2024-01-01 10:00:00",
                    "U1"
                ),
                author: user("U2"),
            },
        ]
    );
}

#[test]
fn a_page_holds_top_level_messages_of_its_channel_only() {
    let tummy = busy();
    let page = tummy.fetch_msg_page("C1", &None, &100, &epoch());
    assert_eq!(texts(&page), vec!["g1", "g2", "g3", "g4", "g5", "g6", "g7"]);
    let other = tummy.fetch_msg_page("C2", &None, &100, &epoch());
    assert_eq!(texts(&other), vec!["r1", "r2"]);
}

#[test]
fn a_page_counts_the_replies_of_each_row() {
    let tummy = busy();
    let page = tummy.fetch_msg_page("C1", &None, &100, &epoch());
    let counts: Vec<u64> = page.iter().map(|row| row.reply_count).collect();
    assert_eq!(counts, vec![0, 3, 0, 0, 0, 0, 0]);
    let other = tummy.fetch_msg_page("C2", &None, &100, &epoch());
    let counts: Vec<u64> = other.iter().map(|row| row.reply_count).collect();
    assert_eq!(counts, vec![1, 0]);
}

#[test]
fn a_page_names_the_author_of_each_row() {
    let tummy = busy();
    let page = tummy.fetch_msg_page("C1", &None, &3, &epoch());
    let authors: Vec<String> = page.iter().map(|row| row.author.id.clone()).collect();
    assert_eq!(authors, vec!["U1", "U2", "U3"]);
}

#[test]
fn a_page_is_cut_at_its_size() {
    let tummy = busy();
    assert_eq!(texts(&tummy.fetch_msg_page("C1", &None, &3, &epoch())), vec!["g1", "g2", "g3"]);
    assert_eq!(texts(&tummy.fetch_msg_page("C1", &None, &1, &epoch())), vec!["g1"]);
    assert_eq!(texts(&tummy.fetch_msg_page("C1", &None, &7, &epoch())).len(), 7);
    assert!(tummy.fetch_msg_page("C1", &None, &0, &epoch()).is_empty());
}

#[test]
fn a_page_starts_after_the_cursor() {
    let tummy = busy();
    let cursor = Some(ts("2024-01-03 09:00:00"));
    assert_eq!(texts(&tummy.fetch_msg_page("C1", &cursor, &2, &epoch())), vec!["g4", "g5"]);
    let between = Some(ts("2024-01-03 12:00:00"));
    assert_eq!(texts(&tummy.fetch_msg_page("C1", &between, &2, &epoch())), vec!["g4", "g5"]);
    let late = Some(ts("2024-01-07 09:00:00"));
    assert!(tummy.fetch_msg_page("C1", &late, &2, &epoch()).is_empty());
}

#[test]
fn a_page_starts_after_the_watermark() {
    let tummy = busy();
    let since = ts("2024-01-05 09:00:00");
    assert_eq!(texts(&tummy.fetch_msg_page("C1", &None, &10, &since)), vec!["g6", "g7"]);
    let just_before = ts("2024-01-05 08:59:59.999999");
    assert_eq!(
        texts(&tummy.fetch_msg_page("C1", &None, &10, &just_before)),
        vec!["g5", "g6", "g7"]
    );
}

#[test]
fn cursor_and_watermark_both_bound_a_page() {
    let tummy = busy();
    let since = ts("2024-01-04 09:00:00");
    let early = Some(ts("2024-01-02 09:00:00"));
    assert_eq!(texts(&tummy.fetch_msg_page("C1", &early, &10, &since)), vec!["g5", "g6", "g7"]);
    let late = Some(ts("2024-01-06 09:00:00"));
    assert_eq!(texts(&tummy.fetch_msg_page("C1", &late, &10, &since)), vec!["g7"]);
}

#[test]
fn paging_walks_the_channel_without_gaps_or_repeats() {
    let tummy = busy();
    let all = texts(&tummy.fetch_msg_page("C1", &None, &100, &epoch()));
    for size in [1u32, 2, 3, 4, 7, 10] {
        let mut seen: Vec<String> = Vec::new();
        let mut cursor: Option<Timestamp> = None;
        loop {
            let page = tummy.fetch_msg_page("C1", &cursor, &size, &epoch());
            if page.is_empty() {
                break;
            }
            assert!(page.len() <= size as usize);
            seen.extend(texts(&page));
            cursor = next_cursor(&page, &cursor);
        }
        assert_eq!(seen, all);
    }
}

#[test]
fn two_pages_in_a_row_are_the_start_of_the_channel() {
    let tummy = busy();
    let first = tummy.fetch_msg_page("C1", &None, &3, &epoch());
    let second = tummy.fetch_msg_page("C1", &next_cursor(&first, &None), &3, &epoch());
    let mut both = texts(&first);
    both.extend(texts(&second));
    assert_eq!(both, vec!["g1", "g2", "g3", "g4", "g5", "g6"]);
}

#[test]
fn a_page_of_an_unknown_channel_is_empty() {
    let tummy = busy();
    assert!(tummy.fetch_msg_page("C9", &None, &10, &epoch()).is_empty());
    assert!(tummy.fetch_msg_page("general", &None, &10, &epoch()).is_empty());
}

#[test]
fn rows_of_a_page_rise_in_time() {
    let tummy = busy();
    let page = tummy.fetch_msg_page("C1", &None, &100, &epoch());
    for pair in page.windows(2) {
        assert!(pair[0].message.ts.is_before(&pair[1].message.ts));
    }
}

#[test]
fn replies_are_those_of_the_thread_only() {
    let tummy = busy();
    let thread = tummy.fetch_replies("2024-01-02 09:00:00", "C1", "U2").unwrap();
    assert_eq!(reply_texts(&thread), vec!["g2 reply a", "g2 reply b", "g2 reply c"]);
    let other = tummy.fetch_replies("2024-01-02 09:00:00", "C2", "U1").unwrap();
    assert_eq!(reply_texts(&other), vec!["r1 reply"]);
}

#[test]
fn replies_need_the_parent_time_channel_and_author_to_match() {
    let tummy = busy();
    assert!(tummy.fetch_replies("2024-01-02 09:00:00", "C1", "U1").unwrap().is_empty());
    assert!(tummy.fetch_replies("2024-01-02 09:00:01", "C1", "U2").unwrap().is_empty());
    assert!(tummy.fetch_replies("2024-01-02 09:00:00", "C2", "U2").unwrap().is_empty());
}

#[test]
fn a_message_without_replies_has_an_empty_thread() {
    let tummy = busy();
    assert_eq!(tummy.fetch_replies("2024-01-01 09:00:00", "C1", "U1"), Ok(vec![]));
}

#[test]
fn replies_of_a_malformed_time_fail() {
    let tummy = busy();
    assert_eq!(
        tummy.fetch_replies("the other day", "C1", "U2"),
        Err(TummyError::MalformedTimestamp)
    );
    assert_eq!(tummy.fetch_replies("", "C1", "U2"), Err(TummyError::MalformedTimestamp));
}

#[test]
fn replies_of_takes_the_time_itself() {
    let tummy = busy();
    let thread = tummy.replies_of(&ts("2024-01-02 09:00:00"), "C1", "U2");
    assert_eq!(reply_texts(&thread), vec!["g2 reply a", "g2 reply b", "g2 reply c"]);
    let authors: Vec<String> = thread.iter().map(|row| row.author.id.clone()).collect();
    assert_eq!(authors, vec!["U1", "U3", "U3"]);
}

#[test]
fn the_reply_count_is_the_length_of_the_thread() {
    let tummy = busy();
    let page = tummy.fetch_msg_page("C1", &None, &100, &epoch());
    for row in page.iter() {
        let thread = tummy.replies_of(&row.message.ts, &row.message.channel_id, &row.message.user_id);
        assert_eq!(thread.len() as u64, row.reply_count);
        assert_eq!(
            tummy.count_replies(&row.message.channel_id, &row.message.ts, &row.message.user_id),
            row.reply_count
        );
    }
}

#[test]
fn an_empty_parent_author_asks_for_top_level_messages() {
    let tummy = Tummy::new(
        vec![channel("C1", "general")],
        vec![user("U1")],
        vec![Message {
            channel_id: "C1".to_string(),
            user_id: "U1".to_string(),
            msg_text: "a thread of its own".to_string(),
            ts: ts("2024-01-01 10:00:00"),
            thread_ts: Some(ts("2024-01-01 10:00:00")),
            parent_user_id: String::new(),
        }],
    )
    .unwrap();
    let found = tummy.fetch_replies("2024-01-01 10:00:00", "C1", "").unwrap();
    assert_eq!(reply_texts(&found), vec!["a thread of its own"]);
    assert!(tummy.fetch_replies("2024-01-01 10:00:00", "C1", "U1").unwrap().is_empty());
}
