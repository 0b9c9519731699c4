use excretor::error::{StoreFailure, TummyError};
use excretor::models::{Channel, Message, ParentMessage, User};
use excretor::templates::{ChannelPageTemplate, ErrTemplate};
use excretor::timestamp::{from_pg_ts, Timestamp};
use excretor::tummy::{next_cursor, Tummy};

fn ts(raw: &str) -> Timestamp {
    from_pg_ts(raw).unwrap()
}

fn channel(id: &str, name: &str) -> Channel {
    Channel {
        id: id.to_string(),
        name: name.to_string(),
        topic: String::new(),
        purpose: String::new(),
    }
}

fn user(id: &str, name: &str) -> User {
    User {
        id: id.to_string(),
        name: name.to_string(),
        real_name: name.to_string(),
        display_name: name.to_string(),
        image_url: String::new(),
        email: format!("{}@example.org", name),
        deleted: false,
        is_bot: false,
    }
}

fn top(channel_id: &str, user_id: &str, text: &str, at: &str) -> Message {
    Message {
        channel_id: channel_id.to_string(),
        user_id: user_id.to_string(),
        msg_text: text.to_string(),
        ts: ts(at),
        thread_ts: None,
        parent_user_id: String::new(),
    }
}

fn failed(made: Result<Tummy, TummyError>) -> Option<TummyError> {
    match made {
        Ok(_) => None,
        Err(e) => Some(e),
    }
}

#[test]
fn new_takes_rows_that_keep_the_rules() {
    let made = Tummy::new(
        vec![channel("C1", "general")],
        vec![user("U1", "alice")],
        vec![top("C1", "U1", "hi", "2024-01-01 10:00:00")],
    );
    assert!(made.is_ok());
}

#[test]
fn new_takes_no_rows_at_all() {
    let tummy = Tummy::new(vec![], vec![], vec![]).unwrap();
    assert_eq!(tummy.get_all_channels(), vec![]);
    assert_eq!(tummy.get_user_info("U1"), Err(TummyError::NotFound));
}

#[test]
fn new_refuses_two_users_with_one_identifier() {
    let made = Tummy::new(vec![], vec![user("U1", "alice"), user("U1", "bob")], vec![]);
    assert_eq!(failed(made), Some(TummyError::QueryFailed));
}

#[test]
fn new_refuses_two_channels_with_one_identifier() {
    let made = Tummy::new(vec![channel("C1", "general"), channel("C1", "random")], vec![], vec![]);
    assert_eq!(failed(made), Some(TummyError::QueryFailed));
}

#[test]
fn new_refuses_two_channels_with_one_name() {
    let made = Tummy::new(vec![channel("C1", "general"), channel("C2", "general")], vec![], vec![]);
    assert_eq!(failed(made), Some(TummyError::QueryFailed));
}

#[test]
fn new_refuses_a_message_of_an_unknown_user() {
    let made = Tummy::new(
        vec![channel("C1", "general")],
        vec![user("U1", "alice")],
        vec![top("C1", "U9", "hi", "2024-01-01 10:00:00")],
    );
    assert_eq!(failed(made), Some(TummyError::QueryFailed));
}

#[test]
fn new_refuses_a_message_of_an_unknown_channel() {
    let made = Tummy::new(
        vec![channel("C1", "general")],
        vec![user("U1", "alice")],
        vec![top("C9", "U1", "hi", "2024-01-01 10:00:00")],
    );
    assert_eq!(failed(made), Some(TummyError::QueryFailed));
}

#[test]
fn new_refuses_two_messages_of_one_channel_at_one_time() {
    let made = Tummy::new(
        vec![channel("C1", "general")],
        vec![user("U1", "alice")],
        vec![
            top("C1", "U1", "first", "2024-01-01 10:00:00"),
            top("C1", "U1", "between", "2024-01-01 09:00:00"),
            top("C1", "U1", "second", "2024-01-01 10:00:00"),
        ],
    );
    assert_eq!(failed(made), Some(TummyError::QueryFailed));
}

#[test]
fn new_takes_messages_of_two_channels_at_one_time() {
    let made = Tummy::new(
        vec![channel("C1", "general"), channel("C2", "random")],
        vec![user("U1", "alice")],
        vec![
            top("C1", "U1", "here", "2024-01-01 10:00:00"),
            top("C2", "U1", "there", "2024-01-01 10:00:00"),
        ],
    );
    assert!(made.is_ok());
}

#[test]
fn get_all_channels_lists_by_name() {
    let tummy = Tummy::new(
        vec![
            channel("C3", "random"),
            channel("C1", "general"),
            channel("C4", "Random"),
            channel("C2", "gen"),
        ],
        vec![],
        vec![],
    )
    .unwrap();
    let names: Vec<String> = tummy.get_all_channels().into_iter().map(|c| c.name).collect();
    assert_eq!(names, vec!["Random", "gen", "general", "random"]);
}

#[test]
fn get_channel_info_finds_by_name() {
    let tummy = Tummy::new(
        vec![channel("C2", "random"), channel("C1", "general")],
        vec![],
        vec![],
    )
    .unwrap();
    assert_eq!(tummy.get_channel_info("general"), Ok(channel("C1", "general")));
    assert_eq!(tummy.get_channel_info("random"), Ok(channel("C2", "random")));
    assert_eq!(tummy.get_channel_info("C1"), Err(TummyError::NotFound));
    assert_eq!(tummy.get_channel_info("gener"), Err(TummyError::NotFound));
    assert_eq!(tummy.get_channel_info(""), Err(TummyError::NotFound));
}

#[test]
fn get_user_info_finds_by_identifier() {
    let tummy = Tummy::new(vec![], vec![user("U1", "alice"), user("U2", "bob")], vec![]).unwrap();
    assert_eq!(tummy.get_user_info("U2"), Ok(user("U2", "bob")));
    assert_eq!(tummy.get_user_info("U1"), Ok(user("U1", "alice")));
    assert_eq!(tummy.get_user_info("alice"), Err(TummyError::NotFound));
    assert_eq!(tummy.get_user_info("U3"), Err(TummyError::NotFound));
}

#[test]
fn from_failure_sorts_every_failure() {
    assert_eq!(TummyError::from_failure(StoreFailure::RowNotFound), TummyError::NotFound);
    for outage in [
        StoreFailure::PoolTimedOut,
        StoreFailure::PoolClosed,
        StoreFailure::Io,
        StoreFailure::Tls,
        StoreFailure::WorkerCrashed,
        StoreFailure::Configuration,
    ] {
        assert_eq!(TummyError::from_failure(outage), TummyError::StoreUnavailable);
    }
    for refusal in [
        StoreFailure::Protocol,
        StoreFailure::Database,
        StoreFailure::Decode,
        StoreFailure::Encode,
        StoreFailure::Migrate,
        StoreFailure::Other,
    ] {
        assert_eq!(TummyError::from_failure(refusal), TummyError::QueryFailed);
    }
}

#[test]
fn only_an_outage_is_worth_a_retry() {
    assert!(TummyError::StoreUnavailable.is_retryable());
    assert!(!TummyError::NotFound.is_retryable());
    assert!(!TummyError::MalformedTimestamp.is_retryable());
    assert!(!TummyError::QueryFailed.is_retryable());
}

#[test]
fn errors_have_their_sentences() {
    assert_eq!(TummyError::NotFound.message(), "not found");
    assert_eq!(
        TummyError::StoreUnavailable.message(),
        "the archive cannot be reached, try again later"
    );
    assert_eq!(TummyError::MalformedTimestamp.message(), "malformed timestamp");
    assert_eq!(TummyError::QueryFailed.message(), "the archive refused the query");
}

#[test]
fn err_template_carries_the_sentence() {
    let page = ErrTemplate::of(&TummyError::NotFound);
    assert_eq!(page.err_string, "not found");
}

#[test]
fn channel_page_template_pairs_messages_with_authors() {
    let rows = vec![
        ParentMessage {
            message: top("C1", "U1", "one", "2024-01-01 10:00:00"),
            author: user("U1", "alice"),
            reply_count: 2,
        },
        ParentMessage {
            message: top("C1", "U2", "two", "2024-01-01 11:00:00"),
            author: user("U2", "bob"),
            reply_count: 0,
        },
    ];
    let page =
        ChannelPageTemplate::of(&rows, "2024-01-01 11:00:00".to_string(), "general".to_string());
    assert_eq!(page.channel_name, "general");
    assert_eq!(page.last_msg_timestamp, "2024-01-01 11:00:00");
    assert_eq!(
        page.messages,
        vec![
            (top("C1", "U1", "one", "2024-01-01 10:00:00"), user("U1", "alice")),
            (top("C1", "U2", "two", "2024-01-01 11:00:00"), user("U2", "bob")),
        ]
    );
}

#[test]
fn next_cursor_is_the_time_of_the_last_row() {
    let rows = vec![
        ParentMessage {
            message: top("C1", "U1", "one", "2024-01-01 10:00:00"),
            author: user("U1", "alice"),
            reply_count: 0,
        },
        ParentMessage {
            message: top("C1", "U1", "two", "2024-01-01 11:00:00"),
            author: user("U1", "alice"),
            reply_count: 0,
        },
    ];
    assert_eq!(next_cursor(&rows, &None), Some(ts("2024-01-01 11:00:00")));
    let before = Some(ts("2023-01-01 00:00:00"));
    assert_eq!(next_cursor(&vec![], &before), before);
    assert_eq!(next_cursor(&vec![], &None), None);
}
