use excretor::error::TummyError;
use excretor::models::{Channel, Message, SearchResult, User};
use excretor::search::{
    count_occurrences, tokenize, Phrase, RankWeights, SearchFilter, SearchQuery,
};
use excretor::timestamp::{from_pg_ts, Timestamp};
use excretor::tummy::Tummy;

fn ts(raw: &str) -> Timestamp {
    from_pg_ts(raw).unwrap()
}

fn channel(id: &str, name: &str) -> Channel {
    Channel {
        id: id.to_string(),
        name: name.to_string(),
        topic: String::new(),
        purpose: String::new(),
    }
}

fn user(id: &str) -> User {
    User {
        id: id.to_string(),
        name: id.to_lowercase(),
        real_name: String::new(),
        display_name: String::new(),
        image_url: String::new(),
        email: String::new(),
        deleted: false,
        is_bot: false,
    }
}

fn top(channel_id: &str, user_id: &str, text: &str, at: &str) -> Message {
    Message {
        channel_id: channel_id.to_string(),
        user_id: user_id.to_string(),
        msg_text: text.to_string(),
        ts: ts(at),
        thread_ts: None,
        parent_user_id: String::new(),
    }
}

fn reply(
    channel_id: &str,
    user_id: &str,
    text: &str,
    at: &str,
    parent_at: &str,
    parent_user: &str,
) -> Message {
    Message {
        channel_id: channel_id.to_string(),
        user_id: user_id.to_string(),
        msg_text: text.to_string(),
        ts: ts(at),
        thread_ts: Some(ts(parent_at)),
        parent_user_id: parent_user.to_string(),
    }
}

fn phrase(words: &[&str]) -> Phrase {
    Phrase { words: words.iter().map(|w| w.as_bytes().to_vec()).collect() }
}

fn query(required: &[&[&str]], excluded: &[&[&str]]) -> SearchQuery {
    SearchQuery {
        required: required.iter().map(|p| phrase(p)).collect(),
        excluded: excluded.iter().map(|p| phrase(p)).collect(),
    }
}

fn texts(rows: &Vec<SearchResult>) -> Vec<String> {
    rows.iter().map(|row| row.message.msg_text.clone()).collect()
}

fn ranks(rows: &Vec<SearchResult>) -> Vec<u64> {
    rows.iter().map(|row| row.rank).collect()
}

fn archive() -> Tummy {
    Tummy::new(
        vec![channel("C1", "general"), channel("C2", "random")],
        vec![user("U1"), user("U2")],
        vec![
            top("C1", "U1", "Hello world", "2024-01-01 10:00:00"),
            reply("C1", "U2", "hello hello again", "2024-01-01 10:05:00", "2024-01-01 10:00:00", "U1"),
            reply("C1", "U2", "goodbye world", "2024-01-01 10:07:00", "2024-01-01 10:00:00", "U1"),
            top("C2", "U1", "Hello, World! hello world.", "2024-01-02 09:00:00"),
            top("C1", "U2", "nothing to see", "2024-01-03 09:00:00"),
            top("C1", "U1", "world peace", "2024-01-04 09:00:00"),
        ],
    )
    .unwrap()
}

#[test]
fn tokenize_splits_at_what_is_no_letter_or_digit() {
    assert_eq!(tokenize(b"Hello, World! it's 42"), phrase(&["hello", "world", "it", "s", "42"]));
    assert_eq!(tokenize(b""), phrase(&[]));
    assert_eq!(tokenize(b"  ...  "), phrase(&[]));
    assert_eq!(tokenize(b"one"), phrase(&["one"]));
    assert_eq!(tokenize(b" a-b_c\td\n"), phrase(&["a", "b", "c", "d"]));
}

#[test]
fn tokenize_folds_ascii_capitals_only() {
    assert_eq!(tokenize("ABC xyz Z9".as_bytes()), phrase(&["abc", "xyz", "z9"]));
    assert_eq!(tokenize("Café ÉCOLE".as_bytes()), phrase(&["café", "École"]));
}

#[test]
fn parse_reads_words_phrases_and_exclusions() {
    assert_eq!(
        SearchQuery::parse(b"foo \"bar baz\" -qux"),
        query(&[&["foo"], &["bar", "baz"]], &[&["qux"]])
    );
    assert_eq!(SearchQuery::parse(b"Hello World"), query(&[&["hello"], &["world"]], &[]));
    assert_eq!(SearchQuery::parse(b""), query(&[], &[]));
    assert_eq!(SearchQuery::parse(b" , . "), query(&[], &[]));
}

#[test]
fn parse_excludes_what_a_dash_stands_in_front_of() {
    assert_eq!(SearchQuery::parse(b"-foo"), query(&[], &[&["foo"]]));
    assert_eq!(SearchQuery::parse(b"a -b c"), query(&[&["a"], &["c"]], &[&["b"]]));
    assert_eq!(SearchQuery::parse(b"-\"a b\" c"), query(&[&["c"]], &[&["a", "b"]]));
    assert_eq!(SearchQuery::parse(b"--foo"), query(&[], &[&["foo"]]));
}

#[test]
fn parse_takes_a_dash_inside_or_apart_as_a_gap() {
    assert_eq!(SearchQuery::parse(b"foo-bar"), query(&[&["foo"], &["bar"]], &[]));
    assert_eq!(SearchQuery::parse(b"- foo"), query(&[&["foo"]], &[]));
    assert_eq!(SearchQuery::parse(b"foo -"), query(&[&["foo"]], &[]));
    assert_eq!(SearchQuery::parse(b"\"a -b\""), query(&[&["a", "b"]], &[]));
}

#[test]
fn parse_closes_an_open_phrase_at_the_end() {
    assert_eq!(SearchQuery::parse(b"\"a b"), query(&[&["a", "b"]], &[]));
    assert_eq!(SearchQuery::parse(b"x -\"a b"), query(&[&["x"]], &[&["a", "b"]]));
    assert_eq!(SearchQuery::parse(b"\"\" x \"  \""), query(&[&["x"]], &[]));
    assert_eq!(SearchQuery::parse(b"a\"b c\"d"), query(&[&["a"], &["b", "c"], &["d"]], &[]));
}

#[test]
fn occurrences_count_every_place() {
    let doc = tokenize(b"a b a b a");
    assert_eq!(count_occurrences(&phrase(&["a"]), &doc), 3);
    assert_eq!(count_occurrences(&phrase(&["b"]), &doc), 2);
    assert_eq!(count_occurrences(&phrase(&["a", "b"]), &doc), 2);
    assert_eq!(count_occurrences(&phrase(&["a", "b", "a"]), &doc), 2);
    assert_eq!(count_occurrences(&phrase(&["b", "b"]), &doc), 0);
    assert_eq!(count_occurrences(&phrase(&["a", "b", "a", "b", "a", "b"]), &doc), 0);
    assert_eq!(count_occurrences(&phrase(&["c"]), &doc), 0);
}

#[test]
fn a_query_matches_when_all_is_found_and_nothing_excluded() {
    let doc = tokenize(b"The quick brown fox");
    assert!(query(&[&["quick"], &["fox"]], &[]).matches(&doc));
    assert!(query(&[&["quick", "brown"]], &[]).matches(&doc));
    assert!(!query(&[&["brown", "quick"]], &[]).matches(&doc));
    assert!(!query(&[&["quick"], &["dog"]], &[]).matches(&doc));
    assert!(!query(&[&["quick"]], &[&["fox"]]).matches(&doc));
    assert!(query(&[&["quick"]], &[&["dog"]]).matches(&doc));
    assert!(query(&[], &[&["dog"]]).matches(&doc));
    assert!(!query(&[], &[&["fox"]]).matches(&doc));
    assert!(!query(&[], &[]).matches(&doc));
}

#[test]
fn the_score_weighs_words_and_phrases() {
    let doc = tokenize(b"hello world, hello world and hello");
    let weights = RankWeights::standard();
    assert_eq!(weights, RankWeights { term: 2, phrase: 4 });
    assert_eq!(query(&[&["hello"]], &[]).rank(&doc, &weights), 6);
    assert_eq!(query(&[&["hello"], &["world"]], &[]).rank(&doc, &weights), 10);
    assert_eq!(query(&[&["hello", "world"]], &[]).rank(&doc, &weights), 8);
    assert_eq!(query(&[&["hello", "world"], &["and"]], &[]).rank(&doc, &weights), 10);
    assert_eq!(query(&[&["absent"]], &[]).rank(&doc, &weights), 0);
    assert_eq!(query(&[], &[&["absent"]]).rank(&doc, &weights), 0);
    let other = RankWeights { term: 1, phrase: 10 };
    assert_eq!(query(&[&["hello", "world"], &["and"]], &[]).rank(&doc, &other), 21);
}

#[test]
fn the_score_holds_large_weights() {
    let doc = tokenize(b"a a a");
    let heavy = RankWeights { term: u32::MAX, phrase: u32::MAX };
    let many: Vec<&[&str]> = vec![&["a"]; 3];
    assert_eq!(query(&many, &[]).rank(&doc, &heavy), 9 * (u32::MAX as u64));
    assert_eq!(query(&[&["a", "a"]], &[]).rank(&doc, &heavy), 2 * (u32::MAX as u64));
}

#[test]
fn search_ranks_by_score_then_by_time() {
    let tummy = archive();
    let found = tummy.search_msg_text("hello", None, None, 10).unwrap();
    assert_eq!(
        texts(&found),
        vec!["Hello, World! hello world.", "hello hello again", "Hello world"]
    );
    assert_eq!(ranks(&found), vec![4, 4, 2]);
    assert_eq!(found[0].author, user("U1"));
    assert_eq!(found[1].author, user("U2"));
}

#[test]
fn search_asks_for_all_words() {
    let tummy = archive();
    let found = tummy.search_msg_text("hello world", None, None, 10).unwrap();
    assert_eq!(texts(&found), vec!["Hello, World! hello world.", "Hello world"]);
    assert_eq!(ranks(&found), vec![8, 4]);
}

#[test]
fn search_finds_phrases_side_by_side() {
    let tummy = archive();
    let found = tummy.search_msg_text("\"hello world\"", None, None, 10).unwrap();
    assert_eq!(texts(&found), vec!["Hello, World! hello world.", "Hello world"]);
    assert_eq!(ranks(&found), vec![8, 4]);
    let none = tummy.search_msg_text("\"world hello again\"", None, None, 10).unwrap();
    assert!(none.is_empty());
}

#[test]
fn search_leaves_out_what_is_excluded() {
    let tummy = archive();
    let found = tummy.search_msg_text("world -hello", None, None, 10).unwrap();
    assert_eq!(texts(&found), vec!["world peace", "goodbye world"]);
    assert_eq!(ranks(&found), vec![2, 2]);
}

#[test]
fn search_in_one_channel() {
    let tummy = archive();
    let found = tummy.search_msg_text("hello", Some("C1"), None, 10).unwrap();
    assert_eq!(texts(&found), vec!["hello hello again", "Hello world"]);
    let other = tummy.search_msg_text("hello", Some("C2"), None, 10).unwrap();
    assert_eq!(texts(&other), vec!["Hello, World! hello world."]);
    assert!(tummy.search_msg_text("hello", Some("C3"), None, 10).unwrap().is_empty());
}

#[test]
fn search_of_one_user() {
    let tummy = archive();
    let found = tummy.search_msg_text("hello", None, Some("U1"), 10).unwrap();
    assert_eq!(texts(&found), vec!["Hello, World! hello world.", "Hello world"]);
    let other = tummy.search_msg_text("hello", None, Some("U2"), 10).unwrap();
    assert_eq!(texts(&other), vec!["hello hello again"]);
}

#[test]
fn search_of_one_user_in_one_channel() {
    let tummy = archive();
    let found = tummy.search_msg_text("hello", Some("C1"), Some("U1"), 10).unwrap();
    assert_eq!(texts(&found), vec!["Hello world"]);
    assert!(tummy.search_msg_text("hello", Some("C2"), Some("U2"), 10).unwrap().is_empty());
}

#[test]
fn search_is_cut_at_its_limit() {
    let tummy = archive();
    assert_eq!(
        texts(&tummy.search_msg_text("hello", None, None, 1).unwrap()),
        vec!["Hello, World! hello world."]
    );
    assert_eq!(
        texts(&tummy.search_msg_text("hello", None, None, 2).unwrap()),
        vec!["Hello, World! hello world.", "hello hello again"]
    );
    assert_eq!(tummy.search_msg_text("hello", None, None, 3).unwrap().len(), 3);
    assert_eq!(tummy.search_msg_text("hello", None, None, i64::MAX).unwrap().len(), 3);
    assert!(tummy.search_msg_text("hello", None, None, 0).unwrap().is_empty());
}

#[test]
fn search_with_a_negative_limit_fails() {
    let tummy = archive();
    assert_eq!(tummy.search_msg_text("hello", None, None, -1), Err(TummyError::QueryFailed));
    assert_eq!(
        tummy.search_msg_text("hello", Some("C1"), Some("U1"), i64::MIN),
        Err(TummyError::QueryFailed)
    );
}

#[test]
fn search_for_nothing_finds_nothing() {
    let tummy = archive();
    assert!(tummy.search_msg_text("", None, None, 10).unwrap().is_empty());
    assert!(tummy.search_msg_text("  \"\" - ", None, None, 10).unwrap().is_empty());
    assert!(tummy.search_msg_text("absent", None, None, 10).unwrap().is_empty());
}

#[test]
fn a_filtered_search_is_the_filtered_open_search() {
    let tummy = archive();
    let open = tummy.search_msg_text("hello", None, None, 10).unwrap();
    for channel_id in ["C1", "C2"] {
        let narrow = tummy.search_msg_text("hello", Some(channel_id), None, 10).unwrap();
        let kept: Vec<SearchResult> =
            open.iter().filter(|row| row.message.channel_id == channel_id).cloned().collect();
        assert_eq!(narrow, kept);
    }
    for user_id in ["U1", "U2"] {
        let narrow = tummy.search_msg_text("hello", None, Some(user_id), 10).unwrap();
        let kept: Vec<SearchResult> =
            open.iter().filter(|row| row.message.user_id == user_id).cloned().collect();
        assert_eq!(narrow, kept);
    }
    let narrow = tummy.search_msg_text("hello", Some("C1"), Some("U2"), 1).unwrap();
    let kept: Vec<SearchResult> = open
        .iter()
        .filter(|row| row.message.channel_id == "C1" && row.message.user_id == "U2")
        .cloned()
        .collect();
    assert_eq!(narrow, kept[..1].to_vec());
}

#[test]
fn a_short_open_search_may_miss_what_the_filtered_one_finds() {
    let tummy = archive();
    let open = tummy.search_msg_text("hello", None, None, 1).unwrap();
    let narrow = tummy.search_msg_text("hello", Some("C1"), None, 1).unwrap();
    assert_eq!(texts(&open), vec!["Hello, World! hello world."]);
    assert_eq!(texts(&narrow), vec!["hello hello again"]);
}

#[test]
fn search_ranked_takes_its_own_weights() {
    let tummy = archive();
    let asked = SearchQuery::parse(b"\"hello world\" world");
    let filter = SearchFilter { channel_id: None, user_id: None };
    let weights = RankWeights { term: 1, phrase: 10 };
    let found = tummy.search_ranked(&asked, &filter, &weights, 10);
    assert_eq!(texts(&found), vec!["Hello, World! hello world.", "Hello world"]);
    assert_eq!(ranks(&found), vec![22, 11]);
    let standard = tummy.search_ranked(&asked, &filter, &RankWeights::standard(), 10);
    assert_eq!(ranks(&standard), vec![12, 6]);
}

#[test]
fn scores_of_search_rows_never_rise() {
    let tummy = archive();
    for text in ["hello", "world", "hello world", "again -peace", "\"hello world\""] {
        let found = tummy.search_msg_text(text, None, None, 10).unwrap();
        for pair in found.windows(2) {
            assert!(pair[0].rank >= pair[1].rank);
            if pair[0].rank == pair[1].rank {
                assert!(!pair[0].message.ts.is_before(&pair[1].message.ts));
            }
        }
    }
}
