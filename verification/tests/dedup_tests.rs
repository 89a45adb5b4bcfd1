use fleeting_dedup::InboundMessage;
use fleeting_dedup::dedup::DedupState;
use fleeting_dedup::dedup::FetchQuery;
use fleeting_dedup::text::normalize;

fn msg(id: u64, content: &str, timestamp: u64) -> InboundMessage {
    InboundMessage {
        id,
        channel_id: 1,
        author_id: 7,
        content: content.to_string(),
        timestamp,
    }
}

#[test]
fn try_insert_reports_new_exactly_once() {
    let mut state = DedupState::empty();
    let k = normalize("Hello World");
    assert!(state.try_insert(k.clone()));
    assert!(!state.try_insert(k.clone()));
    assert!(!state.try_insert(k));
    assert_eq!(state.key_count(), 1);
    // a different key is again new exactly once
    let k2 = normalize("another");
    assert!(state.try_insert(k2.clone()));
    assert!(!state.try_insert(k2));
    assert_eq!(state.key_count(), 2);
}

#[test]
fn empty_key_counts_as_duplicate_key() {
    let mut state = DedupState::empty();
    assert!(state.try_insert(normalize("")));
    assert!(!state.try_insert(normalize("   ")));
    assert_eq!(state.key_count(), 1);
}

#[test]
fn advance_high_water_mark_only_moves_forward() {
    let mut state = DedupState::empty();
    assert_eq!(state.high_water_mark(), None);
    state.advance_high_water_mark(5);
    assert_eq!(state.high_water_mark(), Some(5));
    state.advance_high_water_mark(3);
    assert_eq!(state.high_water_mark(), Some(5));
    state.advance_high_water_mark(9);
    assert_eq!(state.high_water_mark(), Some(9));
}

#[test]
fn process_page_deletes_duplicates_oldest_first() {
    let mut state = DedupState::empty();
    // pages arrive newest first: id 3 is the newest
    let page = vec![
        msg(3, "Hello World", 103),
        msg(2, "hello   world", 102),
        msg(1, "unrelated", 101),
    ];
    let dups = state.process_page(&page);
    // oldest to newest: 1 is new, 2 is new, 3 duplicates 2
    assert_eq!(dups, vec![3]);
    assert_eq!(state.key_count(), 2);
    assert_eq!(state.high_water_mark(), Some(3));
}

#[test]
fn process_page_twice_leaves_state_unchanged() {
    let mut state = DedupState::empty();
    let page = vec![msg(2, "two", 102), msg(1, "one", 101)];
    let first = state.process_page(&page);
    assert!(first.is_empty());
    let count = state.key_count();
    let mark = state.high_water_mark();
    // replaying the same history changes neither the keys nor the mark
    let _second = state.process_page(&page);
    assert_eq!(state.key_count(), count);
    assert_eq!(state.high_water_mark(), mark);
}

#[test]
fn empty_page_changes_nothing_and_deletes_nothing() {
    let mut state = DedupState::empty();
    state.advance_high_water_mark(4);
    let dups = state.process_page(&Vec::new());
    assert!(dups.is_empty());
    assert_eq!(state.key_count(), 0);
    assert_eq!(state.high_water_mark(), Some(4));
}

#[test]
fn catch_up_query_uses_high_water_mark() {
    let mut state = DedupState::empty();
    assert_eq!(state.catch_up_query(), FetchQuery::Latest { limit: 100 });
    state.advance_high_water_mark(42);
    // a restart with a stored mark fetches only messages after the mark
    assert_eq!(state.catch_up_query(), FetchQuery::After { id: 42 });
}
