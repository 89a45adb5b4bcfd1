use fleeting_dedup::dedup::DedupState;
use fleeting_dedup::persist::LoadError;
use fleeting_dedup::persist::load_state;
use fleeting_dedup::persist::parse_u64;
use fleeting_dedup::persist::render_u64;
use fleeting_dedup::persist::save_state;
use fleeting_dedup::text::chars_of;

fn keys_of(state: &DedupState) -> Vec<String> {
    let mut out = Vec::new();
    for i in 0..state.key_count() {
        out.push(state.key_at(i).clone());
    }
    out
}

#[test]
fn round_trip_empty_state() {
    let state = DedupState::empty();
    let text = save_state(&state);
    let loaded = load_state(&text).unwrap();
    assert_eq!(loaded.key_count(), 0);
    assert_eq!(loaded.high_water_mark(), None);
}

#[test]
fn round_trip_keeps_keys_and_mark() {
    let mut state = DedupState::empty();
    assert!(state.try_insert("plain key".to_string()));
    assert!(state.try_insert("back\\slash".to_string()));
    assert!(state.try_insert("line\nbreak".to_string()));
    assert!(state.try_insert(String::new()));
    assert!(state.try_insert("caf\u{e9} \u{3053}\u{3093}".to_string()));
    state.advance_high_water_mark(123456789);
    let text = save_state(&state);
    let loaded = load_state(&text).unwrap();
    assert_eq!(loaded.high_water_mark(), Some(123456789));
    assert_eq!(keys_of(&loaded), keys_of(&state));
}

#[test]
fn saved_text_is_one_line_per_key() {
    let mut state = DedupState::empty();
    assert!(state.try_insert("a".to_string()));
    state.advance_high_water_mark(7);
    assert_eq!(save_state(&state), "7\na\n");
    let empty = DedupState::empty();
    assert_eq!(save_state(&empty), "none\n");
}

#[test]
fn load_rejects_text_without_mark_line() {
    assert!(matches!(load_state("123"), Err(LoadError::Malformed)));
    assert!(matches!(load_state(""), Err(LoadError::Malformed)));
}

#[test]
fn load_rejects_bad_mark_line() {
    assert!(matches!(load_state("abc\n"), Err(LoadError::Malformed)));
    assert!(matches!(load_state("12x\n"), Err(LoadError::Malformed)));
    assert!(matches!(load_state("\n"), Err(LoadError::Malformed)));
    // a mark too large for 64 bits is corrupt, not wrapped
    assert!(matches!(load_state("18446744073709551616\n"), Err(LoadError::Malformed)));
}

#[test]
fn load_rejects_bad_escapes() {
    assert!(matches!(load_state("none\n\\q\n"), Err(LoadError::Malformed)));
    assert!(matches!(load_state("none\na\\\n"), Err(LoadError::Malformed)));
}

#[test]
fn load_rejects_unterminated_key_line() {
    assert!(matches!(load_state("none\nabc"), Err(LoadError::Malformed)));
}

#[test]
fn load_rejects_duplicate_keys() {
    assert!(matches!(load_state("none\na\nb\na\n"), Err(LoadError::DuplicateKey)));
}

#[test]
fn load_accepts_well_formed_record() {
    let loaded = load_state("42\nalpha\nbe\\nta\n").unwrap();
    assert_eq!(loaded.high_water_mark(), Some(42));
    assert_eq!(keys_of(&loaded), vec!["alpha".to_string(), "be\nta".to_string()]);
}

#[test]
fn decimal_round_trip_covers_bounds() {
    for n in [0u64, 1, 9, 10, 123456789, u64::MAX] {
        let digits = render_u64(n);
        assert_eq!(parse_u64(&digits), Some(n));
    }
    let text: String = render_u64(u64::MAX).into_iter().collect();
    assert_eq!(text, "18446744073709551615");
    // one past the largest 64-bit number does not parse
    let over = chars_of("18446744073709551616");
    assert_eq!(parse_u64(&over), None);
    assert_eq!(parse_u64(&chars_of("")), None);
    assert_eq!(parse_u64(&chars_of("1a2")), None);
}
