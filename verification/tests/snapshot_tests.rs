use rustlinks::rustlink::Rustlink;
use rustlinks::snapshot::SerdeAppState;
use rustlinks::state::LinkTable;

fn sample_state() -> SerdeAppState {
    let mut table = LinkTable::new();
    table.upsert(Rustlink::new("rust".to_string(), "https://rust-lang.org".to_string()));
    table.upsert(Rustlink::new("search".to_string(), "https://google.com/search?q={^}".to_string()));
    SerdeAppState::new(table, 42)
}

#[test]
fn save_then_load_restores_the_state() {
    let state = sample_state();
    let text = state.save();
    let loaded = SerdeAppState::load(text.as_str()).unwrap();
    assert_eq!(loaded.revision, 42);
    let all = loaded.rustlinks.snapshot_all();
    assert_eq!(all.len(), 2);
    assert_eq!(all[0].alias, "rust");
    assert_eq!(all[0].url, "https://rust-lang.org");
    assert_eq!(all[1].alias, "search");
    assert_eq!(all[1].url, "https://google.com/search?q={^}");
}

#[test]
fn empty_state_round_trips() {
    let state = SerdeAppState::new(LinkTable::new(), 0);
    let text = state.save();
    let loaded = SerdeAppState::load(text.as_str()).unwrap();
    assert_eq!(loaded.revision, 0);
    assert_eq!(loaded.rustlinks.snapshot_all().len(), 0);
}

#[test]
fn entries_with_spaces_and_newlines_round_trip() {
    let mut table = LinkTable::new();
    table.upsert(Rustlink::new("odd alias".to_string(), "https://x.example/a b\nc".to_string()));
    let state = SerdeAppState::new(table, 7);
    let text = state.save();
    let loaded = SerdeAppState::load(text.as_str()).unwrap();
    let all = loaded.rustlinks.snapshot_all();
    assert_eq!(all[0].alias, "odd alias");
    assert_eq!(all[0].url, "https://x.example/a b\nc");
}

#[test]
fn garbage_text_is_rejected() {
    assert!(SerdeAppState::load("").is_none());
    assert!(SerdeAppState::load("not a snapshot").is_none());
    assert!(SerdeAppState::load("12").is_none());
    assert!(SerdeAppState::load("12\n").is_none());
    assert!(SerdeAppState::load("-3\n0\n").is_none());
}

#[test]
fn truncated_snapshot_is_rejected() {
    let state = sample_state();
    let text = state.save();
    let truncated: String = text.chars().take(text.chars().count() - 1).collect();
    assert!(SerdeAppState::load(truncated.as_str()).is_none());
}

#[test]
fn trailing_garbage_is_rejected() {
    let state = sample_state();
    let mut text = state.save();
    text.push('x');
    assert!(SerdeAppState::load(text.as_str()).is_none());
}
