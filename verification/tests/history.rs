use mpdelta::history::HistoryStore;

#[test]
fn history_store() {
    let mut history_store = HistoryStore::<usize, &str>::new(5);
    history_store.push_history(0, "0A");
    history_store.push_history(0, "0B");
    history_store.push_history(0, "0C");
    history_store.push_history(0, "0D");
    history_store.push_history(0, "0E");
    history_store.push_history(0, "0F");
    history_store.push_history(1, "1A");
    history_store.push_history(1, "1B");
    history_store.push_history(1, "1C");

    assert_eq!(history_store.pop_redo(&0), None);
    assert_eq!(history_store.pop_undo(&0), Some(&"0F"));
    assert_eq!(history_store.pop_undo(&0), Some(&"0E"));
    assert_eq!(history_store.pop_undo(&0), Some(&"0D"));
    assert_eq!(history_store.pop_undo(&0), Some(&"0C"));
    assert_eq!(history_store.pop_undo(&0), Some(&"0B"));
    assert_eq!(history_store.pop_undo(&0), None);
    assert_eq!(history_store.pop_redo(&0), Some(&"0B"));
    assert_eq!(history_store.pop_redo(&0), Some(&"0C"));

    history_store.push_history(0, "0G");

    assert_eq!(history_store.pop_redo(&0), None);
    assert_eq!(history_store.pop_undo(&0), Some(&"0G"));
    assert_eq!(history_store.pop_undo(&0), Some(&"0C"));
    assert_eq!(history_store.pop_undo(&0), Some(&"0B"));
    assert_eq!(history_store.pop_undo(&0), None);

    assert_eq!(history_store.pop_undo(&1), Some(&"1C"));
    assert_eq!(history_store.pop_undo(&1), Some(&"1B"));
    assert_eq!(history_store.pop_undo(&1), Some(&"1A"));
    assert_eq!(history_store.pop_undo(&1), None);
    assert_eq!(history_store.pop_redo(&1), Some(&"1A"));
    assert_eq!(history_store.pop_redo(&1), Some(&"1B"));
    assert_eq!(history_store.pop_redo(&1), Some(&"1C"));
    assert_eq!(history_store.pop_redo(&1), None);
}

#[test]
fn history_unknown_key_has_nothing() {
    let mut store = HistoryStore::<u32, u32>::new(3);
    assert_eq!(store.pop_undo(&7), None);
    assert_eq!(store.pop_redo(&7), None);
    store.push_history(1, 10);
    assert_eq!(store.pop_undo(&7), None);
}

#[test]
fn history_undo_then_redo_restores() {
    let mut store = HistoryStore::<u32, u32>::new(10);
    for v in 0..4 {
        store.push_history(0, v);
    }
    assert_eq!(store.pop_undo(&0), Some(&3));
    assert_eq!(store.pop_redo(&0), Some(&3));
    assert_eq!(store.pop_redo(&0), None);
    assert_eq!(store.pop_undo(&0), Some(&3));
    assert_eq!(store.pop_undo(&0), Some(&2));
    assert_eq!(store.pop_redo(&0), Some(&2));
    assert_eq!(store.pop_redo(&0), Some(&3));
}

#[test]
fn history_push_forgets_redo() {
    let mut store = HistoryStore::<u32, u32>::new(10);
    store.push_history(0, 1);
    store.push_history(0, 2);
    assert_eq!(store.pop_undo(&0), Some(&2));
    store.push_history(0, 3);
    assert_eq!(store.pop_redo(&0), None);
    assert_eq!(store.pop_undo(&0), Some(&3));
    assert_eq!(store.pop_undo(&0), Some(&1));
    assert_eq!(store.pop_undo(&0), None);
}

#[test]
fn history_keeps_at_most_max() {
    let mut store = HistoryStore::<u32, u32>::new(2);
    for v in 0..6 {
        store.push_history(0, v);
    }
    assert_eq!(store.pop_undo(&0), Some(&5));
    assert_eq!(store.pop_undo(&0), Some(&4));
    assert_eq!(store.pop_undo(&0), None);
}

#[test]
fn history_zero_max_keeps_nothing() {
    let mut store = HistoryStore::<u32, u32>::new(0);
    store.push_history(0, 1);
    assert_eq!(store.pop_undo(&0), None);
    assert_eq!(store.pop_redo(&0), None);
}

#[test]
fn history_keys_are_independent() {
    let mut store = HistoryStore::<&str, u32>::new(4);
    store.push_history("a", 1);
    store.push_history("b", 2);
    assert_eq!(store.pop_undo(&"a"), Some(&1));
    assert_eq!(store.pop_undo(&"b"), Some(&2));
    assert_eq!(store.pop_redo(&"a"), Some(&1));
    assert_eq!(store.pop_undo(&"b"), None);
}
