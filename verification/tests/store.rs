use kvs::Command;
use kvs::CommandLog;
use kvs::KvError;
use kvs::KvStore;
use std::collections::HashMap;

fn open_store(contents: &[u8]) -> KvStore {
    match KvStore::open(contents) {
        Ok(store) => store,
        Err(error) => panic!("the log does not replay: {:?}", error),
    }
}

fn text(value: &str) -> String {
    value.to_string()
}

/// What `commands` leave, worked out on a map of the standard library.
fn fold(commands: &[Command]) -> HashMap<String, String> {
    let mut map = HashMap::new();
    for command in commands {
        match command {
            Command::Put { key, value } => {
                map.insert(key.clone(), value.clone());
            }
            Command::Remove { key } => {
                map.remove(key);
            }
        }
    }
    map
}

fn assert_holds(store: &KvStore, expected: &HashMap<String, String>, probes: &[String]) {
    assert_eq!(store.len(), expected.len());
    for (key, value) in expected {
        assert_eq!(store.get(key.clone()), Ok(Some(value.clone())));
    }
    for key in probes {
        assert_eq!(store.get(key.clone()), Ok(expected.get(key).cloned()));
    }
}

#[test]
fn open_of_an_empty_log_gives_an_empty_store() {
    let mut store = open_store(b"");
    assert_eq!(store.len(), 0);
    assert_eq!(store.get(text("a")), Ok(None));
    assert_eq!(store.take_unsaved(), Vec::<u8>::new());
}

#[test]
fn scenario_set_get_overwrite_remove() {
    let mut store = open_store(b"");
    assert_eq!(store.len(), 0);
    assert_eq!(store.set(text("a"), text("1")), Ok(()));
    assert_eq!(store.get(text("a")), Ok(Some(text("1"))));
    assert_eq!(store.set(text("a"), text("2")), Ok(()));
    assert_eq!(store.get(text("a")), Ok(Some(text("2"))));
    assert_eq!(store.remove(text("a")), Ok(()));
    assert_eq!(store.get(text("a")), Ok(None));
    assert_eq!(store.remove(text("a")), Err(KvError::KeyNotFound));
    assert_eq!(
        store.take_unsaved(),
        b"{\"command\":\"Set\",\"key\":\"a\",\"value\":\"1\"}\n\
{\"command\":\"Set\",\"key\":\"a\",\"value\":\"2\"}\n\
{\"command\":\"Remove\",\"key\":\"a\"}\n"
            .to_vec()
    );
}

#[test]
fn get_reflects_the_last_writer() {
    let mut store = open_store(b"");
    assert_eq!(store.set(text("k"), text("v1")), Ok(()));
    assert_eq!(store.set(text("other"), text("x")), Ok(()));
    assert_eq!(store.set(text("k"), text("v2")), Ok(()));
    assert_eq!(store.get(text("k")), Ok(Some(text("v2"))));
    assert_eq!(store.get(text("other")), Ok(Some(text("x"))));
    assert_eq!(store.len(), 2);
}

#[test]
fn get_after_set_and_remove_is_absent() {
    let mut store = open_store(b"");
    assert_eq!(store.set(text("k"), text("v")), Ok(()));
    assert_eq!(store.remove(text("k")), Ok(()));
    assert_eq!(store.get(text("k")), Ok(None));
    assert_eq!(store.len(), 0);
}

#[test]
fn get_of_a_key_never_set_is_absent_and_no_error() {
    let mut store = open_store(b"{\"command\":\"Set\",\"key\":\"a\",\"value\":\"1\"}\n");
    assert_eq!(store.get(text("b")), Ok(None));
    assert_eq!(store.get(text("")), Ok(None));
    assert_eq!(store.get(text("A")), Ok(None));
    assert_eq!(store.take_unsaved(), Vec::<u8>::new());
}

#[test]
fn remove_of_a_missing_key_fails_and_appends_nothing() {
    let mut store = open_store(b"{\"command\":\"Set\",\"key\":\"a\",\"value\":\"1\"}\n");
    assert_eq!(store.remove(text("b")), Err(KvError::KeyNotFound));
    assert_eq!(store.take_unsaved(), Vec::<u8>::new());
    assert_eq!(store.get(text("a")), Ok(Some(text("1"))));
    assert_eq!(store.len(), 1);

    let mut empty = open_store(b"");
    assert_eq!(empty.remove(text("a")), Err(KvError::KeyNotFound));
    assert_eq!(empty.take_unsaved(), Vec::<u8>::new());
}

#[test]
fn remove_appends_one_line() {
    let mut store = open_store(b"{\"command\":\"Set\",\"key\":\"a\",\"value\":\"1\"}\n");
    assert_eq!(store.remove(text("a")), Ok(()));
    assert_eq!(store.take_unsaved(), b"{\"command\":\"Remove\",\"key\":\"a\"}\n".to_vec());
}

#[test]
fn set_appends_one_line_even_for_the_same_binding() {
    let mut store = open_store(b"");
    assert_eq!(store.set(text("a"), text("1")), Ok(()));
    let first = store.take_unsaved();
    assert_eq!(store.set(text("a"), text("1")), Ok(()));
    let second = store.take_unsaved();
    assert_eq!(first, b"{\"command\":\"Set\",\"key\":\"a\",\"value\":\"1\"}\n".to_vec());
    assert_eq!(first, second);
}

#[test]
fn open_replays_the_log_into_the_index() {
    let store = open_store(
        b"{\"command\":\"Set\",\"key\":\"a\",\"value\":\"1\"}\n\
{\"command\":\"Set\",\"key\":\"b\",\"value\":\"2\"}\n\
{\"command\":\"Set\",\"key\":\"a\",\"value\":\"3\"}\n\
{\"command\":\"Remove\",\"key\":\"b\"}\n\
{\"command\":\"Remove\",\"key\":\"never bound\"}\n",
    );
    assert_eq!(store.len(), 1);
    assert_eq!(store.get(text("a")), Ok(Some(text("3"))));
    assert_eq!(store.get(text("b")), Ok(None));
}

#[test]
fn open_refuses_a_log_that_does_not_replay() {
    let bad: Vec<&[u8]> = vec![
        b"garbage\n",
        b"\n",
        b"{\"command\":\"Set\",\"key\":\"a\",\"value\":\"1\"}",
        b"{\"command\":\"Set\",\"key\":\"a\",\"value\":\"1\"}\n{\"command\":\"Remove\"",
        b"{\"command\":\"Set\",\"key\":\"a\",\"value\":\"1\"}\n\n",
        b"{\"command\":\"Set\",\"key\":\"a\",\"value\":\"1\"}\n{}\n",
        b"{\"command\":\"Set\",\"key\":\"a\",\"value\":\"\\q\"}\n",
    ];
    for contents in bad {
        assert_eq!(KvStore::open(contents).err(), Some(KvError::SerdeError));
    }
}

#[test]
fn strings_come_back_as_they_went_in() {
    let pairs = vec![
        (text(""), text("")),
        (text("multi\nline\nkey"), text("tab\there")),
        (text("\"quoted\""), text("back\\slash")),
        (text("\u{1f600}"), text("\u{e9}\u{4e2d}")),
        (text("{\"command\":\"Remove\",\"key\":\"a\"}"), text("}\n{")),
    ];
    let mut store = open_store(b"");
    for (key, value) in &pairs {
        assert_eq!(store.set(key.clone(), value.clone()), Ok(()));
    }
    let file = store.take_unsaved();
    assert_eq!(file.iter().filter(|byte| **byte == b'\n').count(), pairs.len());
    let again = open_store(&file);
    for (key, value) in &pairs {
        assert_eq!(store.get(key.clone()), Ok(Some(value.clone())));
        assert_eq!(again.get(key.clone()), Ok(Some(value.clone())));
    }
    assert_eq!(again.len(), pairs.len());
}

#[test]
fn reopen_without_a_change_gives_the_same_index() {
    let mut store = open_store(b"");
    let mut file: Vec<u8> = Vec::new();
    assert_eq!(store.set(text("a"), text("1")), Ok(()));
    assert_eq!(store.set(text("b"), text("2")), Ok(()));
    assert_eq!(store.remove(text("a")), Ok(()));
    assert_eq!(store.set(text("c"), text("3")), Ok(()));
    file.extend(store.take_unsaved());

    let first = open_store(&file);
    let mut second = open_store(&file);
    let probes = vec![text("a"), text("b"), text("c"), text("d")];
    assert_eq!(first.len(), store.len());
    assert_eq!(second.len(), store.len());
    for key in &probes {
        let expected = store.get(key.clone());
        assert_eq!(first.get(key.clone()), expected);
        assert_eq!(second.get(key.clone()), expected);
    }
    assert_eq!(second.take_unsaved(), Vec::<u8>::new());
}

#[test]
fn index_after_open_is_the_fold_of_the_log() {
    let keys: Vec<String> = (0..7).map(|i| format!("key{}", i)).collect();
    let mut store = open_store(b"");
    let mut file: Vec<u8> = Vec::new();
    let mut done: Vec<Command> = Vec::new();
    let mut seed: u32 = 12345;
    for step in 0..300 {
        seed = seed.wrapping_mul(1103515245).wrapping_add(12345);
        let key = keys[(seed >> 16) as usize % keys.len()].clone();
        if (seed >> 8) % 3 == 0 {
            let bound = fold(&done).contains_key(&key);
            let outcome = store.remove(key.clone());
            if bound {
                assert_eq!(outcome, Ok(()));
                done.push(Command::Remove { key });
            } else {
                assert_eq!(outcome, Err(KvError::KeyNotFound));
            }
        } else {
            let value = format!("value {}\n{}", step, seed);
            assert_eq!(store.set(key.clone(), value.clone()), Ok(()));
            done.push(Command::Put { key, value });
        }
        file.extend(store.take_unsaved());
        assert_holds(&store, &fold(&done), &keys);
        if step % 25 == 0 {
            assert_eq!(CommandLog::replay(&file), Ok(done.clone()));
            assert_holds(&open_store(&file), &fold(&done), &keys);
        }
    }
    assert_eq!(CommandLog::replay(&file), Ok(done.clone()));
    assert_holds(&open_store(&file), &fold(&done), &keys);
}

#[test]
fn crash_recovery_from_a_log_written_without_a_store() {
    let count = 50;
    let mut written: Vec<Command> = Vec::new();
    let mut log = CommandLog::open(b"");
    for i in 0..count {
        let command =
            Command::Put { key: format!("key{}", i % 20), value: format!("value{}", i) };
        assert_eq!(log.append(&command), Ok(()));
        written.push(command);
    }
    let mut file = log.take_unsaved();
    assert_eq!(file.iter().filter(|byte| **byte == b'\n').count(), count);

    let mut store = open_store(&file);
    let probes: Vec<String> = (0..25).map(|i| format!("key{}", i)).collect();
    assert_holds(&store, &fold(&written), &probes);
    assert_eq!(store.len(), 20);
    assert_eq!(store.get(text("key7")), Ok(Some(text("value47"))));

    let before = file.clone();
    assert_eq!(store.set(text("late"), text("arrival")), Ok(()));
    file.extend(store.take_unsaved());
    assert_eq!(&file[..before.len()], &before[..]);
    assert_eq!(
        &file[before.len()..],
        &b"{\"command\":\"Set\",\"key\":\"late\",\"value\":\"arrival\"}\n"[..]
    );
    written.push(Command::Put { key: text("late"), value: text("arrival") });
    assert_eq!(CommandLog::replay(&file), Ok(written.clone()));
    assert_holds(&open_store(&file), &fold(&written), &probes);
}

#[test]
fn take_unsaved_changes_nothing_in_the_index() {
    let mut store = open_store(b"");
    assert_eq!(store.set(text("a"), text("1")), Ok(()));
    let taken = store.take_unsaved();
    assert!(!taken.is_empty());
    assert_eq!(store.get(text("a")), Ok(Some(text("1"))));
    assert_eq!(store.take_unsaved(), Vec::<u8>::new());
    assert_eq!(store.get(text("a")), Ok(Some(text("1"))));
}
