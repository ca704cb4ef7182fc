use kvs::kv::{log_file_name, sorted_file_list, KvStore, COMPACTION_THRESHOLD};
use kvs::KvsError;

// Overwrite one key until the stale estimate passes the threshold; the
// final value survives and every log generation from before the
// compaction is gone.
#[test]
fn compaction_preserves_data() -> Result<(), KvsError> {
    let mut store = KvStore::open(Vec::new())?;
    let mut iters = 0u64;
    let mut wrote = 0u64;
    let mut last = String::new();
    while wrote <= COMPACTION_THRESHOLD + 1024 {
        last = format!("value-{}", iters);
        store.set("key".to_owned(), last.clone())?;
        // each record is its fixed frame of 32 characters plus the value
        wrote += 32 + last.chars().count() as u64;
        iters += 1;
    }
    assert!(iters > 2);
    assert_eq!(store.get("key".to_owned())?, Some(last.clone()));

    // compaction ran: only the compaction file and the fresh write file
    // remain, and nothing older
    let files = store.log_files();
    assert_eq!(files.len(), 2);
    assert!(files[0].0 < files[1].0);

    // the surviving log still recovers the final value
    drop(store);
    let mut store = KvStore::open(files)?;
    assert_eq!(store.get("key".to_owned())?, Some(last));
    Ok(())
}

// An explicit compaction keeps the mapping and moves two generations on.
#[test]
fn explicit_compaction_keeps_mapping() -> Result<(), KvsError> {
    let mut store = KvStore::open(Vec::new())?;
    store.set("a".to_owned(), "1".to_owned())?;
    store.set("b".to_owned(), "2".to_owned())?;
    store.set("a".to_owned(), "3".to_owned())?;
    store.remove("b".to_owned())?;
    store.compact()?;
    assert_eq!(store.get("a".to_owned())?, Some("3".to_owned()));
    assert_eq!(store.get("b".to_owned())?, None);
    let files = store.log_files();
    assert_eq!(files.len(), 2);
    // generation 1 held the writes; 2 is the compaction file, 3 the new
    // write file
    assert_eq!(files[0].0, 2);
    assert_eq!(files[1].0, 3);
    Ok(())
}

// A remove is written to the log before the index forgets the key, so a
// reopen sees it.
#[test]
fn remove_survives_reopen() -> Result<(), KvsError> {
    let mut store = KvStore::open(Vec::new())?;
    store.set("key1".to_owned(), "value1".to_owned())?;
    store.remove("key1".to_owned())?;
    let files = store.log_files();
    drop(store);
    let mut store = KvStore::open(files)?;
    assert_eq!(store.get("key1".to_owned())?, None);
    assert!(matches!(
        store.remove("key1".to_owned()),
        Err(KvsError::KeyNotFound)
    ));
    Ok(())
}

// A log file that is not a record stream is reported as corruption.
#[test]
fn open_rejects_corrupt_log() {
    let r = KvStore::open(vec![(1u64, "not a record stream".to_owned())]);
    assert!(matches!(r, Err(KvsError::Serialization)));
}

// Opening replays files in ascending generation order: the later file's
// record wins.
#[test]
fn open_replays_in_generation_order() -> Result<(), KvsError> {
    let older = "{\"Set\":{\"key\":\"k\",\"value\":\"old\"}}".to_owned();
    let newer = "{\"Set\":{\"key\":\"k\",\"value\":\"new\"}}".to_owned();
    let mut store = KvStore::open(vec![(1u64, older), (2u64, newer)])?;
    assert_eq!(store.get("k".to_owned())?, Some("new".to_owned()));
    Ok(())
}

// Keys and values that need escaping survive the log and a reopen.
#[test]
fn escaped_text_round_trips_through_log() -> Result<(), KvsError> {
    let key = "ta\tb\"quote\\slash".to_owned();
    let value = "line\nbreak\u{1}ctl".to_owned();
    let mut store = KvStore::open(Vec::new())?;
    store.set(key.clone(), value.clone())?;
    let files = store.log_files();
    drop(store);
    let mut store = KvStore::open(files)?;
    assert_eq!(store.get(key)?, Some(value));
    Ok(())
}

#[test]
fn file_names_parse_and_sort() {
    let names = vec![
        "12.log".to_owned(),
        "3.log".to_owned(),
        "engine".to_owned(),
        "notes.txt".to_owned(),
        "7.log".to_owned(),
    ];
    let gens = sorted_file_list(&names);
    assert_eq!(gens, vec![3u64, 7u64, 12u64]);
}

#[test]
fn file_names_round_trip() {
    assert_eq!(log_file_name(0), "0.log");
    assert_eq!(log_file_name(42), "42.log");
    assert_eq!(log_file_name(u64::MAX), "18446744073709551615.log");
    let names = vec![log_file_name(7), log_file_name(19)];
    assert_eq!(sorted_file_list(&names), vec![7u64, 19u64]);
}

#[test]
fn file_name_parsing_is_strict() {
    let names = vec![
        ".log".to_owned(),
        "x9.log".to_owned(),
        "9.log.bak".to_owned(),
        "99999999999999999999999999.log".to_owned(),
        "1.log".to_owned(),
        // two spellings of the same generation collapse to one entry
        "01.log".to_owned(),
    ];
    let gens = sorted_file_list(&names);
    assert_eq!(gens, vec![1u64]);
}
