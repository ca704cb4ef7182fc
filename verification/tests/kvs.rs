use kvs::kv::KvStore;
use kvs::KvsError;

//
// Test 1: Should get previously stored value
//
#[test]
fn get_stored_value() -> Result<(), KvsError> {
    let mut store = KvStore::open(Vec::new())?;

    store.set("key1".to_owned(), "value1".to_owned())?;
    store.set("key2".to_owned(), "value2".to_owned())?;

    assert_eq!(store.get("key1".to_owned())?, Some("value1".to_owned()));
    assert_eq!(store.get("key2".to_owned())?, Some("value2".to_owned()));

    // Open from the log again and check persistent data.
    let files = store.log_files();
    drop(store);
    let mut store = KvStore::open(files)?;
    assert_eq!(store.get("key1".to_owned())?, Some("value1".to_owned()));
    assert_eq!(store.get("key2".to_owned())?, Some("value2".to_owned()));

    Ok(())
}

//
// Test 2: Should overwrite existent value
//
#[test]
fn overwrite_value() -> Result<(), KvsError> {
    let mut store = KvStore::open(Vec::new())?;

    store.set("key1".to_owned(), "value1".to_owned())?;
    assert_eq!(store.get("key1".to_owned())?, Some("value1".to_owned()));
    store.set("key1".to_owned(), "value2".to_owned())?;
    assert_eq!(store.get("key1".to_owned())?, Some("value2".to_owned()));

    // Open from the log again and check persistent data.
    let files = store.log_files();
    drop(store);
    let mut store = KvStore::open(files)?;
    assert_eq!(store.get("key1".to_owned())?, Some("value2".to_owned()));
    store.set("key1".to_owned(), "value3".to_owned())?;
    assert_eq!(store.get("key1".to_owned())?, Some("value3".to_owned()));

    Ok(())
}

//
// Test 3: Should get `None` when getting a non-existent key
//
#[test]
fn get_non_existent_value() -> Result<(), KvsError> {
    let mut store = KvStore::open(Vec::new())?;

    store.set("key1".to_owned(), "value1".to_owned())?;
    assert_eq!(store.get("key2".to_owned())?, None);

    // Open from the log again and check persistent data.
    let files = store.log_files();
    drop(store);
    let mut store = KvStore::open(files)?;
    assert_eq!(store.get("key2".to_owned())?, None);

    Ok(())
}

//
// Test 4:
//
#[test]
fn remove_non_existent_key() -> Result<(), KvsError> {
    let mut store = KvStore::open(Vec::new())?;
    assert!(store.remove("key1".to_owned()).is_err());
    Ok(())
}

//
// Test 5: Should remove a key
//
#[test]
fn remove_key() -> Result<(), KvsError> {
    let mut store = KvStore::open(Vec::new())?;
    store.set("key1".to_owned(), "value1".to_owned())?;
    assert!(store.remove("key1".to_owned()).is_ok());
    assert_eq!(store.get("key1".to_owned())?, None);
    Ok(())
}
