use settings_store::Committed;
use settings_store::datastore::DataStore;
use settings_store::error::{Error, InvalidKeyReason};
use settings_store::filesystem::{FilesystemDataStore, key_for_relative_path};
use settings_store::key::{Key, KeyType};
use settings_store::memory::MemoryDataStore;
use settings_store::scalar::{
    deserialize_scalar, deserialize_scalar_list, serialize_scalar, serialize_scalar_list,
};

#[test]
fn data_path() {
    let f = FilesystemDataStore::new("/base");
    let key = Key::new(KeyType::Data, "a.b.c").unwrap();

    let pending = f.data_path(&key, Committed::Pending).unwrap();
    assert_eq!(pending, "/base/pending/a/b/c");

    let live = f.data_path(&key, Committed::Live).unwrap();
    assert_eq!(live, "/base/live/a/b/c");
}

#[test]
fn metadata_path() {
    let f = FilesystemDataStore::new("/base");
    let data_key = Key::new(KeyType::Data, "a.b.c").unwrap();
    let md_key = Key::new(KeyType::Meta, "my-metadata").unwrap();

    let pending = f.metadata_path(&md_key, &data_key, Committed::Pending).unwrap();
    assert_eq!(pending, "/base/pending/a/b/c.my-metadata");

    let live = f.metadata_path(&md_key, &data_key, Committed::Live).unwrap();
    assert_eq!(live, "/base/live/a/b/c.my-metadata");
}

#[test]
fn key_validation_reasons() {
    assert!(Key::new(KeyType::Data, "a.b.c").is_ok());
    assert!(Key::new(KeyType::Data, "a-b_c9").is_ok());
    assert!(Key::new(KeyType::Meta, "my-metadata").is_ok());

    let reason = |r: Result<Key, Error>| match r.unwrap_err() {
        Error::InvalidKey { reason, .. } => reason,
        _ => panic!("expected an invalid-key error"),
    };

    assert_eq!(reason(Key::new(KeyType::Data, "")), InvalidKeyReason::Empty);
    assert_eq!(reason(Key::new(KeyType::Data, ".a")), InvalidKeyReason::Empty);
    assert_eq!(reason(Key::new(KeyType::Data, "a.")), InvalidKeyReason::Empty);
    assert_eq!(reason(Key::new(KeyType::Data, "a..b")), InvalidKeyReason::Empty);
    assert_eq!(reason(Key::new(KeyType::Data, "a/b")), InvalidKeyReason::BadCharacter);
    assert_eq!(reason(Key::new(KeyType::Meta, "a.b")), InvalidKeyReason::WrongArity);
    let long = "x".repeat(5000);
    assert_eq!(reason(Key::new(KeyType::Data, &long)), InvalidKeyReason::TooLong);
}

#[test]
fn traversal_attempts_fail_key_validation() {
    // the character class has no separator and no standalone dots, so any
    // text that could climb out of the scope root is rejected at make time
    assert!(Key::new(KeyType::Data, "../etc/passwd").is_err());
    assert!(Key::new(KeyType::Data, "a/../b").is_err());
    assert!(Key::new(KeyType::Data, "..").is_err());
    assert!(Key::new(KeyType::Data, "a.b/c").is_err());
}

#[test]
fn key_segments_and_prefix() {
    let key = Key::new(KeyType::Data, "a.b.c").unwrap();
    assert_eq!(key.segments(), vec!["a".to_string(), "b".to_string(), "c".to_string()]);
    assert_eq!(key.as_str(), "a.b.c");
    assert!(key.starts_with("a.b"));
    assert!(key.starts_with("a.b.c"));
    assert!(!key.starts_with("a.b.c.d"));
    assert!(!key.starts_with("b"));

    let settings = Key::new(KeyType::Data, "settingsfoo").unwrap();
    assert!(settings.starts_with("settings"));
    assert!(!settings.starts_with("settings."));
}

#[test]
fn scalar_strings_round_trip() {
    assert_eq!(serialize_scalar("tz"), "\"tz\"");
    assert_eq!(serialize_scalar(""), "\"\"");
    assert_eq!(serialize_scalar("a\"b\\c"), "\"a\\\"b\\\\c\"");
    assert_eq!(serialize_scalar("line\nbreak"), "\"line\\u000abreak\"");

    assert_eq!(deserialize_scalar("\"tz\"").unwrap(), "tz");
    assert_eq!(deserialize_scalar("\"a\\\"b\\\\c\"").unwrap(), "a\"b\\c");
    assert_eq!(deserialize_scalar("\"line\\u000abreak\"").unwrap(), "line\nbreak");
    assert_eq!(deserialize_scalar("\"tab\\there\"").unwrap(), "tab\there");

    for s in &["tz", "", "quote\"back\\slash", "ctl\u{0001}\n\t\r"] {
        let encoded = serialize_scalar(s);
        assert_eq!(&deserialize_scalar(&encoded).unwrap(), s);
    }
}

#[test]
fn scalar_strings_reject_malformed() {
    assert!(matches!(
        deserialize_scalar("tz").unwrap_err(),
        Error::ScalarSerialization { .. }
    ));
    assert!(deserialize_scalar("\"unterminated").is_err());
    assert!(deserialize_scalar("\"trailing\" ").is_err());
    assert!(deserialize_scalar("\"bad\\escape q\"").is_err());
    assert!(deserialize_scalar("").is_err());
}

#[test]
fn scalar_lists_round_trip() {
    let v = vec!["file1".to_string()];
    assert_eq!(serialize_scalar_list(&v), "[\"file1\"]");
    let v2 = vec!["echo hi".to_string(), "echo bye".to_string()];
    assert_eq!(serialize_scalar_list(&v2), "[\"echo hi\",\"echo bye\"]");
    let none: Vec<String> = Vec::new();
    assert_eq!(serialize_scalar_list(&none), "[]");

    assert_eq!(deserialize_scalar_list("[\"file1\"]").unwrap(), v);
    assert_eq!(deserialize_scalar_list("[\"echo hi\",\"echo bye\"]").unwrap(), v2);
    assert_eq!(deserialize_scalar_list("[]").unwrap(), none);

    assert!(deserialize_scalar_list("[\"a\",]").is_err());
    assert!(deserialize_scalar_list("[a]").is_err());
    assert!(deserialize_scalar_list("\"a\"").is_err());
}

#[test]
fn relative_paths_become_keys() {
    let key = key_for_relative_path("a/b/c").unwrap();
    assert_eq!(key.as_str(), "a.b.c");
    assert_eq!(key.kind(), KeyType::Data);

    let flat = key_for_relative_path("hostname").unwrap();
    assert_eq!(flat.as_str(), "hostname");

    // metadata files carry a dot in their base name and are not data keys
    assert!(key_for_relative_path("a/b/c.my-metadata").is_none());
    // empty segments and foreign characters are not data keys either
    assert!(key_for_relative_path("a//b").is_none());
    assert!(key_for_relative_path("a/b/").is_none());
    assert!(key_for_relative_path("a/b c").is_none());
}

#[test]
fn set_key_stores_value_verbatim() {
    // staging a raw value and reading it back, next to the file path the
    // filesystem layout would use for it
    let mut ds = MemoryDataStore::new();
    let key = Key::new(KeyType::Data, "a.b.c").unwrap();
    ds.set_key(&key, "\"v\"", Committed::Pending).unwrap();
    assert_eq!(ds.get_key(&key, Committed::Pending).unwrap(), Some("\"v\"".to_string()));
    assert_eq!(ds.get_key(&key, Committed::Live).unwrap(), None);
    assert!(ds.key_populated(&key, Committed::Pending).unwrap());

    let f = FilesystemDataStore::new("/b");
    assert_eq!(f.data_path(&key, Committed::Pending).unwrap(), "/b/pending/a/b/c");
}
