use settings_store::Committed;
use settings_store::controller::{
    changed_keys_json, commit, get_configuration_files, get_configuration_files_names,
    get_metadata, get_pending_settings, get_services, get_services_names, get_settings,
    get_settings_keys, get_settings_prefix, populate_defaults, set_settings, settings_input,
};
use settings_store::datastore::DataStore;
use settings_store::error::Error;
use settings_store::key::{Key, KeyType};
use settings_store::memory::MemoryDataStore;
use settings_store::model::{configuration_files_get, Service, Settings, services_get};
use settings_store::render::{get_config_file_names, render_config_files};

fn data_key(text: &str) -> Key {
    Key::new(KeyType::Data, text).unwrap()
}

fn meta_key(text: &str) -> Key {
    Key::new(KeyType::Meta, text).unwrap()
}

#[test]
fn get_settings_works() {
    let mut ds = MemoryDataStore::new();
    ds.set_key(&data_key("settings.hostname"), "\"json string\"", Committed::Live).unwrap();

    let settings = get_settings(&ds, Committed::Live).unwrap();
    assert_eq!(settings.hostname, Some("json string".to_string()));
}

#[test]
fn get_settings_prefix_works() {
    let mut ds = MemoryDataStore::new();
    ds.set_key(&data_key("settings.timezone"), "\"json string\"", Committed::Live).unwrap();

    let settings = get_settings_prefix(&ds, "", Committed::Live).unwrap();
    assert_eq!(settings.timezone, Some("json string".to_string()));

    let settings = get_settings_prefix(&ds, "tim", Committed::Live).unwrap();
    assert_eq!(settings.timezone, Some("json string".to_string()));

    let settings = get_settings_prefix(&ds, "timbits", Committed::Live).unwrap();
    assert_eq!(settings.timezone, None);
}

#[test]
fn get_settings_keys_works() {
    let mut ds = MemoryDataStore::new();
    ds.set_key(&data_key("settings.timezone"), "\"json string 1\"", Committed::Live).unwrap();
    ds.set_key(&data_key("settings.hostname"), "\"json string 2\"", Committed::Live).unwrap();

    let keys = vec!["settings.timezone".to_string()];
    let settings = get_settings_keys(&ds, &keys, Committed::Live).unwrap();
    assert_eq!(settings.timezone, Some("json string 1".to_string()));
    assert_eq!(settings.hostname, None);
}

#[test]
fn get_services_names_works() {
    let mut ds = MemoryDataStore::new();
    ds.set_key(
        &data_key("services.foo.configuration-files"),
        "[\"file1\"]",
        Committed::Pending,
    )
    .unwrap();
    ds.set_key(&data_key("services.foo.restart-commands"), "[\"echo hi\"]", Committed::Pending)
        .unwrap();

    let names = vec!["foo".to_string()];
    let services = get_services_names(&ds, &names, Committed::Pending).unwrap();
    assert_eq!(services.len(), 1);
    assert_eq!(services[0].0, "foo".to_string());
    assert_eq!(
        services[0].1,
        Service {
            configuration_files: vec!["file1".to_string()],
            restart_commands: vec!["echo hi".to_string()],
        }
    );

    let missing = vec!["bar".to_string()];
    let err = get_services_names(&ds, &missing, Committed::Pending).unwrap_err();
    match err {
        Error::ListKeys { requested } => assert_eq!(requested, "services.bar"),
        other => panic!("expected a list-keys error, got {:?}", other),
    }
}

#[test]
fn settings_input_works() {
    let mut settings = Settings::default();
    settings.timezone = Some("tz".to_string());
    assert_eq!(settings, settings_input(r#"{"timezone": "tz"}"#).unwrap());
    assert_eq!(settings, settings_input(r#"{"settings": {"timezone": "tz"}}"#).unwrap());
}

#[test]
fn set_settings_works() {
    let mut settings = Settings::default();
    settings.timezone = Some("tz".to_string());

    let mut ds = MemoryDataStore::new();
    set_settings(&mut ds, &settings).unwrap();

    assert_eq!(
        Some("\"tz\"".to_string()),
        ds.get_key(&data_key("settings.timezone"), Committed::Pending).unwrap()
    );
}

#[test]
fn get_metadata_works() {
    let mut ds = MemoryDataStore::new();
    for name in &["abc", "def"] {
        ds.set_metadata(&meta_key("my-meta"), &data_key(name), "\"json string\"").unwrap();
    }

    let requested = vec!["abc".to_string(), "def".to_string()];
    let actual = get_metadata(&ds, "my-meta", &requested).unwrap();
    assert_eq!(
        actual,
        vec![
            ("abc".to_string(), "json string".to_string()),
            ("def".to_string(), "json string".to_string()),
        ]
    );
}

#[test]
fn commit_works() {
    let mut ds = MemoryDataStore::new();
    ds.set_key(&data_key("settings.hostname"), "\"json string\"", Committed::Pending).unwrap();

    let settings = get_settings(&ds, Committed::Pending).unwrap();
    assert_eq!(settings.hostname, Some("json string".to_string()));
    get_settings(&ds, Committed::Live).unwrap_err();

    commit(&mut ds).unwrap();

    get_settings(&ds, Committed::Pending).unwrap_err();
    let settings = get_settings(&ds, Committed::Live).unwrap();
    assert_eq!(settings.hostname, Some("json string".to_string()));
}

#[test]
fn test_get_config_file_names() {
    let input_map = vec![
        (
            "foo".to_string(),
            Service {
                configuration_files: vec!["file1".to_string()],
                restart_commands: vec!["echo hi".to_string()],
            },
        ),
        (
            "bar".to_string(),
            Service {
                configuration_files: vec!["file1".to_string(), "file2".to_string()],
                restart_commands: vec!["echo hi".to_string()],
            },
        ),
    ];

    let names = get_config_file_names(&input_map);
    assert_eq!(names.len(), 2);
    assert!(names.iter().any(|n| n == "file1"));
    assert!(names.iter().any(|n| n == "file2"));
}

#[test]
fn set_settings_then_commit_round_trip() {
    let mut settings = Settings::default();
    settings.timezone = Some("tz".to_string());

    let mut ds = MemoryDataStore::new();
    set_settings(&mut ds, &settings).unwrap();
    assert_eq!(
        Some("\"tz\"".to_string()),
        ds.get_key(&data_key("settings.timezone"), Committed::Pending).unwrap()
    );

    let changed = commit(&mut ds).unwrap();
    assert!(changed.iter().any(|k| k.as_str() == "settings.timezone"));

    assert_eq!(None, ds.get_key(&data_key("settings.timezone"), Committed::Pending).unwrap());
    assert_eq!(
        Some("\"tz\"".to_string()),
        ds.get_key(&data_key("settings.timezone"), Committed::Live).unwrap()
    );
}

#[test]
fn pending_settings_default_when_empty() {
    let ds = MemoryDataStore::new();
    let settings = get_pending_settings(&ds).unwrap();
    assert_eq!(settings, Settings::default());
}

#[test]
fn strict_decoding_and_missing_data() {
    let ds = MemoryDataStore::new();
    match get_settings(&ds, Committed::Live).unwrap_err() {
        Error::MissingData { prefix } => assert_eq!(prefix, "settings"),
        other => panic!("expected missing data, got {:?}", other),
    }
    match get_services(&ds).unwrap_err() {
        Error::MissingData { prefix } => assert_eq!(prefix, "services"),
        other => panic!("expected missing data, got {:?}", other),
    }
    match get_configuration_files(&ds).unwrap_err() {
        Error::MissingData { prefix } => assert_eq!(prefix, "configuration-files"),
        other => panic!("expected missing data, got {:?}", other),
    }

    let mut ds = MemoryDataStore::new();
    ds.set_key(&data_key("settings.unknown"), "\"x\"", Committed::Live).unwrap();
    let err = get_settings(&ds, Committed::Live).unwrap_err();
    assert!(matches!(err, Error::Deserialization { .. }));

    let mut ds = MemoryDataStore::new();
    ds.set_key(&data_key("settings.hostname"), "not json", Committed::Live).unwrap();
    let err = get_settings(&ds, Committed::Live).unwrap_err();
    assert!(matches!(err, Error::Deserialization { .. }));
}

#[test]
fn settings_input_error_order() {
    assert!(matches!(settings_input("{not json").unwrap_err(), Error::InvalidJson));
    assert!(matches!(settings_input("[1, 2]").unwrap_err(), Error::NotJsonObject));
    assert!(matches!(settings_input(r#"{"x": 1}"#).unwrap_err(), Error::NoSettings));
    assert!(matches!(
        settings_input(r#"{"settings": 5}"#).unwrap_err(),
        Error::InvalidSettings
    ));
}

#[test]
fn list_populated_keys_filters_textually() {
    let mut ds = MemoryDataStore::new();
    ds.set_key(&data_key("settings.hostname"), "\"a\"", Committed::Live).unwrap();
    ds.set_key(&data_key("settingsfoo"), "\"b\"", Committed::Live).unwrap();
    ds.set_key(&data_key("other.key"), "\"c\"", Committed::Live).unwrap();

    let keys = ds.list_populated_keys("settings", Committed::Live).unwrap();
    assert_eq!(keys.len(), 2);
    assert!(keys.iter().any(|k| k.as_str() == "settings.hostname"));
    assert!(keys.iter().any(|k| k.as_str() == "settingsfoo"));

    let keys = ds.list_populated_keys("settings.", Committed::Live).unwrap();
    assert_eq!(keys.len(), 1);
    assert_eq!(keys[0].as_str(), "settings.hostname");
}

#[test]
fn commit_returns_settings_keys_only() {
    let mut ds = MemoryDataStore::new();
    ds.set_key(&data_key("settings.hostname"), "\"h\"", Committed::Pending).unwrap();
    ds.set_key(&data_key("other.key"), "\"x\"", Committed::Pending).unwrap();

    let changed = commit(&mut ds).unwrap();
    assert_eq!(changed.len(), 1);
    assert_eq!(changed[0].as_str(), "settings.hostname");

    // the non-settings pending key was discarded with the pending scope
    assert_eq!(None, ds.get_key(&data_key("other.key"), Committed::Pending).unwrap());
    assert_eq!(None, ds.get_key(&data_key("other.key"), Committed::Live).unwrap());
}

#[test]
fn get_services_and_configuration_files() {
    let mut ds = MemoryDataStore::new();
    ds.set_key(&data_key("services.foo.configuration-files"), "[\"file1\"]", Committed::Live)
        .unwrap();
    ds.set_key(&data_key("services.foo.restart-commands"), "[\"echo hi\"]", Committed::Live)
        .unwrap();
    ds.set_key(&data_key("configuration-files.file1.path"), "\"/etc/file1.conf\"", Committed::Live)
        .unwrap();
    ds.set_key(
        &data_key("configuration-files.file1.template-path"),
        "\"/usr/share/templates/file1\"",
        Committed::Live,
    )
    .unwrap();

    let services = get_services(&ds).unwrap();
    assert_eq!(services.len(), 1);
    let svc = services_get(&services, "foo").unwrap();
    assert_eq!(svc.configuration_files, vec!["file1".to_string()]);

    let files = get_configuration_files(&ds).unwrap();
    assert_eq!(files.len(), 1);
    assert_eq!(files[0].0, "file1");
    let descriptor = configuration_files_get(&files, "file1").unwrap();
    assert_eq!(descriptor.path, "/etc/file1.conf");
    assert_eq!(descriptor.template_path, "/usr/share/templates/file1");
}

#[test]
fn get_configuration_files_names_works() {
    let mut ds = MemoryDataStore::new();
    ds.set_key(&data_key("configuration-files.file1.path"), "\"/etc/file1.conf\"", Committed::Live)
        .unwrap();
    ds.set_key(
        &data_key("configuration-files.file1.template-path"),
        "\"/t/file1\"",
        Committed::Live,
    )
    .unwrap();

    let names = vec!["file1".to_string()];
    let files = get_configuration_files_names(&ds, &names, Committed::Live).unwrap();
    assert_eq!(files.len(), 1);
    assert_eq!(files[0].0, "file1");
    assert_eq!(files[0].1.path, "/etc/file1.conf");

    let missing = vec!["absent".to_string()];
    let err = get_configuration_files_names(&ds, &missing, Committed::Live).unwrap_err();
    match err {
        Error::ListKeys { requested } => assert_eq!(requested, "configuration-files.absent"),
        other => panic!("expected a list-keys error, got {:?}", other),
    }
}

#[test]
fn render_config_files_wraps_settings() {
    let mut registry = handlebars::Handlebars::new();
    registry.register_template_string("file1", "host is {{settings.hostname}}").unwrap();

    let files = vec![(
        "file1".to_string(),
        settings_store::model::ConfigurationFile {
            path: "/etc/file1.conf".to_string(),
            template_path: "/usr/share/templates/file1".to_string(),
        },
    )];
    let mut settings = Settings::default();
    settings.hostname = Some("myhost".to_string());

    let rendered = render_config_files(&registry, &files, &settings).unwrap();
    assert_eq!(rendered.len(), 1);
    assert_eq!(rendered[0].path().as_str(), "/etc/file1.conf");
    assert_eq!(rendered[0].rendered().as_str(), "host is myhost");

    let missing = vec![(
        "file2".to_string(),
        settings_store::model::ConfigurationFile {
            path: "/etc/file2.conf".to_string(),
            template_path: "t".to_string(),
        },
    )];
    let err = render_config_files(&registry, &missing, &settings).unwrap_err();
    assert!(matches!(err, Error::TemplateRender { .. }));
}

#[test]
fn changed_keys_json_is_an_array_of_texts() {
    let keys = vec![data_key("settings.hostname"), data_key("settings.timezone")];
    assert_eq!(
        changed_keys_json(&keys),
        "[\"settings.hostname\",\"settings.timezone\"]".to_string()
    );
    let none: Vec<Key> = Vec::new();
    assert_eq!(changed_keys_json(&none), "[]".to_string());
}

#[test]
fn populate_defaults_targets_live() {
    let mut ds = MemoryDataStore::new();
    let defaults = vec![
        ("settings.hostname".to_string(), "\"h\"".to_string()),
        ("settings.timezone".to_string(), "\"tz\"".to_string()),
    ];
    let metadata = vec![(
        "settings.hostname".to_string(),
        "setting-generator".to_string(),
        "\"gen\"".to_string(),
    )];
    populate_defaults(&mut ds, &defaults, &metadata).unwrap();

    let settings = get_settings(&ds, Committed::Live).unwrap();
    assert_eq!(settings.hostname, Some("h".to_string()));
    assert_eq!(settings.timezone, Some("tz".to_string()));
    assert_eq!(
        Some("\"gen\"".to_string()),
        ds.get_metadata_raw(&meta_key("setting-generator"), &data_key("settings.hostname"))
            .unwrap()
    );
    let pending = get_pending_settings(&ds).unwrap();
    assert_eq!(pending, Settings::default());
}

#[test]
fn get_metadata_skips_absent_keys() {
    let mut ds = MemoryDataStore::new();
    ds.set_metadata(&meta_key("my-meta"), &data_key("abc"), "\"v\"").unwrap();

    let requested = vec!["abc".to_string(), "absent".to_string()];
    let actual = get_metadata(&ds, "my-meta", &requested).unwrap();
    assert_eq!(actual, vec![("abc".to_string(), "v".to_string())]);
}
