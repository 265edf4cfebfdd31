use lit::bindings::Bindings;
use lit::config::Config;

fn lookup(v: &str) -> Option<String> {
    if v.contains("tempfile") {
        Some(format!("/tmp/temp-{}", v))
    } else {
        None
    }
}

#[test]
fn lookup_variable_works_correctly() {
    let mut config = Config::default();
    config.constants.insert("name", "bob");
    let mut variables = config.constants.clone();

    // Can lookup constants
    assert_eq!(
        "bob",
        config
            .lookup_variable("name", &mut variables, lookup("name").as_deref())
            .unwrap(),
        "cannot lookup constants by name"
    );
    let first_temp = config
        .lookup_variable("first_tempfile", &mut variables, lookup("first_tempfile").as_deref())
        .unwrap();
    let second_temp = config
        .lookup_variable("second_tempfile", &mut variables, lookup("second_tempfile").as_deref())
        .unwrap();

    assert!(
        first_temp != second_temp,
        "different temporary paths should be different"
    );

    // On a second lookup the recorded value wins, whatever the dynamic
    // lookup would now produce.
    assert_eq!(
        first_temp,
        config
            .lookup_variable("first_tempfile", &mut variables, Some("/tmp/changed"))
            .unwrap(),
        "first temp has changed its value"
    );

    assert_eq!(
        second_temp,
        config
            .lookup_variable("second_tempfile", &mut variables, None)
            .unwrap(),
        "second temp has changed its value"
    );
}

#[test]
fn lookup_variable_fails_without_binding_or_fresh_value() {
    let config = Config::default();
    let mut variables = Bindings::new();
    assert_eq!(config.lookup_variable("missing", &mut variables, None), None);
    assert!(!variables.contains_key("missing"));
}

#[test]
fn extensions_whitelist_test_files() {
    let mut config = Config::default();
    assert!(!config.is_extension_supported("txt"));
    config.add_extension("txt");
    config.add_extensions(&["sh", "ll"]);
    assert!(config.is_extension_supported("txt"));
    assert!(config.is_extension_supported("sh"));
    assert!(config.is_extension_supported("ll"));
    assert!(!config.is_extension_supported("rs"));
}

#[test]
fn search_paths_are_recorded() {
    let mut config = Config::default();
    config.add_search_path("tests/cases");
    config.add_executable_search_path("target/debug");
    assert_eq!(config.test_paths, vec!["tests/cases".to_string()]);
    assert_eq!(
        config.extra_executable_search_paths,
        vec!["target/debug".to_string()]
    );
}

#[test]
fn default_configuration_values() {
    let config = Config::default();
    assert!(config.supported_file_extensions.is_empty());
    assert!(config.test_paths.is_empty());
    assert!(config.cleanup_temporary_files);
    assert_eq!(config.save_artifacts_to_directory, None);
    assert!(!config.dump_variable_resolution);
    assert_eq!(config.truncate_output_context_to_number_of_lines, Some(10));
    assert!(!config.always_show_stderr);
    assert_eq!(config.shell, "bash");
}

#[test]
fn bindings_insert_and_get() {
    let mut b = Bindings::new();
    assert_eq!(b.get("k"), None);
    assert!(!b.contains_key("k"));
    b.insert("k", "1");
    assert_eq!(b.get("k").map(String::as_str), Some("1"));
    b.insert("k", "2");
    assert_eq!(b.get("k").map(String::as_str), Some("2"));
    b.insert("other", "x");
    assert_eq!(b.get("k").map(String::as_str), Some("2"));
    assert_eq!(b.get("other").map(String::as_str), Some("x"));
    assert!(b.contains_key("other"));
}
