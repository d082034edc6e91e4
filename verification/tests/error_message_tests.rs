use sdiff::error::{sourced_message, OutputError, ParseError, SdiffError};

#[test]
fn messages_name_the_document() {
    assert_eq!(ParseError::file_not_found("a.json").message(), "File not found: a.json");
    assert_eq!(
        ParseError::unknown_format("a.txt").message(),
        "Could not detect file format for a.txt"
    );
    assert_eq!(
        OutputError::UnknownFormat { format: "xml".to_string() }.message(),
        "Unknown output format: xml"
    );
    assert_eq!(
        SdiffError::ConfigError { message: "bad".to_string() }.message(),
        "Invalid configuration: bad"
    );
}

#[test]
fn messages_end_in_the_words_of_the_error_that_was_met() {
    let json = serde_json::from_str::<serde_json::Value>("{").unwrap_err();
    let words = json.to_string();
    assert!(!words.is_empty());
    assert_eq!(
        ParseError::json_error("a.json", json).message(),
        format!("Invalid JSON in a.json: {}", words)
    );

    let yaml = serde_yaml::from_str::<serde_yaml::Value>("[1, 2,").unwrap_err();
    let words = yaml.to_string();
    assert!(!words.is_empty());
    assert_eq!(
        ParseError::yaml_error("a.yaml", yaml).message(),
        format!("Invalid YAML in a.yaml: {}", words)
    );

    let toml = toml::from_str::<toml::Value>("a = ").unwrap_err();
    let words = toml.to_string();
    assert!(!words.is_empty());
    assert_eq!(
        ParseError::toml_error("a.toml", toml).message(),
        format!("Invalid TOML in a.toml: {}", words)
    );

    let io = std::io::Error::new(std::io::ErrorKind::Other, "disk on fire");
    assert_eq!(
        ParseError::read_error("a.json", io).message(),
        "Failed to read file a.json: disk on fire"
    );

    let json = serde_json::from_str::<serde_json::Value>("tru").unwrap_err();
    let words = json.to_string();
    assert_eq!(
        OutputError::JsonSerializationError { source: json }.message(),
        format!("Failed to serialize to JSON: {}", words)
    );
}

#[test]
fn a_carried_error_says_what_it_says() {
    let error: SdiffError = ParseError::file_not_found("a.json").into();
    assert!(matches!(error, SdiffError::Parse(ParseError::FileNotFound { .. })));
    assert_eq!(error.message(), "File not found: a.json");
    let error: SdiffError = OutputError::UnknownFormat { format: "xml".to_string() }.into();
    assert!(matches!(error, SdiffError::Output(_)));
    assert_eq!(error.message(), "Unknown output format: xml");
    assert_eq!(sourced_message("Invalid X in ", "p", "w"), "Invalid X in p: w");
}
