use bingo::config::{BingoConfig, BingoConfigFile, ExecutableType};
use bingo::error::BingoError;

const BIN: &str = "/home/user/.bingo/bin";

fn sample_config() -> BingoConfig {
    let mut c = BingoConfig::new();
    c.set_version("0.1.0");
    c.add_executable(
        BIN,
        "/usr/bin/true",
        "t",
        ExecutableType::Binary,
        true,
        true,
        true,
        true,
    )
    .unwrap();
    c.add_executable(
        BIN,
        "/opt/tools/serve",
        "serve",
        ExecutableType::LinkBinary,
        true,
        true,
        true,
        true,
    )
    .unwrap();
    c
}

#[test]
fn empty_registry_serializes_to_the_fixed_document() {
    let mut c = BingoConfig::new();
    c.set_version("0.1.0");
    let s = c.to_json().unwrap();
    assert_eq!(s, "{\n  \"version\": \"0.1.0\",\n  \"executables\": []\n}");
}

#[test]
fn one_entry_serializes_to_the_fixed_document() {
    let mut c = BingoConfig::new();
    c.set_version("0.1.0");
    c.add_executable(
        BIN,
        "/usr/bin/true",
        "t",
        ExecutableType::Binary,
        true,
        true,
        true,
        true,
    )
    .unwrap();
    let s = c.to_json().unwrap();
    let expected = "{\n  \"version\": \"0.1.0\",\n  \"executables\": [\n    {\n      \"name\": \"t\",\n      \"path\": \"/usr/bin/true\",\n      \"executable_type\": \"Binary\"\n    }\n  ]\n}";
    assert_eq!(s, expected);
}

#[test]
fn round_trip_preserves_the_registry() {
    let c = sample_config();
    let s = c.to_json().unwrap();
    let c2 = BingoConfig::from_json(&s).unwrap();
    assert_eq!(c2.version, "0.1.0");
    assert_eq!(c2.executables.len(), 2);
    assert_eq!(c2.executables[0].name, "t");
    assert_eq!(c2.executables[0].path, "/usr/bin/true");
    assert!(matches!(c2.executables[0].executable_type, ExecutableType::Binary));
    assert_eq!(c2.executables[1].name, "serve");
    assert_eq!(c2.executables[1].path, "/opt/tools/serve");
    assert!(matches!(c2.executables[1].executable_type, ExecutableType::LinkBinary));
}

#[test]
fn round_trip_preserves_awkward_characters() {
    let mut c = BingoConfig::new();
    c.set_version("0.1.0");
    c.add_executable(
        BIN,
        "/tmp/we\"ird\\path\nwith ctrl\u{1}",
        "na\"me\\x",
        ExecutableType::Binary,
        true,
        true,
        true,
        true,
    )
    .unwrap();
    let s = c.to_json().unwrap();
    let c2 = BingoConfig::from_json(&s).unwrap();
    assert_eq!(c2.executables.len(), 1);
    assert_eq!(c2.executables[0].name, "na\"me\\x");
    assert_eq!(c2.executables[0].path, "/tmp/we\"ird\\path\nwith ctrl\u{1}");
}

#[test]
fn serialized_document_is_real_json() {
    let c = sample_config();
    let s = c.to_json().unwrap();
    let v: serde_json::Value = serde_json::from_str(&s).expect("the manifest must parse as JSON");
    assert_eq!(v["version"].as_str().unwrap(), "0.1.0");
    let arr = v["executables"].as_array().unwrap();
    assert_eq!(arr.len(), 2);
    assert_eq!(arr[0]["name"].as_str().unwrap(), "t");
    assert_eq!(arr[0]["path"].as_str().unwrap(), "/usr/bin/true");
    assert_eq!(arr[0]["executable_type"].as_str().unwrap(), "Binary");
    assert_eq!(arr[1]["executable_type"].as_str().unwrap(), "LinkBinary");
}

#[test]
fn escaped_characters_survive_a_json_parse() {
    let mut c = BingoConfig::new();
    c.set_version("0.1.0");
    c.add_executable(
        BIN,
        "/tmp/a\"b\\c\nd",
        "q",
        ExecutableType::Binary,
        true,
        true,
        true,
        true,
    )
    .unwrap();
    let s = c.to_json().unwrap();
    let v: serde_json::Value = serde_json::from_str(&s).expect("escapes must be valid JSON");
    assert_eq!(v["executables"][0]["path"].as_str().unwrap(), "/tmp/a\"b\\c\nd");
}

#[test]
fn unknown_mode_name_reads_as_copy() {
    let doc = "{\n  \"version\": \"9\",\n  \"executables\": [\n    {\n      \"name\": \"x\",\n      \"path\": \"/bin/x\",\n      \"executable_type\": \"SomethingElse\"\n    }\n  ]\n}";
    let c = BingoConfig::from_json(doc).unwrap();
    assert!(matches!(c.executables[0].executable_type, ExecutableType::Binary));
}

#[test]
fn malformed_documents_are_config_file_errors() {
    for doc in [
        "",
        "{}",
        "not json at all",
        "{\n  \"version\": \"0.1.0\"",
        "{\n  \"version\": \"0.1.0\",\n  \"executables\": []\n}trailing",
    ] {
        match BingoConfig::from_json(doc) {
            Err(BingoError::ConfigFileError(_)) => {}
            other => panic!("expected ConfigFileError for {:?}, got {:?}", doc, other),
        }
    }
}

#[test]
fn load_replaces_the_registry_and_save_writes_it_back() {
    let c = sample_config();
    let s = c.to_json().unwrap();
    let mut f = BingoConfigFile::new("/home/user");
    f.load(&s).unwrap();
    assert_eq!(f.config.version, "0.1.0");
    assert_eq!(f.config.executables.len(), 2);
    let s2 = f.save().unwrap();
    assert_eq!(s, s2);
}

#[test]
fn load_of_garbage_keeps_the_registry_as_it_was() {
    let mut f = BingoConfigFile::new("/home/user");
    f.load(&sample_config().to_json().unwrap()).unwrap();
    let r = f.load("garbage");
    assert!(matches!(r, Err(BingoError::ConfigFileError(_))));
    assert_eq!(f.config.executables.len(), 2);
}

#[test]
fn init_writes_a_fresh_manifest_only_on_first_run() {
    assert!(BingoConfigFile::init(true, "0.1.0").is_none());
    let s = BingoConfigFile::init(false, "0.1.0").unwrap();
    assert_eq!(s, "{\n  \"version\": \"0.1.0\",\n  \"executables\": []\n}");
    let c = BingoConfig::from_json(&s).unwrap();
    assert_eq!(c.version, "0.1.0");
    assert_eq!(c.executables.len(), 0);
}

#[test]
fn compact_json_parses_with_lenient_mode() {
    let doc = "{\"version\":\"1\",\"executables\":[{\"name\":\"x\",\"path\":\"/p\",\"executable_type\":\"Garbage\"}]}";
    let c = BingoConfig::from_json(doc).unwrap();
    assert_eq!(c.version, "1");
    assert_eq!(c.executables.len(), 1);
    assert_eq!(c.executables[0].name, "x");
    assert_eq!(c.executables[0].path, "/p");
    assert!(matches!(c.executables[0].executable_type, ExecutableType::Binary));
}

#[test]
fn arbitrary_whitespace_between_tokens_is_accepted() {
    let doc = "  {  \"version\" :\t\"2\" ,\n\"executables\"\n:\n[ {\"name\": \"a\",\r\n \"path\" : \"/bin/a\", \"executable_type\":\"LinkBinary\" } ,\n  { \"name\":\"b\",\"path\":\"/bin/b\",\"executable_type\":\"Binary\"} ]  }  ";
    let c = BingoConfig::from_json(doc).unwrap();
    assert_eq!(c.version, "2");
    assert_eq!(c.executables.len(), 2);
    assert_eq!(c.executables[0].name, "a");
    assert!(matches!(c.executables[0].executable_type, ExecutableType::LinkBinary));
    assert_eq!(c.executables[1].name, "b");
    assert!(matches!(c.executables[1].executable_type, ExecutableType::Binary));
}

#[test]
fn short_escapes_and_unicode_escapes_are_decoded() {
    let doc = "{\"version\":\"1\",\"executables\":[{\"name\":\"n\\t1\",\"path\":\"\\/tmp\\\\x\\n\\r\\b\\f\\u0041\\u001B\",\"executable_type\":\"Binary\"}]}";
    let c = BingoConfig::from_json(doc).unwrap();
    assert_eq!(c.executables[0].name, "n\t1");
    assert_eq!(c.executables[0].path, "/tmp\\x\n\r\u{8}\u{c}A\u{1b}");
}

#[test]
fn compact_empty_registry_parses() {
    let c = BingoConfig::from_json("{\"version\":\"0.1.0\",\"executables\":[]}").unwrap();
    assert_eq!(c.version, "0.1.0");
    assert_eq!(c.executables.len(), 0);
}

#[test]
fn tolerant_reader_still_rejects_malformed_documents() {
    for doc in [
        "{\"version\":\"1\",\"executables\":[]}trailing",
        "{\"version\":\"1\",\"executables\":[",
        "{\"version\":\"1\",\"executables\":[{\"name\":\"x\"}]}",
        "{\"version\":\"1\",\"executables\":[{\"name\":\"x\",\"path\":\"/p\",\"executable_type\":\"B\\q\"}]}",
        "{\"version\":\"1\"}",
    ] {
        match BingoConfig::from_json(doc) {
            Err(BingoError::ConfigFileError(_)) => {}
            other => panic!("expected ConfigFileError for {:?}, got {:?}", doc, other),
        }
    }
}

#[test]
fn unicode_escapes_cover_the_basic_plane() {
    let doc = "{\"version\":\"1\",\"executables\":[{\"name\":\"\\u00e9\\u4E2D\",\"path\":\"/p\",\"executable_type\":\"Binary\"}]}";
    let c = BingoConfig::from_json(doc).unwrap();
    assert_eq!(c.executables[0].name, "\u{e9}\u{4e2d}");
    let bad = "{\"version\":\"1\",\"executables\":[{\"name\":\"\\uD800\",\"path\":\"/p\",\"executable_type\":\"Binary\"}]}";
    assert!(matches!(
        BingoConfig::from_json(bad),
        Err(BingoError::ConfigFileError(_))
    ));
}
