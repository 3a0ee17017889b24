use bingo::config::{BingoConfig, BingoConfigFile, ExecutableType};
use bingo::error::BingoError;

const BIN: &str = "/home/user/.bingo/bin";

fn add_ok(c: &mut BingoConfig, path: &str, name: &str, ty: ExecutableType) {
    c.add_executable(BIN, path, name, ty, true, true, true, true)
        .expect("registration should succeed");
}

#[test]
fn fresh_registration_lists_one_entry() {
    let mut c = BingoConfig::new();
    let r = c.add_executable(
        BIN,
        "/usr/bin/true",
        "t",
        ExecutableType::Binary,
        true,
        true,
        true,
        true,
    );
    assert!(r.is_ok());
    let entries = c.list();
    assert_eq!(entries.len(), 1);
    assert_eq!(entries[0].name, "t");
    assert_eq!(entries[0].path, "/usr/bin/true");
    assert!(matches!(entries[0].executable_type, ExecutableType::Binary));
}

#[test]
fn missing_source_is_rejected_and_nothing_is_added() {
    let mut c = BingoConfig::new();
    let r = c.add_executable(
        BIN,
        "/nonexistent/path",
        "x",
        ExecutableType::Binary,
        false,
        false,
        false,
        false,
    );
    match r {
        Err(BingoError::FileNotFound(p)) => assert_eq!(p, "/nonexistent/path"),
        other => panic!("expected FileNotFound, got {:?}", other),
    }
    assert_eq!(c.list().len(), 0);
}

#[test]
fn directory_source_is_rejected() {
    let mut c = BingoConfig::new();
    let r = c.add_executable(
        BIN,
        "/tmp",
        "d",
        ExecutableType::Binary,
        true,
        false,
        false,
        true,
    );
    assert!(matches!(r, Err(BingoError::ExecutableNotFile(_))));
    assert_eq!(c.list().len(), 0);
}

#[test]
fn non_executable_source_is_rejected() {
    let mut c = BingoConfig::new();
    let r = c.add_executable(
        BIN,
        "/etc/hostname",
        "h",
        ExecutableType::Binary,
        true,
        true,
        false,
        true,
    );
    assert!(matches!(r, Err(BingoError::ExecutableNotExecutable(_))));
    assert_eq!(c.list().len(), 0);
}

#[test]
fn failed_materialization_is_permission_denied_with_destination() {
    let mut c = BingoConfig::new();
    let r = c.add_executable(
        BIN,
        "/usr/bin/true",
        "t",
        ExecutableType::Binary,
        true,
        true,
        true,
        false,
    );
    match r {
        Err(BingoError::PermissionDenied(d)) => assert_eq!(d, "/home/user/.bingo/bin/t"),
        other => panic!("expected PermissionDenied, got {:?}", other),
    }
    assert_eq!(c.list().len(), 0);
}

#[test]
fn overwrite_keeps_one_entry_with_new_path_and_mode() {
    let mut c = BingoConfig::new();
    add_ok(&mut c, "/bin/a", "foo", ExecutableType::Binary);
    let r = c.add_executable(
        BIN,
        "/bin/b",
        "foo",
        ExecutableType::LinkBinary,
        true,
        true,
        true,
        true,
    );
    assert!(r.is_ok(), "re-registering an existing name must not be a duplicate error");
    let entries = c.list();
    assert_eq!(entries.len(), 1);
    assert_eq!(entries[0].name, "foo");
    assert_eq!(entries[0].path, "/bin/b");
    assert!(matches!(entries[0].executable_type, ExecutableType::LinkBinary));
}

#[test]
fn overwrite_skips_source_checks_for_known_name() {
    let mut c = BingoConfig::new();
    add_ok(&mut c, "/bin/a", "foo", ExecutableType::Binary);
    let r = c.add_executable(
        BIN,
        "/bin/b",
        "foo",
        ExecutableType::LinkBinary,
        false,
        false,
        false,
        true,
    );
    assert!(r.is_ok());
    assert_eq!(c.list()[0].path, "/bin/b");
}

#[test]
fn overwrite_keeps_registration_order() {
    let mut c = BingoConfig::new();
    add_ok(&mut c, "/bin/a", "first", ExecutableType::Binary);
    add_ok(&mut c, "/bin/b", "second", ExecutableType::Binary);
    add_ok(&mut c, "/bin/c", "first", ExecutableType::LinkBinary);
    let entries = c.list();
    assert_eq!(entries.len(), 2);
    assert_eq!(entries[0].name, "first");
    assert_eq!(entries[0].path, "/bin/c");
    assert_eq!(entries[1].name, "second");
}

#[test]
fn remove_is_idempotent_and_never_errors() {
    let mut c = BingoConfig::new();
    add_ok(&mut c, "/bin/a", "a", ExecutableType::Binary);
    assert!(c.remove_executable("a").is_ok());
    assert_eq!(c.list().len(), 0);
    assert!(c.remove_executable("a").is_ok());
    assert_eq!(c.list().len(), 0);
    assert!(c.remove_executable("never-there").is_ok());
}

#[test]
fn rename_moves_the_entry_name() {
    let mut c = BingoConfig::new();
    add_ok(&mut c, "/bin/a", "a", ExecutableType::LinkBinary);
    assert!(c.rename_executable("a", "b").is_ok());
    let entries = c.list();
    assert_eq!(entries.len(), 1);
    assert_eq!(entries[0].name, "b");
    assert_eq!(entries[0].path, "/bin/a");
    assert!(matches!(entries[0].executable_type, ExecutableType::LinkBinary));
    assert!(!c.contains_name("a"));
    assert!(c.contains_name("b"));
}

#[test]
fn rename_of_missing_name_is_a_no_op() {
    let mut c = BingoConfig::new();
    add_ok(&mut c, "/bin/a", "a", ExecutableType::Binary);
    assert!(c.rename_executable("zzz", "b").is_ok());
    assert_eq!(c.list().len(), 1);
    assert_eq!(c.list()[0].name, "a");
}

#[test]
fn names_stay_unique_over_a_mixed_sequence() {
    let mut c = BingoConfig::new();
    add_ok(&mut c, "/bin/a", "a", ExecutableType::Binary);
    add_ok(&mut c, "/bin/b", "b", ExecutableType::LinkBinary);
    add_ok(&mut c, "/bin/c", "a", ExecutableType::Binary);
    c.remove_executable("b").unwrap();
    add_ok(&mut c, "/bin/d", "d", ExecutableType::Binary);
    c.rename_executable("a", "e").unwrap();
    add_ok(&mut c, "/bin/e", "a", ExecutableType::Binary);
    let entries = c.list();
    for i in 0..entries.len() {
        for j in (i + 1)..entries.len() {
            assert_ne!(entries[i].name, entries[j].name);
        }
    }
}

#[test]
fn install_action_names_source_destination_and_mode() {
    let a = BingoConfig::install_executables(BIN, "/usr/bin/env", "env", ExecutableType::Binary);
    assert_eq!(a.src, "/usr/bin/env");
    assert_eq!(a.dest, "/home/user/.bingo/bin/env");
    assert!(matches!(a.executable_type, ExecutableType::Binary));
}

#[test]
fn paths_are_derived_from_home() {
    assert_eq!(bingo::config::get_config_dir("/home/user"), "/home/user/.bingo");
    assert_eq!(
        bingo::config::get_config_file("/home/user"),
        "/home/user/.bingo/bingo.json"
    );
    assert_eq!(bingo::config::get_bingo_bin_dir("/home/user"), "/home/user/.bingo/bin");
}

#[test]
fn config_file_carries_paths_and_empty_registry() {
    let f = BingoConfigFile::new("/home/user");
    assert_eq!(f.config_dir_path, "/home/user/.bingo");
    assert_eq!(f.config_file_path, "/home/user/.bingo/bingo.json");
    assert_eq!(f.config.version, "");
    assert_eq!(f.config.executables.len(), 0);
}

#[test]
fn export_path_line_names_the_bin_dir() {
    let f = BingoConfigFile::new("/home/user");
    assert_eq!(f.export_path(), "export PATH=/home/user/.bingo/bin:$PATH");
}

#[test]
fn set_version_stamps_the_registry() {
    let mut c = BingoConfig::new();
    c.set_version("1.2.3");
    assert_eq!(c.version, "1.2.3");
}

#[test]
fn flags_select_the_mode() {
    assert!(matches!(ExecutableType::from_flag("lb"), ExecutableType::LinkBinary));
    assert!(matches!(ExecutableType::from_flag("b"), ExecutableType::Binary));
    assert!(matches!(ExecutableType::from_flag("anything"), ExecutableType::Binary));
    assert_eq!(ExecutableType::Binary.flag(), "b");
    assert_eq!(ExecutableType::LinkBinary.flag(), "lb");
}

#[test]
fn uninstall_names_the_artifact_to_remove() {
    let dest = BingoConfig::uninstall_executables(BIN, "env");
    assert_eq!(dest, "/home/user/.bingo/bin/env");
}

#[test]
fn error_messages_carry_kind_and_payload() {
    assert_eq!(
        BingoError::FileNotFound("/a/b".to_string()).message(),
        "file not found: /a/b"
    );
    assert_eq!(
        BingoError::DuplicateExecutableName("x".to_string()).message(),
        "duplicate executable name: x"
    );
    assert_eq!(
        BingoError::ConfigFileNotFound("no such file".to_string()).message(),
        "config file not found: no such file"
    );
    assert_eq!(
        BingoError::ConfigFileError("bad".to_string()).message(),
        "config file error: bad"
    );
    assert_eq!(
        BingoError::ExecutableNotFile("/d".to_string()).message(),
        "executable must be a file: /d"
    );
    assert_eq!(
        BingoError::ExecutableNotExecutable("/p".to_string()).message(),
        "executable cannot be executed: /p"
    );
    assert_eq!(
        BingoError::PermissionDenied("/q".to_string()).message(),
        "Permission denied: /q"
    );
}

#[test]
fn executability_requires_an_execute_bit() {
    assert!(bingo::config::mode_is_executable(0o755));
    assert!(bingo::config::mode_is_executable(0o100));
    assert!(bingo::config::mode_is_executable(0o010));
    assert!(bingo::config::mode_is_executable(0o001));
    assert!(!bingo::config::mode_is_executable(0o644));
    assert!(!bingo::config::mode_is_executable(0o000));
}
