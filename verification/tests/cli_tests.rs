use tirra::ui::command_line::{process, CliCommand};

fn args(words: &[&str]) -> Vec<String> {
    words.iter().map(|w| w.to_string()).collect()
}

fn run(words: &[&str]) -> CliCommand {
    let a = args(words);
    let n = a.len();
    process(&a, n)
}

#[test]
fn no_argument_prints_usage() {
    assert!(matches!(run(&["tirra"]), CliCommand::Usage));
}

#[test]
fn unknown_command_prints_usage() {
    assert!(matches!(run(&["tirra", "frobnicate"]), CliCommand::Usage));
    assert!(matches!(run(&["tirra", "ADD", "db", "1"]), CliCommand::Usage));
}

#[test]
fn version() {
    assert!(matches!(run(&["tirra", "ver"]), CliCommand::Version));
    assert!(matches!(run(&["tirra", "ver", "extra"]), CliCommand::Version));
}

#[test]
fn add_reads_path_and_timestamp() {
    match run(&["tirra", "add", "notes.db", "1700000000"]) {
        CliCommand::Add { db_path, timestamp } => {
            assert_eq!(db_path, "notes.db");
            assert_eq!(timestamp, 1700000000);
        },
        _ => panic!("expected add"),
    }
}

#[test]
fn add_with_bad_arguments_stops() {
    assert!(matches!(run(&["tirra", "add", "notes.db"]), CliCommand::Abort));
    assert!(matches!(run(&["tirra", "add", "notes.db", "soon"]), CliCommand::Abort));
    assert!(matches!(run(&["tirra", "add", "notes.db", "1", "2"]), CliCommand::Abort));
}

#[test]
fn delete_reads_path_and_id() {
    match run(&["tirra", "delete", "notes.db", "12"]) {
        CliCommand::Delete { db_path, id } => {
            assert_eq!(db_path, "notes.db");
            assert_eq!(id, 12);
        },
        _ => panic!("expected delete"),
    }
    assert!(matches!(run(&["tirra", "delete", "notes.db", "4294967296"]), CliCommand::Abort));
    assert!(matches!(run(&["tirra", "delete", "notes.db", "-3"]), CliCommand::Abort));
}

#[test]
fn stat_and_test() {
    match run(&["tirra", "stat", "a.db"]) {
        CliCommand::Stat { db_path } => assert_eq!(db_path, "a.db"),
        _ => panic!("expected stat"),
    }
    match run(&["tirra", "test", "b.db"]) {
        CliCommand::Test { db_path } => assert_eq!(db_path, "b.db"),
        _ => panic!("expected test"),
    }
    assert!(matches!(run(&["tirra", "stat"]), CliCommand::Usage));
    assert!(matches!(run(&["tirra", "test", "a", "b"]), CliCommand::Usage));
}

#[test]
fn decrypt_and_encrypt() {
    match run(&["tirra", "decrypt", "a.db", "a.plain"]) {
        CliCommand::Decrypt { db_path, out_path } => {
            assert_eq!(db_path, "a.db");
            assert_eq!(out_path, "a.plain");
        },
        _ => panic!("expected decrypt"),
    }
    match run(&["tirra", "encrypt", "a.plain", "a.db"]) {
        CliCommand::Encrypt { clear_path, out_path } => {
            assert_eq!(clear_path, "a.plain");
            assert_eq!(out_path, "a.db");
        },
        _ => panic!("expected encrypt"),
    }
    assert!(matches!(run(&["tirra", "encrypt", "a.plain"]), CliCommand::Usage));
}

#[test]
fn count_larger_than_the_arguments_stops() {
    let a = args(&["tirra", "stat"]);
    assert!(matches!(process(&a, 3), CliCommand::Abort));
    let a = args(&["tirra"]);
    assert!(matches!(process(&a, 2), CliCommand::Abort));
}
