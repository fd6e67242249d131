use nimbus::command_processor::{process_command, process_command_at};
use nimbus::database::{Database, NANOS_PER_SEC};

#[test]
fn command_set_then_get_pairs() {
    let mut db = Database::new();
    assert_eq!(process_command("SET a 1 b 2", &mut db), "+OK");
    assert_eq!(process_command("GET a b", &mut db), "[\"1\", \"2\"]");
}

#[test]
fn command_set_with_expire_then_get() {
    let mut db = Database::new();
    assert_eq!(process_command("SET a 1 EXPIRE 60", &mut db), "+OK");
    assert_eq!(process_command("GET a", &mut db), "[\"1\"]");
}

#[test]
fn command_expire_applies_its_lifetime() {
    let mut db = Database::new();
    assert_eq!(process_command_at("SET a 1 EXPIRE 60", &mut db, 0), "+OK");
    assert_eq!(process_command_at("GET a", &mut db, 60 * NANOS_PER_SEC), "[\"1\"]");
    assert_eq!(process_command_at("GET a", &mut db, 60 * NANOS_PER_SEC + 1), "[(nil)]");
}

#[test]
fn command_expire_anywhere_among_tokens() {
    let mut db = Database::new();
    assert_eq!(process_command_at("SET EXPIRE 5 a 1", &mut db, 0), "+OK");
    assert_eq!(process_command_at("GET a", &mut db, 5 * NANOS_PER_SEC), "[\"1\"]");
    assert_eq!(process_command_at("GET a", &mut db, 5 * NANOS_PER_SEC + 1), "[(nil)]");
}

#[test]
fn command_expire_with_plus_sign() {
    let mut db = Database::new();
    assert_eq!(process_command_at("SET a 1 EXPIRE +2", &mut db, 0), "+OK");
    assert_eq!(process_command_at("GET a", &mut db, 2 * NANOS_PER_SEC + 1), "[(nil)]");
}

#[test]
fn command_set_odd_arguments() {
    let mut db = Database::new();
    assert_eq!(process_command("SET a old", &mut db), "+OK");
    assert_eq!(
        process_command("SET a", &mut db),
        "-ERR SET command requires an even number of arguments."
    );
    assert_eq!(process_command("GET a", &mut db), "[\"old\"]");
}

#[test]
fn command_set_odd_arguments_writes_nothing() {
    let mut db = Database::new();
    assert_eq!(
        process_command("SET x 1 y", &mut db),
        "-ERR SET command requires an even number of arguments."
    );
    assert_eq!(process_command("GET x", &mut db), "[(nil)]");
}

#[test]
fn command_expire_without_value() {
    let mut db = Database::new();
    assert_eq!(process_command("SET a 1 EXPIRE", &mut db), "-ERR EXPIRE specified without a value");
    assert_eq!(process_command("GET a", &mut db), "[(nil)]");
}

#[test]
fn command_expire_not_a_number() {
    let mut db = Database::new();
    assert_eq!(process_command("SET a 1 EXPIRE soon", &mut db), "-ERR Invalid EXPIRE value");
    assert_eq!(process_command("SET a 1 EXPIRE -5", &mut db), "-ERR Invalid EXPIRE value");
    assert_eq!(
        process_command("SET a 1 EXPIRE 18446744073709551616", &mut db),
        "-ERR Invalid EXPIRE value"
    );
    assert_eq!(process_command("GET a", &mut db), "[(nil)]");
}

#[test]
fn command_get_missing() {
    let mut db = Database::new();
    assert_eq!(process_command("GET missing", &mut db), "[(nil)]");
}

#[test]
fn command_get_escapes_quotes_and_repeats_keys() {
    let mut db = Database::new();
    assert_eq!(process_command("SET q \"say \\\"hi\\\"\"", &mut db), "+OK");
    assert_eq!(process_command("GET q nope q", &mut db), "[\"say \\\"hi\\\"\", (nil), \"say \\\"hi\\\"\"]");
}

#[test]
fn command_del_present_and_absent() {
    let mut db = Database::new();
    assert_eq!(process_command("SET a 1", &mut db), "+OK");
    assert_eq!(process_command("DEL a b", &mut db), "+OK");
    assert_eq!(process_command("GET a", &mut db), "[(nil)]");
    assert!(db.is_empty());
}

#[test]
fn command_unsupported_verb() {
    let mut db = Database::new();
    assert_eq!(process_command("FOO bar", &mut db), "-ERR Unsupported command or syntax error.");
    assert_eq!(process_command("", &mut db), "-ERR Unsupported command or syntax error.");
    assert_eq!(process_command("set a 1", &mut db), "-ERR Unsupported command or syntax error.");
}

#[test]
fn command_duplicate_keys_last_writer_wins() {
    let mut db = Database::new();
    assert_eq!(process_command("SET k 1 k 2", &mut db), "+OK");
    assert_eq!(process_command("GET k", &mut db), "[\"2\"]");
}

#[test]
fn command_verbs_without_arguments() {
    let mut db = Database::new();
    assert_eq!(process_command("GET", &mut db), "[]");
    assert_eq!(process_command("DEL", &mut db), "+OK");
    assert_eq!(process_command("SET", &mut db), "+OK");
}
