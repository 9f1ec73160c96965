use kv_store::command::{run, verb_of, Failure, Outcome, Verb};
use kv_store::database::{Database, HELP_TEXT};

fn words(args: &[&str]) -> Vec<String> {
    args.iter().map(|word| word.to_string()).collect()
}

fn sample() -> Database {
    let mut db = Database::new();
    db.insert("name".to_string(), "bob".to_string());
    db.insert(".token".to_string(), "secret".to_string());
    db
}

#[test]
fn words_name_commands() {
    assert_eq!(verb_of(&"get".to_string()), Verb::Get);
    assert_eq!(verb_of(&"add".to_string()), Verb::Add);
    assert_eq!(verb_of(&"remove".to_string()), Verb::Remove);
    assert_eq!(verb_of(&"list".to_string()), Verb::List);
    assert_eq!(verb_of(&"help".to_string()), Verb::Help);
    assert_eq!(verb_of(&"Get".to_string()), Verb::Unknown);
    assert_eq!(verb_of(&"delete".to_string()), Verb::Unknown);
    assert_eq!(verb_of(&"".to_string()), Verb::Unknown);
}

#[test]
fn run_without_words_fails() {
    let mut db = sample();
    assert_eq!(run(&mut db, words(&[])), Outcome::Fail(Failure::MissingCommand));
}

#[test]
fn run_get_prints_the_value() {
    let mut db = sample();
    assert_eq!(run(&mut db, words(&["get", "name"])), Outcome::Print("bob".to_string()));
    assert_eq!(run(&mut db, words(&["get", ".token"])), Outcome::Print("secret".to_string()));
    assert_eq!(run(&mut db, words(&["get", "name", "more"])), Outcome::Print("bob".to_string()));
}

#[test]
fn run_get_fails_without_key_or_on_unknown_key() {
    let mut db = sample();
    assert_eq!(run(&mut db, words(&["get"])), Outcome::Fail(Failure::MissingKey));
    assert_eq!(run(&mut db, words(&["get", "ghost"])), Outcome::Fail(Failure::UnknownKey));
}

#[test]
fn run_add_sets_the_key_and_asks_for_a_flush() {
    let mut db = sample();
    assert_eq!(run(&mut db, words(&["add", "city", "paris"])), Outcome::Flush);
    assert_eq!(db.get("city".to_string()), Some(&"paris".to_string()));
    assert_eq!(run(&mut db, words(&["add", "name", "alice"])), Outcome::Flush);
    assert_eq!(db.serialize(), "name\talice\n.token\tsecret\ncity\tparis\n");
}

#[test]
fn run_add_fails_without_key_or_value() {
    let mut db = sample();
    let before = db.serialize();
    assert_eq!(run(&mut db, words(&["add"])), Outcome::Fail(Failure::MissingKey));
    assert_eq!(run(&mut db, words(&["add", "city"])), Outcome::Fail(Failure::MissingValue));
    assert_eq!(db.serialize(), before);
}

#[test]
fn run_remove_takes_the_key_out_and_asks_for_a_flush() {
    let mut db = sample();
    assert_eq!(run(&mut db, words(&["remove", "name"])), Outcome::Flush);
    assert_eq!(db.get("name".to_string()), None);
    assert_eq!(db.serialize(), ".token\tsecret\n");
}

#[test]
fn run_remove_fails_without_key_or_on_unknown_key() {
    let mut db = sample();
    let before = db.serialize();
    assert_eq!(run(&mut db, words(&["remove"])), Outcome::Fail(Failure::MissingKey));
    assert_eq!(run(&mut db, words(&["remove", "ghost"])), Outcome::Fail(Failure::UnknownKey));
    assert_eq!(db.serialize(), before);
}

#[test]
fn run_list_prints_the_keys_that_are_not_secret() {
    let mut db = sample();
    assert_eq!(run(&mut db, words(&["list"])), Outcome::Print("name".to_string()));
    db.insert("city".to_string(), "paris".to_string());
    assert_eq!(run(&mut db, words(&["list"])), Outcome::Print("name\ncity".to_string()));
}

#[test]
fn run_list_fails_on_a_store_without_visible_keys() {
    let mut db = Database::new();
    assert_eq!(run(&mut db, words(&["list"])), Outcome::Fail(Failure::EmptyDatabase));
    db.insert(".token".to_string(), "secret".to_string());
    assert_eq!(run(&mut db, words(&["list"])), Outcome::Fail(Failure::EmptyDatabase));
}

#[test]
fn run_help_prints_the_help_text() {
    let mut db = Database::new();
    assert_eq!(run(&mut db, words(&["help"])), Outcome::Print(HELP_TEXT.to_string()));
}

#[test]
fn run_unknown_command_fails() {
    let mut db = sample();
    let before = db.serialize();
    assert_eq!(run(&mut db, words(&["frobnicate"])), Outcome::Fail(Failure::UnknownCommand));
    assert_eq!(run(&mut db, words(&["", "name"])), Outcome::Fail(Failure::UnknownCommand));
    assert_eq!(db.serialize(), before);
}

#[test]
fn reading_runs_leave_the_store_as_it_was() {
    let mut db = sample();
    let before = db.serialize();
    run(&mut db, words(&["get", "name"]));
    run(&mut db, words(&["list"]));
    run(&mut db, words(&["help"]));
    assert_eq!(db.serialize(), before);
}
