use kv_store::location::{database_path, database_path_in, DATABASE_FILE};
use std::path::PathBuf;

#[test]
fn file_name_is_fixed() {
    assert_eq!(DATABASE_FILE, ".kv.db");
}

#[test]
fn path_lies_in_the_home_directory() {
    let home = PathBuf::from("home").join("alice");
    let expected = PathBuf::from("home").join("alice").join(".kv.db");
    assert_eq!(database_path_in(Some(home.clone())), Some(expected));
    assert_ne!(database_path_in(Some(home.clone())), Some(home));
}

#[test]
fn no_home_directory_no_path() {
    assert_eq!(database_path_in(None), None);
}

#[test]
fn path_in_the_current_home_ends_in_the_file_name() {
    match database_path() {
        Some(path) => {
            assert!(path.ends_with(DATABASE_FILE));
            assert_eq!(path.file_name().and_then(|name| name.to_str()), Some(".kv.db"));
        }
        None => {}
    }
}
