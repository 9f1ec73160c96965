use kv_store::text::{chars_of, find_char, string_of};

#[test]
fn chars_of_keeps_every_character() {
    assert_eq!(chars_of(""), Vec::<char>::new());
    assert_eq!(chars_of("a\tb\n"), vec!['a', '\t', 'b', '\n']);
    assert_eq!(chars_of("é€"), vec!['é', '€']);
}

#[test]
fn string_of_takes_the_range() {
    let v = vec!['h', 'e', 'l', 'l', 'o'];
    assert_eq!(string_of(&v, 0, 5), "hello");
    assert_eq!(string_of(&v, 1, 3), "el");
    assert_eq!(string_of(&v, 2, 2), "");
    assert_eq!(string_of(&v, 5, 5), "");
}

#[test]
fn find_char_gives_the_first_position() {
    let v = vec!['a', '\t', 'b', '\t', 'c'];
    assert_eq!(find_char(&v, 0, 5, '\t'), 1);
    assert_eq!(find_char(&v, 1, 5, '\t'), 1);
    assert_eq!(find_char(&v, 2, 5, '\t'), 3);
    assert_eq!(find_char(&v, 4, 5, '\t'), 5);
    assert_eq!(find_char(&v, 0, 1, '\t'), 1);
    assert_eq!(find_char(&v, 0, 5, 'x'), 5);
    assert_eq!(find_char(&v, 3, 3, '\t'), 3);
}

#[test]
fn push_adds_one_character_at_the_end() {
    let v = vec!['a', 'b'];
    let s = string_of(&v, 0, 2);
    assert_eq!(s.len(), 2);
    assert_eq!(s, "ab");
}
