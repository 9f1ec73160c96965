use kv_store::format::{read_line, NEWLINE, TAB};

fn chars(s: &str) -> Vec<char> {
    s.chars().collect()
}

fn pair(key: &str, value: &str) -> Option<(String, String)> {
    Some((key.to_string(), value.to_string()))
}

#[test]
fn separators_are_tab_and_newline() {
    assert_eq!(TAB, '\t');
    assert_eq!(NEWLINE, '\n');
}

#[test]
fn line_with_one_tab_is_a_record() {
    let text = chars("name\tbob");
    assert_eq!(read_line(&text, 0, text.len()), pair("name", "bob"));
    let text = chars("\t");
    assert_eq!(read_line(&text, 0, 1), pair("", ""));
    let text = chars("k\t");
    assert_eq!(read_line(&text, 0, 2), pair("k", ""));
    let text = chars("\tv");
    assert_eq!(read_line(&text, 0, 2), pair("", "v"));
}

#[test]
fn line_is_read_within_its_bounds() {
    let text = chars("a\t1\nbb\t22\nc\t3");
    assert_eq!(read_line(&text, 0, 3), pair("a", "1"));
    assert_eq!(read_line(&text, 4, 9), pair("bb", "22"));
    assert_eq!(read_line(&text, 10, 13), pair("c", "3"));
    assert_eq!(read_line(&text, 4, 6), None);
    assert_eq!(read_line(&text, 0, 2), pair("a", ""));
}

#[test]
fn line_without_tab_is_no_record() {
    let text = chars("justkey");
    assert_eq!(read_line(&text, 0, text.len()), None);
    assert_eq!(read_line(&text, 0, 0), None);
    let text = chars("two words");
    assert_eq!(read_line(&text, 0, text.len()), None);
}

#[test]
fn line_with_more_tabs_is_no_record() {
    let text = chars("a\tb\tc");
    assert_eq!(read_line(&text, 0, text.len()), None);
    let text = chars("\t\t");
    assert_eq!(read_line(&text, 0, text.len()), None);
    let text = chars("a\tb\t");
    assert_eq!(read_line(&text, 0, text.len()), None);
}
