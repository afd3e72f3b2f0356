use aurum::text::{file_text_to_lines, lines_to_file_text, Text, TextError};

fn text_of(lines: &[&str]) -> Text {
    Text::new(lines.iter().map(|l| l.to_string()).collect())
}

#[test]
fn new_text_is_never_empty() {
    let t = Text::new(Vec::new());
    assert_eq!(t.raw, vec!["".to_string()]);
}

#[test]
fn insert_text_in_middle() {
    let mut t = text_of(&["hello world"]);
    assert_eq!(t.insert_text(0, 5, ","), Ok(()));
    assert_eq!(t.raw[0], "hello, world");
}

#[test]
fn insert_text_rejects_bad_positions() {
    let mut t = text_of(&["aé"]);
    assert_eq!(t.insert_text(1, 0, "x"), Err(TextError::OutOfBounds));
    assert_eq!(t.insert_text(0, 4, "x"), Err(TextError::OutOfBounds));
    assert_eq!(t.insert_text(0, 2, "x"), Err(TextError::OutOfBounds));
    assert_eq!(t.raw[0], "aé");
    assert_eq!(t.insert_text(0, 3, "x"), Ok(()));
    assert_eq!(t.raw[0], "aéx");
}

#[test]
fn delete_range_removes_bytes() {
    let mut t = text_of(&["abcdef"]);
    assert_eq!(t.delete_range(0, 1, 3), Ok(()));
    assert_eq!(t.raw[0], "aef");
    assert_eq!(t.delete_range(0, 2, 5), Err(TextError::OutOfBounds));
}

#[test]
fn delete_range_keeps_characters_whole() {
    let mut t = text_of(&["aéb"]);
    assert_eq!(t.delete_range(0, 1, 1), Err(TextError::OutOfBounds));
    assert_eq!(t.delete_range(0, 1, 2), Ok(()));
    assert_eq!(t.raw[0], "ab");
}

#[test]
fn split_line_cuts_at_column() {
    let mut t = text_of(&["first", "second"]);
    assert_eq!(t.split_line(1, 3), Ok(()));
    assert_eq!(t.raw, vec!["first", "sec", "ond"]);
    assert_eq!(t.split_line(3, 0), Err(TextError::OutOfBounds));
}

#[test]
fn join_with_previous_appends() {
    let mut t = text_of(&["ab", "cd", "ef"]);
    assert_eq!(t.join_with_previous(0), Err(TextError::OutOfBounds));
    assert_eq!(t.join_with_previous(3), Err(TextError::OutOfBounds));
    assert_eq!(t.join_with_previous(2), Ok(()));
    assert_eq!(t.raw, vec!["ab", "cdef"]);
}

#[test]
fn join_then_split_round_trip() {
    let original = vec!["héllo".to_string(), "wörld".to_string(), "x".to_string()];
    let mut t = Text::new(original.clone());
    let boundary = t.raw[0].len();
    assert_eq!(t.join_with_previous(1), Ok(()));
    assert_eq!(t.raw[0], "héllowörld");
    assert_eq!(t.split_line(0, boundary), Ok(()));
    assert_eq!(t.raw, original);
}

#[test]
fn save_format_ends_every_line() {
    let lines = vec!["a".to_string(), "".to_string(), "bc".to_string()];
    assert_eq!(lines_to_file_text(&lines), "a\n\nbc\n");
}

#[test]
fn load_splits_on_newlines() {
    assert_eq!(file_text_to_lines("a\nb"), vec!["a", "b"]);
    assert_eq!(file_text_to_lines("a\nb\n"), vec!["a", "b"]);
    assert_eq!(file_text_to_lines(""), vec![""]);
    assert_eq!(file_text_to_lines("\n"), vec![""]);
    assert_eq!(file_text_to_lines("\n\n"), vec!["", ""]);
}

#[test]
fn save_then_load_round_trip() {
    let lines = vec!["fn main() {".to_string(), "".to_string(), "    ünï".to_string(), "}".to_string(), "".to_string()];
    let saved = lines_to_file_text(&lines);
    assert_eq!(file_text_to_lines(&saved), lines);
}

#[test]
fn text_type_is_the_extension() {
    let mut t = text_of(&[""]);
    t.file_path = "/home/me/src/main.rs".to_string();
    assert_eq!(t.get_text_type(), "rs");
    t.file_path = "/home/me.d/Makefile".to_string();
    assert_eq!(t.get_text_type(), "?");
    t.file_path = "notes".to_string();
    assert_eq!(t.get_text_type(), "?");
    t.file_path = "archive.tar.gz".to_string();
    assert_eq!(t.get_text_type(), "gz");
}

#[test]
fn text_dir_is_before_last_slash() {
    let mut t = text_of(&[""]);
    t.file_path = "/home/me/src/main.rs".to_string();
    assert_eq!(t.get_text_dir(), "/home/me/src");
    t.file_path = "main.rs".to_string();
    assert_eq!(t.get_text_dir(), "~");
}
