use aurum::cursor::Cursor;
use aurum::editor::Editor;

fn editor_with(lines: &[&str]) -> Editor {
    let mut ed = Editor::create();
    ed.text.raw = lines.iter().map(|l| l.to_string()).collect();
    ed
}

#[test]
fn typing_inserts_at_cursor() {
    let mut ed = editor_with(&["held"]);
    ed.cursor = Cursor::new(3, 0);
    ed.insert_input("lo wor");
    assert_eq!(ed.text.raw, vec!["hello word"]);
    assert_eq!(ed.cursor.x, 9);
    assert_eq!(ed.char_timer, 1);
}

#[test]
fn tab_inserts_four_spaces() {
    let mut ed = editor_with(&["x"]);
    ed.tab();
    assert_eq!(ed.text.raw, vec!["    x"]);
    assert_eq!(ed.cursor.x, 4);
}

#[test]
fn newline_keeps_indentation() {
    let mut ed = editor_with(&["    let a = 1;b"]);
    ed.cursor = Cursor::new(14, 0);
    ed.insert_newline();
    assert_eq!(ed.text.raw, vec!["    let a = 1;", "    b"]);
    assert_eq!((ed.cursor.x, ed.cursor.y, ed.cursor.wanted_x), (4, 1, 0));
    assert_eq!(ed.char_timer, 0);
}

#[test]
fn newline_after_block_opener_indents_more() {
    let mut ed = editor_with(&["fn main() {  "]);
    ed.cursor = Cursor::new(13, 0);
    ed.insert_newline();
    assert_eq!(ed.text.raw, vec!["fn main() {  ", "    "]);
    assert_eq!(ed.cursor.x, 4);
}

#[test]
fn backspace_removes_previous_character() {
    let mut ed = editor_with(&["aé"]);
    ed.cursor = Cursor::new(3, 0);
    ed.backspace();
    assert_eq!(ed.text.raw, vec!["a"]);
    assert_eq!(ed.cursor.x, 1);
}

#[test]
fn backspace_removes_indent_step() {
    let mut ed = editor_with(&["x       y"]);
    ed.cursor = Cursor::new(8, 0);
    ed.backspace();
    assert_eq!(ed.text.raw, vec!["x   y"]);
    assert_eq!(ed.cursor.x, 4);
}

#[test]
fn backspace_at_line_start_joins() {
    let mut ed = editor_with(&["ab", "cd"]);
    ed.cursor = Cursor::new(0, 1);
    ed.backspace();
    assert_eq!(ed.text.raw, vec!["abcd"]);
    assert_eq!((ed.cursor.x, ed.cursor.y), (2, 0));
}

#[test]
fn backspace_at_document_start_does_nothing() {
    let mut ed = editor_with(&["ab"]);
    ed.backspace();
    assert_eq!(ed.text.raw, vec!["ab"]);
}

#[test]
fn backspace_deletes_selection() {
    let mut ed = editor_with(&["one", "two", "three"]);
    ed.cursor = Cursor::new(2, 2);
    ed.selected.start_at(1, 0);
    ed.selected.extend_to(2, 2);
    ed.backspace();
    assert_eq!(ed.text.raw, vec!["oree"]);
    assert_eq!((ed.cursor.x, ed.cursor.get_absolute_y()), (1, 0));
    assert!(ed.selected.is_empty());
}

#[test]
fn completing_a_word_inserts_its_rest() {
    let mut ed = editor_with(&["hel"]);
    ed.completion_engine.update_cache("hello world");
    ed.cursor = Cursor::new(3, 0);
    ed.completion_engine.complete(&ed.text.raw, &ed.cursor);
    assert!(ed.complete_word(0));
    assert_eq!(ed.text.raw, vec!["hello"]);
    assert_eq!(ed.cursor.x, 5);
    assert!(!ed.complete_word(1));
}

#[test]
fn goto_next_match_moves_cursor() {
    let mut ed = editor_with(&["abc", "xx abc", "", "  abc"]);
    ed.search_handler.search_string = "abc".to_string();
    ed.search_handler.find_search_string(&ed.text.raw);
    ed.goto_next_match(10);
    assert_eq!((ed.cursor.x, ed.cursor.get_absolute_y()), (0, 0));
    ed.goto_next_match(10);
    assert_eq!((ed.cursor.x, ed.cursor.get_absolute_y()), (3, 1));
    ed.goto_next_match(2);
    assert_eq!((ed.cursor.x, ed.cursor.get_absolute_y()), (2, 3));
    ed.goto_next_match(2);
    assert_eq!((ed.cursor.x, ed.cursor.get_absolute_y()), (0, 0));
}

#[test]
fn open_document_resets_state() {
    let mut ed = editor_with(&["old"]);
    ed.cursor = Cursor::new(2, 0);
    ed.open_document("first line\nsecond\n", "/tmp/a.txt".to_string());
    assert_eq!(ed.text.raw, vec!["first line", "second"]);
    assert_eq!(ed.text.file_path, "/tmp/a.txt");
    assert_eq!((ed.cursor.x, ed.cursor.y), (0, 0));
    assert_eq!(ed.completion_engine.word_cache, vec!["first", "line", "second"]);
}

#[test]
fn paste_several_lines() {
    let mut ed = editor_with(&["ab"]);
    ed.cursor = Cursor::new(1, 0);
    ed.paste("X\nYZ", 10);
    assert_eq!(ed.text.raw, vec!["aXb", "YZ"]);
    assert_eq!(ed.cursor.get_absolute_y(), 1);
}
