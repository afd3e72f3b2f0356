use aurum::autocomplete::CompletionEngine;
use aurum::cursor::Cursor;
use aurum::editor::Editor;
use aurum::search::SearchHandler;
use aurum::select::SelectHandler;
use aurum::syntax::{SyntaxClass, SyntaxHandler};
use aurum::text::Text;
use aurum::undo::UndoHandler;
use aurum::utils::{number_of_digits, update_timer};

fn lines(ls: &[&str]) -> Vec<String> {
    ls.iter().map(|l| l.to_string()).collect()
}

#[test]
fn selection_across_rows() {
    let text = Text::new(lines(&["zero", "one", "line two", "line three", "line four"]));
    let mut s = SelectHandler::new();
    s.start_at(5, 4);
    s.extend_to(3, 2);
    assert_eq!((s.x1, s.y1, s.x2, s.y2), (3, 2, 5, 4));
    assert_eq!(s.get_selected_text(&text), "e two\nline three\nline ");
}

#[test]
fn selection_on_one_row() {
    let text = Text::new(lines(&["hello world"]));
    let mut s = SelectHandler::new();
    s.start_at(2, 0);
    s.extend_to(7, 0);
    assert_eq!(s.get_selected_text(&text), "llo w");
    s.reset_selection();
    assert!(s.is_empty());
    assert_eq!(s.get_selected_text(&text), "");
}

#[test]
fn selection_two_rows() {
    let text = Text::new(lines(&["ab", "cd"]));
    let mut s = SelectHandler::new();
    s.start_at(1, 0);
    s.extend_to(1, 1);
    assert_eq!(s.get_selected_text(&text), "b\nc");
}

#[test]
fn search_finds_non_overlapping_in_row_major_order() {
    let text = lines(&["aaaa", "xaax", "", "aa"]);
    let mut s = SearchHandler::new();
    s.search_string = "aa".to_string();
    s.find_search_string(&text);
    assert_eq!(s.found_places, vec![(0, 0), (2, 0), (1, 1), (0, 3)]);
}

#[test]
fn search_empty_query_finds_nothing() {
    let text = lines(&["abc"]);
    let mut s = SearchHandler::new();
    s.find_search_string(&text);
    assert!(s.found_places.is_empty());
    assert_eq!(s.next_string_pos(), None);
}

#[test]
fn search_next_cycles() {
    let text = lines(&["ab ab", "b", "xab"]);
    let mut s = SearchHandler::new();
    s.search_string = "ab".to_string();
    s.find_search_string(&text);
    let n = s.found_places.len();
    assert_eq!(n, 3);
    let first: Vec<_> = (0..n).map(|_| s.next_string_pos().unwrap()).collect();
    assert_eq!(first, vec![(0, 0), (3, 0), (1, 2)]);
    let second: Vec<_> = (0..n).map(|_| s.next_string_pos().unwrap()).collect();
    assert_eq!(first, second);
}

#[test]
fn completion_of_word_prefix() {
    let mut e = CompletionEngine::new();
    e.update_cache("hello, help! world");
    e.update_cache("a hello");
    let text = lines(&["he"]);
    let cursor = Cursor::new(2, 0);
    e.complete(&text, &cursor);
    assert_eq!(e.cur_word, "he");
    let mut got = e.completion_list.clone();
    got.sort();
    assert_eq!(got, vec!["hello".to_string(), "help".to_string()]);
}

#[test]
fn completion_outside_words_is_empty() {
    let mut e = CompletionEngine::new();
    e.update_cache("hello help world");
    let text = lines(&["ab  cd"]);
    let cursor = Cursor::new(3, 0);
    e.complete(&text, &cursor);
    assert_eq!(e.cur_word, "");
    assert!(e.completion_list.is_empty());
}

#[test]
fn completion_skips_short_and_repeated_words() {
    let mut e = CompletionEngine::new();
    e.update_cache("a bb a bb ccc");
    assert_eq!(e.word_cache, vec!["bb".to_string(), "ccc".to_string()]);
}

fn never() -> &'static str {
    r"[^\s\S]"
}

#[test]
fn syntax_classes_digits_as_constant() {
    let h = SyntaxHandler::from_patterns(r"\d+", never(), never(), never(), never(), never()).unwrap();
    let classes = SyntaxHandler::get_line_color("123 abc", &Some(h));
    let c = SyntaxClass::Constant;
    let o = SyntaxClass::Other;
    assert_eq!(classes, vec![c, c, c, o, o, o, o]);
}

#[test]
fn syntax_first_rule_wins() {
    let h = SyntaxHandler::from_patterns(r"\d+", r"\w+", never(), never(), never(), r"//.*").unwrap();
    let classes = SyntaxHandler::get_line_color("ab 12 // x", &Some(h));
    let k = SyntaxClass::Keyword;
    let c = SyntaxClass::Constant;
    let o = SyntaxClass::Other;
    let m = SyntaxClass::Comment;
    assert_eq!(classes, vec![k, k, o, c, c, o, m, m, m, k]);
}

#[test]
fn syntax_by_grapheme_cluster() {
    let h = SyntaxHandler::from_patterns(never(), r"é+", never(), never(), never(), never()).unwrap();
    let classes = SyntaxHandler::get_line_color("aéé", &Some(h));
    assert_eq!(classes, vec![SyntaxClass::Other, SyntaxClass::Keyword, SyntaxClass::Keyword]);
}

#[test]
fn syntax_without_rules_is_other() {
    let classes = SyntaxHandler::get_line_color("e\u{301}x", &None);
    assert_eq!(classes, vec![SyntaxClass::Other, SyntaxClass::Other]);
}

#[test]
fn syntax_bad_pattern_is_refused() {
    assert!(SyntaxHandler::from_patterns("(", never(), never(), never(), never(), never()).is_none());
}

#[test]
fn undo_then_redo_restores_last_state() {
    let mut undo = UndoHandler::new();
    let mut cursor = Cursor::new(0, 0);
    let mut text = Text::new(lines(&["v0"]));
    for k in 1..=3usize {
        text.raw[0] = format!("v{}", k);
        cursor.x = k;
        undo.create_state(&cursor, &text);
    }
    for _ in 0..3 {
        undo.restore_previous_state(&mut cursor, &mut text);
    }
    assert_eq!(text.raw, vec!["v1"]);
    assert_eq!(cursor.x, 1);
    for _ in 0..3 {
        undo.restore_next_state(&mut cursor, &mut text);
    }
    assert_eq!(text.raw, vec!["v3"]);
    assert_eq!(cursor.x, 3);
}

#[test]
fn push_after_undo_drops_redo() {
    let mut undo = UndoHandler::new();
    let mut cursor = Cursor::new(0, 0);
    let mut text = Text::new(lines(&["a"]));
    undo.create_state(&cursor, &text);
    text.raw[0] = "b".to_string();
    undo.create_state(&cursor, &text);
    undo.restore_previous_state(&mut cursor, &mut text);
    undo.restore_previous_state(&mut cursor, &mut text);
    assert_eq!(text.raw, vec!["a"]);
    text.raw[0] = "c".to_string();
    undo.create_state(&cursor, &text);
    undo.restore_next_state(&mut cursor, &mut text);
    assert_eq!(text.raw, vec!["c"]);
}

#[test]
fn redo_on_empty_history_does_nothing() {
    let mut undo = UndoHandler::new();
    let mut cursor = Cursor::new(0, 0);
    let mut text = Text::new(lines(&["a"]));
    undo.restore_next_state(&mut cursor, &mut text);
    undo.restore_previous_state(&mut cursor, &mut text);
    assert_eq!(text.raw, vec!["a"]);
    undo.clear_states();
}

#[test]
fn digits_of_numbers() {
    assert_eq!(number_of_digits(0), 0);
    assert_eq!(number_of_digits(7), 1);
    assert_eq!(number_of_digits(10), 2);
    assert_eq!(number_of_digits(999), 3);
    assert_eq!(number_of_digits(usize::MAX), 20);
}

#[test]
fn update_timer_snapshots_and_learns_words() {
    let mut ed = Editor::create();
    ed.text.raw = lines(&["alpha beta", "gamma"]);
    ed.char_timer = 12;
    update_timer(&mut ed);
    assert_eq!(ed.char_timer, 0);
    assert_eq!(ed.completion_engine.word_cache, vec!["alpha".to_string(), "beta".to_string(), "gamma".to_string()]);
    ed.text.raw = lines(&["changed"]);
    let mut cursor = ed.cursor;
    ed.undo_handler.restore_previous_state(&mut cursor, &mut ed.text);
    assert_eq!(ed.text.raw, lines(&["alpha beta", "gamma"]));
}

#[test]
fn new_editor_starts_empty() {
    let ed = Editor::create();
    assert_eq!(ed.text.raw, vec![String::new()]);
    assert!(!ed.search_handler.active);
    assert!(ed.search_handler.found_places.is_empty());
    assert!(ed.selected.is_empty());
    assert!(ed.completion_engine.word_cache.is_empty());
    assert!(ed.syntax_handler.is_none());
}
