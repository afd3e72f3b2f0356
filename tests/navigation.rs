use aurum::cursor::{hit_offset, Cursor};

fn lines(ls: &[&str]) -> Vec<String> {
    ls.iter().map(|l| l.to_string()).collect()
}

#[test]
fn right_and_left_skip_multibyte_characters() {
    let text = lines(&["aé€b"]);
    let mut c = Cursor::new(0, 0);
    c.right(&text);
    assert_eq!(c.x, 1);
    c.right(&text);
    assert_eq!(c.x, 3);
    c.right(&text);
    assert_eq!(c.x, 6);
    c.right(&text);
    assert_eq!(c.x, 7);
    c.right(&text);
    assert_eq!(c.x, 7);
    c.left(&text);
    assert_eq!(c.x, 6);
    c.left(&text);
    assert_eq!(c.x, 3);
    assert_eq!(c.wanted_x, 3);
}

#[test]
fn right_then_left_returns() {
    let text = lines(&["xé€😀y"]);
    for x in [0usize, 1, 3, 6, 10] {
        let mut c = Cursor::new(x, 0);
        c.right(&text);
        c.left(&text);
        assert_eq!(c.x, x);
    }
}

#[test]
fn left_saturates_at_line_start() {
    let text = lines(&["abc"]);
    let mut c = Cursor::new(0, 0);
    c.left(&text);
    assert_eq!(c.x, 0);
}

#[test]
fn vertical_motion_keeps_wanted_column() {
    let text = lines(&["a long line", "ab", "another long line"]);
    let mut c = Cursor::new(8, 0);
    c.down(&text, 10);
    assert_eq!((c.x, c.y, c.wanted_x), (2, 1, 8));
    c.down(&text, 10);
    assert_eq!((c.x, c.y, c.wanted_x), (8, 2, 8));
    c.down(&text, 10);
    assert_eq!((c.x, c.y), (8, 2));
    c.up(&text, 10);
    c.up(&text, 10);
    assert_eq!((c.x, c.y), (8, 0));
    c.up(&text, 10);
    assert_eq!((c.x, c.y, c.screen_y), (8, 0, 0));
}

#[test]
fn vertical_clamp_lands_on_boundary() {
    let text = lines(&["abcd", "é€"]);
    let mut c = Cursor::new(4, 0);
    c.down(&text, 10);
    assert_eq!(c.x, 2);
}

#[test]
fn down_at_viewport_bottom_scrolls() {
    let text = lines(&["0", "1", "2", "3", "4"]);
    let mut c = Cursor::new(0, 0);
    c.down(&text, 2);
    assert_eq!((c.y, c.screen_y), (1, 0));
    c.down(&text, 2);
    assert_eq!((c.y, c.screen_y), (1, 1));
    c.down(&text, 2);
    assert_eq!((c.y, c.screen_y), (1, 2));
    c.up(&text, 2);
    assert_eq!((c.y, c.screen_y), (0, 2));
    c.up(&text, 2);
    assert_eq!((c.y, c.screen_y), (0, 1));
}

#[test]
fn scroll_keeps_cursor_row_when_it_can() {
    let text = lines(&["0", "1", "2", "3", "4"]);
    let mut c = Cursor::new(0, 0);
    c.down(&text, 3);
    c.scroll_screen(&text, -1, 3);
    assert_eq!((c.y, c.screen_y), (0, 1));
    c.scroll_screen(&text, -1, 3);
    assert_eq!((c.y, c.screen_y), (0, 2));
    c.scroll_screen(&text, 1, 3);
    assert_eq!((c.y, c.screen_y), (1, 1));
    c.scroll_screen(&text, 0, 3);
    assert_eq!((c.y, c.screen_y), (1, 1));
}

#[test]
fn scroll_stops_at_edges() {
    let text = lines(&["0", "1"]);
    let mut c = Cursor::new(0, 0);
    c.scroll_screen(&text, 1, 5);
    assert_eq!((c.y, c.screen_y), (0, 0));
    c.scroll_screen(&text, -1, 5);
    assert_eq!((c.y, c.screen_y), (0, 1));
    c.scroll_screen(&text, -1, 5);
    assert_eq!((c.y, c.screen_y), (0, 1));
}

#[test]
fn hit_offset_rounds_to_preceding_boundary() {
    let clusters = vec![1usize, 2, 1];
    let widths = vec![10u32, 10, 10];
    assert_eq!(hit_offset(0, 9, &clusters, &widths), 0);
    assert_eq!(hit_offset(9, 9, &clusters, &widths), 1);
    assert_eq!(hit_offset(18, 9, &clusters, &widths), 1);
    assert_eq!(hit_offset(19, 9, &clusters, &widths), 3);
    assert_eq!(hit_offset(100, 9, &clusters, &widths), 4);
}

#[test]
fn move_to_places_by_pixels() {
    let text = lines(&["abc", "dé"]);
    let mut c = Cursor::new(0, 0);
    c.move_to(25, 20, 18, &text, &vec![10, 10]);
    assert_eq!((c.x, c.y, c.wanted_x), (3, 1, 3));
    c.move_to(12, 500, 18, &text, &vec![10, 10]);
    assert_eq!((c.x, c.y), (1, 1));
}

#[test]
fn move_to_stops_before_the_cluster_under_the_click() {
    let text = lines(&["abc"]);
    let mut c = Cursor::new(0, 0);
    c.move_to(25, 0, 18, &text, &vec![10, 10, 10]);
    assert_eq!(c.x, 2);
}
