use gorg::tui::move_cursor;
use gorg::tui::Key;
use gorg::tui::PromptUI;
use gorg::tui::PromptUIEvent;
use gorg::tui::TextMovementAmount;
use gorg::tui::TextMovementDirection;
use gorg::tui::QUERY_MAX_CHAR_LEN;

#[test]
fn move_cursor_word_right_from_punctuation() {
    let dir = TextMovementDirection::Right;
    let amount = TextMovementAmount::Word;
    let s: Vec<char> = Vec::from_iter("ground control to major tom".chars());
    assert_eq!(14, move_cursor(&s, 6, dir, amount));
    assert_eq!(17, move_cursor(&s, 14, dir, amount));
    assert_eq!(23, move_cursor(&s, 17, dir, amount));
    assert_eq!(27, move_cursor(&s, 23, dir, amount));
}

#[test]
fn move_cursor_word_right_from_char() {
    let dir = TextMovementDirection::Right;
    let amount = TextMovementAmount::Word;
    let s: Vec<char> = Vec::from_iter("ground control to major tom".chars());
    assert_eq!(6, move_cursor(&s, 0, dir, amount));
    assert_eq!(6, move_cursor(&s, 3, dir, amount));
    assert_eq!(14, move_cursor(&s, 7, dir, amount));
    assert_eq!(14, move_cursor(&s, 13, dir, amount));
    assert_eq!(23, move_cursor(&s, 18, dir, amount));
    assert_eq!(23, move_cursor(&s, 20, dir, amount));
    assert_eq!(27, move_cursor(&s, 24, dir, amount));
    assert_eq!(27, move_cursor(&s, 25, dir, amount));
    assert_eq!(27, move_cursor(&s, 27, dir, amount));
}

#[test]
fn move_cursor_word_left_from_punctuation() {
    let dir = TextMovementDirection::Left;
    let amount = TextMovementAmount::Word;
    let s: Vec<char> = Vec::from_iter("ground control to major tom".chars());
    assert_eq!(0, move_cursor(&s, 6, dir, amount));
    assert_eq!(7, move_cursor(&s, 14, dir, amount));
    assert_eq!(15, move_cursor(&s, 17, dir, amount));
    assert_eq!(18, move_cursor(&s, 23, dir, amount));
    assert_eq!(24, move_cursor(&s, 27, dir, amount));
}

#[test]
fn move_cursor_word_left_from_char() {
    let dir = TextMovementDirection::Left;
    let amount = TextMovementAmount::Word;
    let s: Vec<char> = Vec::from_iter("ground control to major tom".chars());
    assert_eq!(0, move_cursor(&s, 5, dir, amount));
    assert_eq!(0, move_cursor(&s, 3, dir, amount));
    assert_eq!(0, move_cursor(&s, 7, dir, amount));
    assert_eq!(7, move_cursor(&s, 8, dir, amount));
    assert_eq!(7, move_cursor(&s, 10, dir, amount));
    assert_eq!(7, move_cursor(&s, 13, dir, amount));
    assert_eq!(24, move_cursor(&s, 25, dir, amount));
    assert_eq!(24, move_cursor(&s, 26, dir, amount));
}

#[test]
fn capacity_clamp_on_seed_and_insert() {
    let long: String = "x".repeat(QUERY_MAX_CHAR_LEN + 50);
    let mut ui = PromptUI::new(&long);
    assert_eq!(ui.text_input().len(), QUERY_MAX_CHAR_LEN);
    // one more character is dropped silently, with no event
    let r = ui.handle_event(Key::Char('y'));
    assert_eq!(r, None);
    assert_eq!(ui.text_input().len(), QUERY_MAX_CHAR_LEN);
}

#[test]
fn capacity_boundary_inserts_up_to_cap() {
    let almost: String = "x".repeat(QUERY_MAX_CHAR_LEN - 1);
    let mut ui = PromptUI::new(&almost);
    assert_eq!(ui.handle_event(Key::Char('y')), Some(PromptUIEvent::PromptUpdated));
    assert_eq!(ui.text_input().len(), QUERY_MAX_CHAR_LEN);
    assert_eq!(ui.handle_event(Key::Char('z')), None);
    assert_eq!(ui.text_input().len(), QUERY_MAX_CHAR_LEN);
}

#[test]
fn editing_inserts_and_deletes_at_cursor() {
    let mut ui = PromptUI::new("ab");
    assert_eq!(ui.handle_event(Key::Left), Some(PromptUIEvent::CursorUpdated));
    assert_eq!(ui.handle_event(Key::Char('x')), Some(PromptUIEvent::PromptUpdated));
    let text: String = ui.text_input().iter().collect();
    assert_eq!(text, "axb");
    assert_eq!(ui.handle_event(Key::Backspace), Some(PromptUIEvent::PromptUpdated));
    let text: String = ui.text_input().iter().collect();
    assert_eq!(text, "ab");
}

#[test]
fn word_delete_removes_previous_word() {
    let mut ui = PromptUI::new("major tom");
    assert_eq!(ui.handle_event(Key::Ctrl('w')), Some(PromptUIEvent::PromptUpdated));
    let text: String = ui.text_input().iter().collect();
    assert_eq!(text, "major ");
    // nothing left of the cursor at the start: no event
    let mut at_start = PromptUI::new("");
    assert_eq!(at_start.handle_event(Key::Ctrl('w')), None);
}

#[test]
fn cancel_and_confirm_events() {
    let mut ui = PromptUI::new("q");
    assert_eq!(ui.handle_event(Key::Ctrl('c')), Some(PromptUIEvent::Exit));
    assert_eq!(ui.handle_event(Key::Ctrl('d')), Some(PromptUIEvent::Exit));
    assert_eq!(ui.handle_event(Key::Char('\n')), Some(PromptUIEvent::SelectionDone));
    assert_eq!(ui.handle_event(Key::Other), None);
}

#[test]
fn selection_moves_within_rendered_rows() {
    let mut ui = PromptUI::new("");
    let items = vec![
        String::from("one"),
        String::from("two"),
        String::from("three"),
    ];
    let rows = ui.render_frame(&items, 80, 10);
    assert_eq!(rows.len(), 3);
    assert_eq!(rows[0], "  * one");
    assert_eq!(rows[1], "    two");
    // at the top already: no event
    assert_eq!(ui.handle_event(Key::Up), None);
    assert_eq!(ui.handle_event(Key::Down), Some(PromptUIEvent::SelectionUpdated));
    assert_eq!(ui.handle_event(Key::Down), Some(PromptUIEvent::SelectionUpdated));
    assert_eq!(ui.selected_item(), 2);
    // at the bottom: no event
    assert_eq!(ui.handle_event(Key::Down), None);
}

#[test]
fn render_frame_truncates_to_width() {
    let mut ui = PromptUI::new("");
    let items = vec![String::from("abcdefghijklmnop")];
    let rows = ui.render_frame(&items, 12, 10);
    assert_eq!(rows.len(), 1);
    assert_eq!(rows[0], "  * abcdefgh");
}

#[test]
fn render_frame_caps_rows_by_height() {
    let mut ui = PromptUI::new("");
    let items: Vec<String> = (0..10).map(|i| format!("item{i}")).collect();
    let rows = ui.render_frame(&items, 80, 5);
    assert_eq!(rows.len(), 3);
}

#[test]
fn cursor_byte_offset_counts_encoded_bytes() {
    let mut ui = PromptUI::new("aé漢");
    // cursor sits at the end: 1 + 2 + 3 bytes
    assert_eq!(ui.cursor_byte_offset(), 6);
    ui.handle_event(Key::Left);
    assert_eq!(ui.cursor_byte_offset(), 3);
    ui.handle_event(Key::Home);
    assert_eq!(ui.cursor_byte_offset(), 0);
}

#[test]
fn move_cursor_on_empty_text() {
    let s: Vec<char> = Vec::new();
    assert_eq!(0, move_cursor(&s, 0, TextMovementDirection::Left, TextMovementAmount::Word));
    assert_eq!(0, move_cursor(&s, 0, TextMovementDirection::Right, TextMovementAmount::End));
}

#[test]
fn move_cursor_word_over_punctuation_only() {
    let s: Vec<char> = Vec::from_iter("   ".chars());
    assert_eq!(3, move_cursor(&s, 0, TextMovementDirection::Right, TextMovementAmount::Word));
    assert_eq!(0, move_cursor(&s, 3, TextMovementDirection::Left, TextMovementAmount::Word));
}
