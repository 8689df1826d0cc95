use yat::editor::{EditKey, LineEditor};

#[test]
fn wide_character_backspace_removes_whole_character() {
    let mut e = LineEditor::new("");
    e.insert('中');
    assert_eq!(e.column(), 2);
    assert_eq!(e.index(), 3);
    assert_eq!(e.commit(), "中");
    e.backspace();
    assert_eq!(e.column(), 0);
    assert_eq!(e.index(), 0);
    assert_eq!(e.commit(), "");
}

#[test]
fn new_puts_cursor_at_end() {
    let e = LineEditor::new("aé中");
    assert_eq!(e.index(), 6);
    assert_eq!(e.column(), 4);
    assert_eq!(e.commit(), "aé中");
}

#[test]
fn insert_in_the_middle() {
    let mut e = LineEditor::new("ac");
    e.move_left();
    assert_eq!(e.column(), 1);
    e.insert('b');
    assert_eq!(e.commit(), "abc");
    assert_eq!(e.index(), 2);
    assert_eq!(e.column(), 2);
}

#[test]
fn moves_stop_at_the_ends() {
    let mut e = LineEditor::new("é");
    e.move_right();
    assert_eq!(e.index(), 2);
    e.move_left();
    assert_eq!(e.index(), 0);
    assert_eq!(e.column(), 0);
    e.move_left();
    assert_eq!(e.index(), 0);
    e.backspace();
    assert_eq!(e.commit(), "é");
}

#[test]
fn delete_forward_keeps_cursor() {
    let mut e = LineEditor::new("ab中");
    e.move_left();
    e.move_left();
    e.delete_forward();
    assert_eq!(e.commit(), "a中");
    assert_eq!(e.index(), 1);
    assert_eq!(e.column(), 1);
    e.move_right();
    e.delete_forward();
    assert_eq!(e.commit(), "a中");
}

#[test]
fn control_characters_are_ignored() {
    let mut e = LineEditor::new("x");
    e.insert('\t');
    e.insert('\u{7}');
    assert_eq!(e.commit(), "x");
    assert_eq!(e.column(), 1);
}

#[test]
fn handle_key_edits_until_enter() {
    let mut e = LineEditor::new("");
    assert!(!e.handle_key(EditKey::Char('h')));
    assert!(!e.handle_key(EditKey::Char('i')));
    assert!(!e.handle_key(EditKey::Left));
    assert!(!e.handle_key(EditKey::Delete));
    assert!(!e.handle_key(EditKey::Right));
    assert!(!e.handle_key(EditKey::Backspace));
    assert!(!e.handle_key(EditKey::Other));
    assert!(e.handle_key(EditKey::Enter));
    assert_eq!(e.commit(), "");
}
