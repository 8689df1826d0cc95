use yat::codec::tab_num;
use yat::todo::{Priority, ToDo};

fn node(text: &str, complete: bool, priority: Option<Priority>) -> ToDo {
    let mut t = ToDo::new(text);
    t.complete = complete;
    t.priority = priority;
    t
}

#[test]
fn save_writes_markers_and_indentation() {
    let mut root = ToDo::new("");
    let mut a = node("Buy milk", false, Some(Priority::High));
    a.sub_tasks.push(node("2% milk", true, Some(Priority::Low)));
    root.sub_tasks.push(a);
    root.sub_tasks.push(node("Clean house", false, Some(Priority::Medium)));
    assert_eq!(
        root.save(),
        "[ ] (A) Buy milk\n    [X] (C) 2% milk\n[ ] (B) Clean house\n"
    );
}

#[test]
fn save_of_empty_tree_is_empty() {
    assert_eq!(ToDo::new("ignored").save(), "");
}

#[test]
fn load_then_save_round_trips() {
    let text = "[X] (A) one\n    [ ] ( ) two\n        [ ] (B) three\n    [X] (C) four\n[ ] ( ) five\n";
    let root = ToDo::load(text).unwrap();
    assert_eq!(root.save(), text);
    assert_eq!(root.task, "");
    assert_eq!(root.sub_tasks.len(), 2);
    assert_eq!(root.sub_tasks[0].sub_tasks[0].sub_tasks[0].task, "three");
    assert_eq!(root.sub_tasks[0].sub_tasks[1].priority, Some(Priority::Low));
    assert!(root.sub_tasks[0].sub_tasks[1].complete);
}

#[test]
fn save_then_load_round_trips_built_tree() {
    let mut root = ToDo::new("");
    let mut a = node("a", true, Some(Priority::Medium));
    let mut b = node("b", false, None);
    b.sub_tasks.push(node("c", false, Some(Priority::High)));
    a.sub_tasks.push(b);
    root.sub_tasks.push(a);
    root.sub_tasks.push(node("", false, None));
    let text = root.save();
    let back = ToDo::load(&text).unwrap();
    assert_eq!(back.save(), text);
    assert_eq!(back.sub_tasks[0].sub_tasks[0].sub_tasks[0].task, "c");
    assert_eq!(back.sub_tasks[1].task, "");
}

#[test]
fn load_rejects_a_two_level_jump() {
    let err = ToDo::load("[ ] ( ) a\n        [ ] ( ) b\n").err().unwrap();
    assert_eq!(err.line, 1);
}

#[test]
fn load_rejects_an_indented_first_line() {
    assert_eq!(ToDo::load("    [ ] ( ) a\n").err().unwrap().line, 0);
    assert_eq!(ToDo::load("        [ ] ( ) a\n").err().unwrap().line, 0);
}

#[test]
fn load_accepts_returning_several_levels() {
    let text = "[ ] ( ) a\n    [ ] ( ) b\n        [ ] ( ) c\n[ ] ( ) d\n";
    let root = ToDo::load(text).unwrap();
    assert_eq!(root.sub_tasks.len(), 2);
    assert_eq!(root.sub_tasks[1].task, "d");
}

#[test]
fn load_absorbs_stray_spaces() {
    let root = ToDo::load("  [ ] ( ) a\n      [ ] ( ) b\n").unwrap();
    assert_eq!(root.sub_tasks[0].task, "a");
    assert_eq!(root.sub_tasks[0].sub_tasks[0].task, "b");
}

#[test]
fn load_strips_carriage_returns() {
    let root = ToDo::load("[X] (B) a\r\n[ ] ( ) b\r\n").unwrap();
    assert_eq!(root.sub_tasks[0].task, "a");
    assert_eq!(root.sub_tasks[1].task, "b");
}

#[test]
fn load_of_empty_text_is_empty_root() {
    let root = ToDo::load("").unwrap();
    assert!(root.sub_tasks.is_empty());
}

#[test]
fn load_reads_short_lines_as_blank_tasks() {
    let root = ToDo::load("[X]\n").unwrap();
    assert_eq!(root.sub_tasks.len(), 1);
    assert_eq!(root.sub_tasks[0].task, "");
    assert!(!root.sub_tasks[0].complete);
    assert_eq!(root.sub_tasks[0].priority, None);
}

#[test]
fn from_string_reads_markers() {
    let t = ToDo::from_string("[X] (B) Walk the dog");
    assert!(t.complete);
    assert_eq!(t.priority, Some(Priority::Medium));
    assert_eq!(t.task, "Walk the dog");
    let u = ToDo::from_string("[ ] (Z) über");
    assert!(!u.complete);
    assert_eq!(u.priority, None);
    assert_eq!(u.task, "über");
}

#[test]
fn from_string_of_short_line_is_blank() {
    let t = ToDo::from_string("[X] (A)");
    assert_eq!(t.task, "");
    assert!(!t.complete);
    assert_eq!(t.priority, None);
}

#[test]
fn tab_num_divides_leading_spaces_by_four() {
    assert_eq!(tab_num("x"), 0);
    assert_eq!(tab_num("   x"), 0);
    assert_eq!(tab_num("    x"), 1);
    assert_eq!(tab_num("       x"), 1);
    assert_eq!(tab_num("        x"), 2);
    assert_eq!(tab_num("\t    x"), 0);
}
