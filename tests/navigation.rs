use yat::navigator::{confirm_choice, Command, Navigator, Step};
use yat::todo::Priority;

fn texts(n: &Navigator) -> Vec<String> {
    n.current().sub_tasks.iter().map(|c| c.task.clone()).collect()
}

fn three() -> Navigator {
    let mut n = Navigator::new();
    n.add("a");
    n.add("b");
    n.add("c");
    n
}

#[test]
fn add_appends_and_selects() {
    let mut n = Navigator::new();
    assert_eq!(n.selection(), None);
    n.add("a");
    assert_eq!(n.selection(), Some(0));
    n.add("b");
    assert_eq!(n.selection(), Some(1));
    assert_eq!(texts(&n), vec!["a", "b"]);
}

#[test]
fn selection_wraps_around() {
    let mut n = three();
    assert_eq!(n.selection(), Some(2));
    n.move_selection(false);
    assert_eq!(n.selection(), Some(0));
    n.move_selection(true);
    assert_eq!(n.selection(), Some(2));
    n.move_selection(false);
    assert_eq!(n.selection(), Some(0));
    n.move_selection(false);
    assert_eq!(n.selection(), Some(1));
}

#[test]
fn selection_starts_at_first_entry() {
    let mut n = Navigator::new();
    n.move_selection(true);
    assert_eq!(n.selection(), None);
    n.add("a");
    n.delete();
    assert_eq!(n.selection(), None);
    n.add("b");
    n.add("c");
    n.delete();
    n.move_selection(true);
    assert_eq!(n.selection(), Some(0));
}

#[test]
fn delete_removes_selected_and_clears_selection() {
    let mut n = three();
    n.move_selection(true);
    n.delete();
    assert_eq!(texts(&n), vec!["a", "c"]);
    assert_eq!(n.selection(), None);
    n.delete();
    assert_eq!(texts(&n), vec!["a", "c"]);
}

#[test]
fn edit_and_toggle_change_selected_only() {
    let mut n = three();
    n.move_selection(true);
    n.edit("B");
    n.toggle_complete();
    assert_eq!(texts(&n), vec!["a", "B", "c"]);
    assert!(n.current().sub_tasks[1].complete);
    assert!(!n.current().sub_tasks[0].complete);
    n.toggle_complete();
    assert!(!n.current().sub_tasks[1].complete);
}

#[test]
fn move_task_wraps_and_selection_follows() {
    let mut n = three();
    n.move_selection(false);
    assert_eq!(n.selection(), Some(0));
    n.move_task(true);
    assert_eq!(texts(&n), vec!["c", "b", "a"]);
    assert_eq!(n.selection(), Some(2));
    n.move_task(false);
    assert_eq!(texts(&n), vec!["a", "b", "c"]);
    assert_eq!(n.selection(), Some(0));
    n.move_task(false);
    assert_eq!(texts(&n), vec!["b", "a", "c"]);
    assert_eq!(n.selection(), Some(1));
}

#[test]
fn priority_changes_saturate() {
    let mut n = three();
    for _ in 0..4 {
        n.increase_priority();
    }
    assert_eq!(n.current().sub_tasks[2].priority, Some(Priority::High));
    n.decrease_priority();
    assert_eq!(n.current().sub_tasks[2].priority, Some(Priority::Medium));
    for _ in 0..3 {
        n.decrease_priority();
    }
    assert_eq!(n.current().sub_tasks[2].priority, None);
}

#[test]
fn focus_and_back_restore_the_view() {
    let mut n = three();
    n.move_selection(true);
    assert!(n.is_root());
    n.focus();
    assert!(!n.is_root());
    assert_eq!(n.current().task, "b");
    assert_eq!(n.selection(), None);
    n.add("b1");
    assert!(n.back());
    assert!(n.is_root());
    assert_eq!(n.selection(), Some(1));
    assert_eq!(texts(&n), vec!["a", "b", "c"]);
    assert_eq!(n.current().sub_tasks[1].sub_tasks[0].task, "b1");
    assert!(!n.back());
}

#[test]
fn focus_selects_first_child_when_there_is_one() {
    let mut n = three();
    n.focus();
    n.add("x");
    n.add("y");
    n.back();
    n.focus();
    assert_eq!(n.selection(), Some(0));
}

#[test]
fn task_path_lists_ancestors() {
    let mut n = Navigator::new();
    assert_eq!(n.task_path(), "");
    n.add("Home");
    n.focus();
    assert_eq!(n.task_path(), "Home");
    n.add("Kitchen");
    n.focus();
    assert_eq!(n.task_path(), "Home: Kitchen");
}

#[test]
fn save_covers_whole_tree_from_any_depth() {
    let mut n = Navigator::new();
    n.add("a");
    n.focus();
    n.add("b");
    n.focus();
    n.add("c");
    assert_eq!(n.save(), "[ ] ( ) a\n    [ ] ( ) b\n        [ ] ( ) c\n");
}

#[test]
fn example_scenario_serializes_sorted_tree() {
    let mut n = Navigator::new();
    n.add("Buy milk");
    n.add("Clean house");
    n.move_selection(true);
    assert_eq!(n.selection(), Some(0));
    n.focus();
    n.add("2% milk");
    n.back();
    n.increase_priority();
    n.increase_priority();
    n.increase_priority();
    n.sort_by_priority();
    assert_eq!(
        n.save(),
        "[ ] (A) Buy milk\n    [ ] ( ) 2% milk\n[ ] ( ) Clean house\n"
    );
}

#[test]
fn sort_orders_visible_list() {
    let mut n = three();
    n.increase_priority();
    n.move_selection(true);
    n.increase_priority();
    n.increase_priority();
    n.sort_by_priority();
    assert_eq!(texts(&n), vec!["b", "c", "a"]);
}

#[test]
fn round_trip_through_navigator() {
    let mut n = Navigator::new();
    n.add("one");
    n.toggle_complete();
    n.increase_priority();
    n.focus();
    n.add("two");
    n.increase_priority();
    n.increase_priority();
    n.back();
    n.add("three");
    let text = n.save();
    let m = Navigator::new_from_save(&text);
    assert_eq!(m.save(), text);
    assert_eq!(text, "[X] (C) one\n    [ ] (B) two\n[ ] ( ) three\n");
}

#[test]
fn malformed_save_gives_empty_tree() {
    let n = Navigator::new_from_save("[ ] ( ) a\n        [ ] ( ) b\n");
    assert_eq!(n.save(), "");
    assert!(n.current().sub_tasks.is_empty());
}

#[test]
fn add_from_line_decodes_marker() {
    let mut n = Navigator::new();
    n.add_from_line("    [X] (A) chores");
    assert_eq!(n.current().sub_tasks[0].task, "chores");
    assert!(n.current().sub_tasks[0].complete);
    assert_eq!(n.current().sub_tasks[0].priority, Some(Priority::High));
}

#[test]
fn confirm_choice_reads_keys() {
    assert_eq!(confirm_choice('y'), Some(true));
    assert_eq!(confirm_choice('n'), Some(false));
    assert_eq!(confirm_choice('q'), Some(false));
    assert_eq!(confirm_choice('b'), Some(false));
    assert_eq!(confirm_choice('x'), None);
}

#[test]
fn apply_quit_and_save_leave_the_view_alone() {
    let mut n = three();
    assert!(matches!(n.apply(Command::Quit), Step::Quit));
    match n.apply(Command::Save) {
        Step::Write(text) => assert_eq!(text, "[ ] ( ) a\n[ ] ( ) b\n[ ] ( ) c\n"),
        _ => panic!("save did not hand back the text"),
    }
    assert_eq!(texts(&n), vec!["a", "b", "c"]);
    assert_eq!(n.selection(), Some(2));
}

#[test]
fn apply_runs_commands_like_their_methods() {
    let mut n = Navigator::new();
    assert!(matches!(n.apply(Command::Back), Step::Continue));
    assert!(n.is_root());
    n.apply(Command::Add(String::from("x")));
    n.apply(Command::Add(String::from("y")));
    n.apply(Command::SelectDown);
    assert_eq!(n.selection(), Some(0));
    n.apply(Command::Edit(String::from("z")));
    n.apply(Command::Complete);
    n.apply(Command::Increase);
    n.apply(Command::Increase);
    n.apply(Command::Decrease);
    n.apply(Command::TaskDown);
    assert_eq!(texts(&n), vec!["y", "z"]);
    assert_eq!(n.selection(), Some(1));
    n.apply(Command::SelectUp);
    n.apply(Command::Increase);
    n.apply(Command::Increase);
    n.apply(Command::Sort);
    assert_eq!(texts(&n), vec!["y", "z"]);
    n.apply(Command::TaskUp);
    assert_eq!(texts(&n), vec!["z", "y"]);
    n.apply(Command::Focus);
    assert!(!n.is_root());
    n.apply(Command::Back);
    assert_eq!(n.selection(), Some(1));
    n.apply(Command::Delete);
    assert_eq!(texts(&n), vec!["z"]);
    assert_eq!(n.selection(), None);
    match n.apply(Command::Save) {
        Step::Write(text) => assert_eq!(text, "[X] (C) z\n"),
        _ => panic!("save did not hand back the text"),
    }
}
