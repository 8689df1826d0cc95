use yat::todo::{decrease, increase, Priority, ToDo};

fn node(text: &str, priority: Option<Priority>) -> ToDo {
    let mut t = ToDo::new(text);
    t.priority = priority;
    t
}

fn texts(t: &ToDo) -> Vec<String> {
    t.sub_tasks.iter().map(|c| c.task.clone()).collect()
}

#[test]
fn new_task_is_blank() {
    let t = ToDo::new("Buy milk");
    assert_eq!(t.task, "Buy milk");
    assert!(!t.complete);
    assert_eq!(t.priority, None);
    assert!(t.sub_tasks.is_empty());
}

#[test]
fn sort_is_stable_by_descending_priority() {
    let mut root = ToDo::new("");
    root.sub_tasks.push(node("a", None));
    root.sub_tasks.push(node("b", Some(Priority::High)));
    root.sub_tasks.push(node("c", Some(Priority::Medium)));
    root.sub_tasks.push(node("d", Some(Priority::High)));
    root.sub_tasks.push(node("e", None));
    root.sort_by_priority();
    assert_eq!(texts(&root), vec!["b", "d", "c", "a", "e"]);
}

#[test]
fn sort_places_low_between_medium_and_none() {
    let mut root = ToDo::new("");
    root.sub_tasks.push(node("none", None));
    root.sub_tasks.push(node("low", Some(Priority::Low)));
    root.sub_tasks.push(node("medium", Some(Priority::Medium)));
    root.sort_by_priority();
    assert_eq!(texts(&root), vec!["medium", "low", "none"]);
}

#[test]
fn sort_touches_direct_children_only() {
    let mut root = ToDo::new("");
    let mut parent = node("p", None);
    parent.sub_tasks.push(node("x", None));
    parent.sub_tasks.push(node("y", Some(Priority::High)));
    root.sub_tasks.push(parent);
    root.sort_by_priority();
    assert_eq!(texts(&root.sub_tasks[0]), vec!["x", "y"]);
}

#[test]
fn increase_saturates_at_high_after_three_steps() {
    let one = increase(None);
    let two = increase(one);
    let three = increase(two);
    assert_eq!(one, Some(Priority::Low));
    assert_eq!(two, Some(Priority::Medium));
    assert_eq!(three, Some(Priority::High));
    assert_eq!(increase(three), Some(Priority::High));
}

#[test]
fn decrease_saturates_at_none_after_three_steps() {
    let one = decrease(Some(Priority::High));
    let two = decrease(one);
    let three = decrease(two);
    assert_eq!(one, Some(Priority::Medium));
    assert_eq!(two, Some(Priority::Low));
    assert_eq!(three, None);
    assert_eq!(decrease(three), None);
}

#[test]
fn duplicate_copies_the_whole_subtree() {
    let mut root = ToDo::new("r");
    let mut child = node("c", Some(Priority::Low));
    child.complete = true;
    child.sub_tasks.push(node("g", None));
    root.sub_tasks.push(child);
    let copy = root.duplicate();
    assert_eq!(copy.save(), root.save());
    assert_eq!(copy.task, "r");
}
