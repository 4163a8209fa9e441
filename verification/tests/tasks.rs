use azul::tasks::WindowTasks;

#[test]
fn new_registry_has_no_entries() {
    let t: WindowTasks<&str> = WindowTasks::new();
    assert!(!t.has_entries());
    assert!(t.window_tasks(0).is_none());
}

#[test]
fn merging_nothing_still_creates_the_entry() {
    let mut t: WindowTasks<&str> = WindowTasks::new();
    t.merge(3, vec![]);
    assert!(t.has_entries());
    assert_eq!(t.window_tasks(3).map(|m| m.len()), Some(0));
    assert!(t.window_tasks(4).is_none());
}

#[test]
fn merged_tasks_join_and_replace_by_id() {
    let mut t: WindowTasks<&str> = WindowTasks::new();
    t.merge(1, vec![(10, "blink"), (11, "scroll")]);
    t.merge(1, vec![(11, "scroll again"), (12, "fade")]);
    t.merge(2, vec![(10, "other window")]);
    let w1 = t.window_tasks(1).unwrap();
    assert_eq!(w1.len(), 3);
    assert_eq!(w1.get(&10), Some(&"blink"));
    assert_eq!(w1.get(&11), Some(&"scroll again"));
    assert_eq!(w1.get(&12), Some(&"fade"));
    assert_eq!(t.window_tasks(2).unwrap().get(&10), Some(&"other window"));
    assert_eq!(t.entries().len(), 2);
}

#[test]
fn later_task_with_same_id_wins_within_one_merge() {
    let mut t: WindowTasks<u32> = WindowTasks::new();
    t.merge(0, vec![(1, 100), (1, 200)]);
    assert_eq!(t.window_tasks(0).unwrap().get(&1), Some(&200));
}

#[test]
fn merging_twice_equals_merging_once() {
    let mut twice: WindowTasks<u32> = WindowTasks::new();
    twice.merge(5, vec![(1, 1), (2, 2)]);
    twice.merge(5, vec![(2, 3), (4, 4)]);
    let mut once: WindowTasks<u32> = WindowTasks::new();
    once.merge(5, vec![(1, 1), (2, 2), (2, 3), (4, 4)]);
    assert_eq!(twice.window_tasks(5), once.window_tasks(5));
}
