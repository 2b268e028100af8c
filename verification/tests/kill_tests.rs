use mio_child_process::{kill_order, ProcessEntry, ProcessTable};

#[test]
fn kill_order_on_an_unlisted_process_is_just_the_target() {
    let table = ProcessTable { entries: Vec::new() };
    assert_eq!(kill_order(&table, 10), vec![10]);
}

#[test]
fn kill_order_puts_a_grandchild_first_and_the_target_last() {
    let table = ProcessTable {
        entries: vec![
            ProcessEntry { pid: 2, parent: 1 },
            ProcessEntry { pid: 3, parent: 2 },
        ],
    };
    assert_eq!(kill_order(&table, 1), vec![3, 2, 1]);
}

#[test]
fn kill_order_visits_siblings_in_snapshot_order() {
    let table = ProcessTable {
        entries: vec![
            ProcessEntry { pid: 5, parent: 1 },
            ProcessEntry { pid: 4, parent: 1 },
            ProcessEntry { pid: 9, parent: 4 },
        ],
    };
    assert_eq!(kill_order(&table, 1), vec![5, 9, 4, 1]);
}

#[test]
fn kill_order_ignores_processes_outside_the_target_tree() {
    let table = ProcessTable {
        entries: vec![
            ProcessEntry { pid: 2, parent: 1 },
            ProcessEntry { pid: 30, parent: 20 },
        ],
    };
    let order = kill_order(&table, 1);
    assert_eq!(order, vec![2, 1]);
    assert!(!order.contains(&30));
}
