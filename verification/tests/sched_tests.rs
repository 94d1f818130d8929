use feather_core::sched::DagScheduler;

fn pos(order: &[usize], id: usize) -> usize {
    order.iter().position(|&x| x == id).expect("id scheduled")
}

#[test]
fn empty_graph_executes() {
    let s = DagScheduler::new();
    assert_eq!(s.len(), 0);
    assert!(s.execute());
}

#[test]
fn acyclic_graph_runs_every_node_once_after_deps() {
    let mut s = DagScheduler::new();
    s.add_task(1);
    s.add_task(2);
    s.add_task(3);
    s.add_task(4);
    s.add_dep(2, 1); // 2 after 1
    s.add_dep(3, 2); // 3 after 2
    s.add_dep(3, 1); // 3 after 1 too
    assert!(s.execute());
    let order = s.schedule();
    assert_eq!(order.len(), 4);
    for id in 1..=4usize {
        assert_eq!(order.iter().filter(|&&x| x == id).count(), 1);
    }
    assert!(pos(&order, 1) < pos(&order, 2));
    assert!(pos(&order, 2) < pos(&order, 3));
    assert!(pos(&order, 1) < pos(&order, 3));
}

#[test]
fn ready_nodes_come_in_breadth_first_batches() {
    let mut s = DagScheduler::new();
    s.add_task(10);
    s.add_task(11);
    s.add_task(20);
    s.add_dep(20, 10);
    s.add_dep(20, 11);
    let order = s.schedule();
    assert_eq!(order.len(), 3);
    assert_eq!(order[2], 20);
}

#[test]
fn cyclic_graph_processes_fewer_than_total() {
    let mut s = DagScheduler::new();
    s.add_task(1);
    s.add_task(2);
    s.add_task(3);
    s.add_dep(1, 2);
    s.add_dep(2, 1);
    assert!(!s.execute());
    let order = s.schedule();
    assert_eq!(order, vec![3]);
}

#[test]
fn self_cycle_fails() {
    let mut s = DagScheduler::new();
    s.add_task(5);
    s.add_dep(5, 5);
    assert!(!s.execute());
    assert!(s.schedule().is_empty());
}

#[test]
fn unregistered_dependency_blocks_its_node() {
    let mut s = DagScheduler::new();
    s.add_task(1);
    s.add_task(2);
    s.add_dep(2, 99);
    assert!(!s.execute());
    assert_eq!(s.schedule(), vec![1]);
}

#[test]
fn reregistering_a_task_resets_its_dependencies() {
    let mut s = DagScheduler::new();
    s.add_task(1);
    s.add_dep(1, 99);
    assert!(!s.execute());
    s.add_task(1);
    assert_eq!(s.len(), 1);
    assert!(s.execute());
}
