use toprs::hierarchy::build_hierarchy;
use toprs::process::MyProcess;

fn rec(pid: usize, parent: usize, name: &str, memory: u64) -> MyProcess {
    MyProcess {
        pid,
        parent,
        name: name.to_string(),
        command: format!("/bin/{name}"),
        memory,
        cpu: 0,
        children_memory: 0,
        depth: 0,
    }
}

fn find(v: &[MyProcess], pid: usize) -> &MyProcess {
    v.iter().find(|p| p.pid == pid).expect("pid present")
}

fn root_total(v: &[MyProcess]) -> u64 {
    v.iter().filter(|p| p.parent == 0).map(|p| p.total()).sum()
}

#[test]
fn conservation_root_total_equals_all_memory() {
    let records = vec![
        rec(1, 0, "init", 10),
        rec(2, 1, "shell", 20),
        rec(3, 2, "editor", 300),
        rec(4, 2, "make", 40),
        rec(5, 77, "orphan", 5),
        rec(6, 7, "loop_a", 6),
        rec(7, 6, "loop_b", 7),
    ];
    let v = build_hierarchy(&records);
    let all: u64 = v.iter().map(|p| p.memory).sum();
    assert_eq!(all, 388);
    assert_eq!(root_total(&v), all);
    assert_eq!(find(&v, 2).children_memory, 340);
    assert_eq!(find(&v, 1).children_memory, 360);
    assert_eq!(find(&v, 1).total(), 370);
    for p in &v {
        let under: u64 = v.iter().filter(|c| c.parent == p.pid).map(|c| c.total()).sum();
        assert_eq!(p.children_memory, under);
    }
}

#[test]
fn acyclic_every_chain_reaches_root() {
    let records = vec![
        rec(5, 3, "five", 1),
        rec(3, 9, "three", 1),
        rec(9, 5, "nine", 1),
        rec(8, 8, "self_loop", 1),
        rec(12, 5, "under_cycle", 1),
        rec(20, 21, "pair_a", 1),
        rec(21, 20, "pair_b", 1),
    ];
    let v = build_hierarchy(&records);
    for p in &v {
        let mut cur = p.pid;
        let mut steps = 0;
        while cur != 0 {
            cur = find(&v, cur).parent;
            steps += 1;
            assert!(steps <= v.len());
        }
        assert_eq!(p.depth, steps);
    }
}

#[test]
fn cycle_broken_at_lowest_pid() {
    let records = vec![rec(5, 3, "five", 1), rec(3, 9, "three", 1), rec(9, 5, "nine", 1)];
    let v = build_hierarchy(&records);
    assert_eq!(find(&v, 3).parent, 0);
    assert_eq!(find(&v, 5).parent, 3);
    assert_eq!(find(&v, 9).parent, 5);
    assert_eq!(find(&v, 3).depth, 1);
    assert_eq!(find(&v, 5).depth, 2);
    assert_eq!(find(&v, 9).depth, 3);
    let again = build_hierarchy(&records);
    let links: Vec<(usize, usize)> = v.iter().map(|p| (p.pid, p.parent)).collect();
    let links_again: Vec<(usize, usize)> = again.iter().map(|p| (p.pid, p.parent)).collect();
    assert_eq!(links, links_again);
    let rebuilt = build_hierarchy(&v);
    let links_rebuilt: Vec<(usize, usize)> = rebuilt.iter().map(|p| (p.pid, p.parent)).collect();
    assert_eq!(links, links_rebuilt);
}

#[test]
fn dangling_parent_goes_to_root() {
    let records = vec![rec(7, 42, "lost", 10), rec(8, 7, "child", 5)];
    let v = build_hierarchy(&records);
    assert_eq!(find(&v, 7).parent, 0);
    assert_eq!(find(&v, 8).parent, 7);
    assert_eq!(find(&v, 7).children_memory, 5);
    assert_eq!(find(&v, 8).depth, 2);
}

#[test]
fn duplicates_keep_last_and_pid_zero_dropped() {
    let records = vec![
        rec(0, 0, "root_entry", 99),
        rec(4, 0, "first", 1),
        rec(4, 0, "second", 2),
    ];
    let v = build_hierarchy(&records);
    assert_eq!(v.len(), 1);
    assert_eq!(v[0].name, "second");
    assert_eq!(v[0].memory, 2);
}

#[test]
fn empty_snapshot_builds_empty_set() {
    let v = build_hierarchy(&Vec::new());
    assert!(v.is_empty());
}
