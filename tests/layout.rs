use toprs::hierarchy::build_hierarchy;
use toprs::layout::layout;
use toprs::process::MyProcess;

fn rec(pid: usize, parent: usize, memory: u64) -> MyProcess {
    MyProcess {
        pid,
        parent,
        name: format!("p{pid}"),
        command: format!("p{pid}"),
        memory,
        cpu: 0,
        children_memory: 0,
        depth: 0,
    }
}

#[test]
fn layout_shares_capacity_by_total() {
    let procs = build_hierarchy(&vec![rec(1, 0, 300), rec(2, 1, 100), rec(3, 0, 600)]);
    let l = layout(&procs, 1000);
    assert_eq!(l.regions.len(), 4);
    let root = l.regions[0];
    assert_eq!((root.pid, root.offset, root.total_extent, root.children_extent), (0, 0, 1000, 1000));
    let r3 = l.regions[1];
    assert_eq!((r3.pid, r3.offset, r3.total_extent, r3.own_extent, r3.depth), (3, 0, 600, 600, 1));
    let r1 = l.regions[2];
    assert_eq!((r1.pid, r1.offset, r1.total_extent, r1.own_extent, r1.children_extent), (1, 600, 400, 300, 100));
    let r2 = l.regions[3];
    assert_eq!((r2.pid, r2.offset, r2.total_extent, r2.parent_region, r2.depth), (2, 600, 100, 2, 2));
}

#[test]
fn layout_children_never_overflow_parent() {
    let mut records = Vec::new();
    for i in 1..40usize {
        let parent = if i < 4 { 0 } else { i / 4 };
        records.push(rec(i, parent, (i as u64 * 7919) % 1000 + 1));
    }
    let procs = build_hierarchy(&records);
    let l = layout(&procs, 999);
    assert_eq!(l.regions.len(), procs.len() + 1);
    for (p, parent) in l.regions.iter().enumerate() {
        let children: Vec<_> = l.regions.iter().skip(1).filter(|r| r.parent_region == p).collect();
        let used: u64 = children.iter().map(|r| r.total_extent).sum();
        assert!(used <= parent.children_extent);
        for c in &children {
            assert!(c.offset >= parent.offset);
            assert!(c.offset + c.total_extent <= parent.offset + parent.children_extent);
        }
    }
}

#[test]
fn layout_zero_totals_get_no_extent() {
    let procs = build_hierarchy(&vec![rec(1, 0, 0), rec(2, 0, 0)]);
    let l = layout(&procs, 500);
    assert_eq!(l.regions.len(), 3);
    assert!(l.regions.iter().skip(1).all(|r| r.total_extent == 0 && r.own_extent == 0));
}

#[test]
fn layout_with_no_capacity_or_no_nodes() {
    let procs = build_hierarchy(&vec![rec(1, 0, 10)]);
    let l = layout(&procs, 0);
    assert_eq!(l.regions.len(), 2);
    assert_eq!(l.regions[1].total_extent, 0);
    let empty = layout(&Vec::new(), 1000);
    assert_eq!(empty.regions.len(), 1);
    assert_eq!(empty.regions[0].children_extent, 1000);
}
