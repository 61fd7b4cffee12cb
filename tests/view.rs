use toprs::hierarchy::build_hierarchy;
use toprs::process::MyProcess;
use toprs::sorted::{top_pids, SortType, SortedProcesses};

fn rec(pid: usize, parent: usize, name: &str, memory: u64) -> MyProcess {
    MyProcess {
        pid,
        parent,
        name: name.to_string(),
        command: name.to_lowercase(),
        memory,
        cpu: 0,
        children_memory: 0,
        depth: 0,
    }
}

fn names(rows: &[Vec<String>]) -> Vec<String> {
    rows.iter().map(|r| r[1].clone()).collect()
}

fn commands(rows: &[Vec<String>]) -> Vec<String> {
    rows.iter().map(|r| r[0].clone()).collect()
}

#[test]
fn sort_by_self_memory_then_toggle() {
    let procs = vec![rec(1, 0, "A", 100), rec(2, 0, "B", 50), rec(3, 0, "C", 200)];
    let mut view = SortedProcesses::new();
    view.sort_col = 3;
    view.sort_type = SortType::Descending;
    view.update(&procs);
    assert_eq!(names(&view.procs()), vec!["C", "A", "B"]);
    view.sort_cycle();
    assert_eq!(view.sort_type, SortType::Ascending);
    view.update(&procs);
    assert_eq!(names(&view.procs()), vec!["B", "A", "C"]);
    view.sort_col = 0;
    view.sort_type = SortType::Descending;
    view.sort_cycle();
    assert_eq!(view.sort_type, SortType::Tree);
}

#[test]
fn sort_cycle_transitions() {
    let mut view = SortedProcesses::new();
    assert_eq!(view.sort_type, SortType::Tree);
    view.sort_cycle();
    assert_eq!(view.sort_type, SortType::Ascending);
    view.sort_cycle();
    assert_eq!(view.sort_type, SortType::Descending);
    view.sort_cycle();
    assert_eq!(view.sort_type, SortType::Tree);
    view.sort_col = 4;
    view.sort_cycle();
    assert_eq!(view.sort_type, SortType::Descending);
    view.sort_cycle();
    assert_eq!(view.sort_type, SortType::Ascending);
    view.sort_cycle();
    assert_eq!(view.sort_type, SortType::Descending);
}

#[test]
fn equal_keys_keep_their_order() {
    let procs = vec![rec(1, 0, "P", 10), rec(2, 0, "Q", 10), rec(3, 0, "R", 10)];
    let mut view = SortedProcesses::new();
    view.sort_col = 3;
    view.sort_type = SortType::Descending;
    view.update(&procs);
    assert_eq!(names(&view.procs()), vec!["P", "Q", "R"]);
}

#[test]
fn sort_by_name_ignores_case() {
    let procs = vec![rec(1, 0, "beta", 1), rec(2, 0, "Alpha", 1), rec(3, 0, "Gamma", 1)];
    let mut view = SortedProcesses::new();
    view.sort_col = 1;
    view.sort_type = SortType::Ascending;
    view.update(&procs);
    assert_eq!(names(&view.procs()), vec!["Alpha", "beta", "Gamma"]);
}

#[test]
fn tree_glyphs_two_children() {
    let procs = build_hierarchy(&vec![rec(10, 0, "X", 100), rec(11, 10, "X1", 50), rec(20, 0, "Y", 30)]);
    let mut view = SortedProcesses::new();
    view.update(&procs);
    let rows = view.procs();
    assert_eq!(names(&rows), vec!["X", "X1", "Y"]);
    assert_eq!(commands(&rows), vec!["x", "└x1", "y"]);
}

#[test]
fn tree_glyphs_deeper_levels() {
    let procs = build_hierarchy(&vec![
        rec(1, 0, "A", 1000),
        rec(2, 1, "A1", 300),
        rec(3, 1, "A2", 200),
        rec(4, 2, "A11", 10),
        rec(5, 0, "B", 100),
    ]);
    let mut view = SortedProcesses::new();
    view.update(&procs);
    let rows = view.procs();
    assert_eq!(names(&rows), vec!["A", "A1", "A11", "A2", "B"]);
    assert_eq!(commands(&rows), vec!["a", "├a1", "│└a11", "└a2", "b"]);
}

#[test]
fn row_cells_are_formatted() {
    let mut p = rec(42, 0, "Server", 6000);
    p.cpu = 125;
    let mut view = SortedProcesses::new();
    view.sort_col = 2;
    view.sort_type = SortType::Descending;
    view.update(&[p]);
    let rows = view.procs();
    assert_eq!(rows.len(), 1);
    assert_eq!(rows[0], vec!["server", "Server", "42", "5.9K", "", "5.9K", "12.5%"]);
}

#[test]
fn filter_matches_name_or_command_ignoring_case() {
    let procs = vec![rec(1, 0, "Firefox", 10), rec(2, 0, "bash", 10), rec(3, 0, "FIREWALL", 10)];
    let mut view = SortedProcesses::new();
    view.sort_col = 2;
    view.sort_type = SortType::Ascending;
    view.update(&procs);
    view.set_filter("fire".to_string());
    assert_eq!(names(&view.procs()), vec!["Firefox", "FIREWALL"]);
    view.set_filter("zzz".to_string());
    assert!(view.procs().is_empty());
}

#[test]
fn filter_applied_twice_is_the_same() {
    let procs = vec![rec(1, 0, "Firefox", 10), rec(2, 0, "bash", 10), rec(3, 0, "fish", 0)];
    let mut view = SortedProcesses::new();
    view.sort_col = 2;
    view.sort_type = SortType::Ascending;
    view.update(&procs);
    view.set_filter("f".to_string());
    let once = view.procs();
    view.set_filter("f".to_string());
    let twice = view.procs();
    assert_eq!(once, twice);
    assert_eq!(names(&once), vec!["Firefox"]);
}

#[test]
fn zero_memory_rows_hidden_unless_asked() {
    let procs = vec![rec(1, 0, "idle", 0), rec(2, 0, "busy", 5)];
    let mut view = SortedProcesses::new();
    view.sort_col = 2;
    view.sort_type = SortType::Ascending;
    view.update(&procs);
    assert_eq!(names(&view.procs()), vec!["busy"]);
    view.hidezeros = false;
    assert_eq!(names(&view.procs()), vec!["idle", "busy"]);
}

#[test]
fn top_pids_by_memory() {
    let procs = vec![rec(1, 0, "a", 5), rec(2, 0, "b", 50), rec(3, 0, "c", 20), rec(4, 0, "d", 1)];
    assert_eq!(top_pids(&procs, 3, 2), vec![2, 3]);
    assert_eq!(top_pids(&procs, 3, 10), vec![2, 3, 1, 4]);
}
