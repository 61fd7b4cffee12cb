use toprs::input::{InputState, Key};
use toprs::process::MyProcess;
use toprs::sorted::{SortType, SortedProcesses};

fn rec(pid: usize, name: &str, memory: u64) -> MyProcess {
    MyProcess {
        pid,
        parent: 0,
        name: name.to_string(),
        command: name.to_string(),
        memory,
        cpu: 0,
        children_memory: 0,
        depth: 0,
    }
}

#[test]
fn selection_moves_within_rows() {
    let mut view = SortedProcesses::new();
    let mut input = InputState::new(false);
    assert!(!input.handle_key(&mut view, Key::Down, false, 3));
    assert_eq!(input.selected, 1);
    input.handle_key(&mut view, Key::PageDown, false, 3);
    assert_eq!(input.selected, 2);
    input.handle_key(&mut view, Key::Down, false, 3);
    assert_eq!(input.selected, 2);
    input.handle_key(&mut view, Key::Up, false, 3);
    assert_eq!(input.selected, 1);
    input.handle_key(&mut view, Key::PageUp, false, 3);
    assert_eq!(input.selected, 0);
    input.handle_key(&mut view, Key::End, false, 30);
    assert_eq!(input.selected, 29);
    input.handle_key(&mut view, Key::Home, false, 30);
    assert_eq!(input.selected, 0);
    input.handle_key(&mut view, Key::Down, false, 0);
    assert_eq!(input.selected, 0);
}

#[test]
fn column_keys_change_sorting() {
    let mut view = SortedProcesses::new();
    let mut input = InputState::new(false);
    assert!(input.handle_key(&mut view, Key::Right, false, 0));
    assert_eq!((view.sort_col, view.sort_type), (1, SortType::Descending));
    assert!(input.handle_key(&mut view, Key::Char('s'), false, 0));
    assert_eq!(view.sort_type, SortType::Ascending);
    assert!(input.handle_key(&mut view, Key::Left, false, 0));
    assert_eq!((view.sort_col, view.sort_type), (0, SortType::Tree));
    for _ in 0..10 {
        input.handle_key(&mut view, Key::Right, false, 0);
    }
    assert_eq!(view.sort_col, 6);
}

#[test]
fn filter_editing_reaches_view() {
    let procs = vec![rec(1, "alpha", 1), rec(2, "beta", 1)];
    let mut view = SortedProcesses::new();
    view.sort_col = 2;
    view.sort_type = SortType::Ascending;
    view.update(&procs);
    let mut input = InputState::new(false);
    input.handle_key(&mut view, Key::Char('f'), false, 2);
    assert!(input.filtering);
    input.handle_key(&mut view, Key::Char('b'), false, 2);
    input.handle_key(&mut view, Key::Char('x'), false, 2);
    input.handle_key(&mut view, Key::Backspace, false, 2);
    assert_eq!(input.filter, vec!['b']);
    let rows = view.procs();
    assert_eq!(rows.len(), 1);
    assert_eq!(rows[0][1], "beta");
    input.handle_key(&mut view, Key::Enter, false, 1);
    assert!(!input.filtering);
    input.handle_key(&mut view, Key::Char('q'), false, 1);
    assert!(input.done);
}

#[test]
fn toggles_and_exit_keys() {
    let mut view = SortedProcesses::new();
    let mut input = InputState::new(false);
    input.handle_key(&mut view, Key::Char('c'), false, 0);
    assert!(input.hide_cores);
    input.handle_key(&mut view, Key::Char('z'), false, 0);
    assert!(!view.hidezeros);
    input.handle_key(&mut view, Key::Char('?'), false, 0);
    assert!(input.help);
    assert!(!input.done);
    input.handle_key(&mut view, Key::Char('c'), true, 0);
    assert!(input.done);
    let mut input = InputState::new(false);
    input.handle_key(&mut view, Key::Char('g'), false, 0);
    assert!(input.done && input.start_gui);
}
