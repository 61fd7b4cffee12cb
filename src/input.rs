//! Key handling of the terminal interface as a step from state and key to state.

use vstd::prelude::*;
use crate::sorted::{SortType, SortedProcesses};

verus! {

/// A key press of the terminal interface.
#[derive(Clone, Copy, Debug, PartialEq, Eq, Structural)]
pub enum Key {
    Char(char),
    Esc,
    Enter,
    Backspace,
    Up,
    Down,
    PageUp,
    PageDown,
    Home,
    End,
    Left,
    Right,
    Other,
}

/// Rows a page key moves the selection by.
pub const PAGE: usize = 20;

/// Relies on `String::from_iter` over `char`s: the text of those characters.
#[verifier::external_body]
fn chars_to_string(v: &Vec<char>) -> (r: String)
    ensures
        r@ == v@,
{
    String::from_iter(v.iter())
}

/// What the terminal interface shows besides the table.
pub struct InputState {
    pub selected: usize,
    pub help: bool,
    pub start_gui: bool,
    pub filter: Vec<char>,
    pub filtering: bool,
    pub hide_cores: bool,
    pub done: bool,
}

pub open spec fn last_row(rows: usize) -> usize {
    if rows == 0 {
        0
    } else {
        (rows - 1) as usize
    }
}

/// The selection after `key`, with `rows` rows shown.
pub open spec fn moved(key: Key, selected: usize, rows: usize) -> usize {
    let last = last_row(rows);
    match key {
        Key::Down => if selected < last { (selected + 1) as usize } else { last },
        Key::Up => if selected >= 1 { (selected - 1) as usize } else { 0 },
        Key::PageDown => if selected + PAGE <= last { (selected + PAGE) as usize } else { last },
        Key::PageUp => if selected >= PAGE { (selected - PAGE) as usize } else { 0 },
        Key::Home => 0,
        Key::End => last,
        _ => selected,
    }
}

impl InputState {
    pub fn new(hide_cores: bool) -> (r: InputState)
        ensures
            r.selected == 0,
            !r.help,
            !r.start_gui,
            r.filter@.len() == 0,
            !r.filtering,
            r.hide_cores == hide_cores,
            !r.done,
    {
        InputState {
            selected: 0,
            help: false,
            start_gui: false,
            filter: Vec::new(),
            filtering: false,
            hide_cores,
            done: false,
        }
    }

    /// Applies one key press, `ctrl` telling whether Control was held, with
    /// `rows` rows shown. Returns whether the rows must be arranged again.
    pub fn handle_key(&mut self, view: &mut SortedProcesses, key: Key, ctrl: bool, rows: usize) -> (resort: bool)
        ensures
            final(view).stored() == old(view).stored(),
            old(self).filtering ==> {
                &&& final(self).filtering == !(key == Key::Esc || key == Key::Enter)
                &&& final(self).filter@ == match key {
                    Key::Char(c) => old(self).filter@.push(c),
                    Key::Backspace => if old(self).filter@.len() > 0 {
                        old(self).filter@.drop_last()
                    } else {
                        old(self).filter@
                    },
                    _ => old(self).filter@,
                }
                &&& final(view).filter_text() == final(self).filter@
                &&& final(view).sort_col == old(view).sort_col
                &&& final(view).sort_type == old(view).sort_type
                &&& final(view).hidezeros == old(view).hidezeros
                &&& final(self).selected == old(self).selected
                &&& final(self).done == old(self).done
                &&& final(self).start_gui == old(self).start_gui
                &&& final(self).help == old(self).help
                &&& final(self).hide_cores == old(self).hide_cores
                &&& !resort
            },
            !old(self).filtering ==> {
                &&& final(self).filter@ == old(self).filter@
                &&& final(view).filter_text() == old(view).filter_text()
                &&& final(self).selected == moved(key, old(self).selected, rows)
                &&& final(self).done == (old(self).done || key == Key::Esc || key == Key::Char('q')
                    || key == Key::Char('g') || (key == Key::Char('c') && ctrl))
                &&& final(self).start_gui == (old(self).start_gui || key == Key::Char('g'))
                &&& final(self).help == (old(self).help != (key == Key::Char('h') || key == Key::Char('?')))
                &&& final(self).hide_cores == (old(self).hide_cores != (key == Key::Char('c') && !ctrl))
                &&& final(self).filtering == (key == Key::Char('f'))
                &&& final(view).hidezeros == (old(view).hidezeros != (key == Key::Char('z')))
                &&& resort == (key == Key::Char('s') || key == Key::Left || key == Key::Right)
                &&& key == Key::Left ==> {
                    &&& final(view).sort_col == if old(view).sort_col >= 1 {
                        (old(view).sort_col - 1) as usize
                    } else {
                        0
                    }
                    &&& final(view).sort_type == if final(view).sort_col == 0 {
                        SortType::Tree
                    } else {
                        old(view).sort_type
                    }
                }
                &&& key == Key::Right ==> {
                    &&& final(view).sort_col == if old(view).sort_col < 6 {
                        (old(view).sort_col + 1) as usize
                    } else {
                        6
                    }
                    &&& final(view).sort_type == if final(view).sort_col > 0 && old(view).sort_type
                        == SortType::Tree {
                        SortType::Descending
                    } else {
                        old(view).sort_type
                    }
                }
                &&& key == Key::Char('s') ==> final(view).sort_col == old(view).sort_col
                    && final(view).sort_type == if old(view).sort_col == 0 {
                    match old(view).sort_type {
                        SortType::Tree => SortType::Ascending,
                        SortType::Ascending => SortType::Descending,
                        SortType::Descending => SortType::Tree,
                    }
                } else {
                    match old(view).sort_type {
                        SortType::Tree => SortType::Descending,
                        SortType::Ascending => SortType::Descending,
                        SortType::Descending => SortType::Ascending,
                    }
                }
                &&& (key != Key::Left && key != Key::Right && key != Key::Char('s')) ==> final(view).sort_col
                    == old(view).sort_col && final(view).sort_type == old(view).sort_type
            },
    {
        if self.filtering {
            match key {
                Key::Esc | Key::Enter => {
                    self.filtering = false;
                },
                Key::Char(c) => {
                    self.filter.push(c);
                },
                Key::Backspace => {
                    let _ = self.filter.pop();
                },
                _ => {},
            }
            view.set_filter(chars_to_string(&self.filter));
            return false;
        }
        let last = if rows == 0 {
            0
        } else {
            rows - 1
        };
        match key {
            Key::Char('q') | Key::Esc => {
                self.done = true;
                false
            },
            Key::Char('s') => {
                view.sort_cycle();
                true
            },
            Key::Char('c') => {
                if ctrl {
                    self.done = true;
                } else {
                    self.hide_cores = !self.hide_cores;
                }
                false
            },
            Key::Char('f') => {
                self.filtering = true;
                false
            },
            Key::Char('z') => {
                view.hidezeros = !view.hidezeros;
                false
            },
            Key::Char('h') | Key::Char('?') => {
                self.help = !self.help;
                false
            },
            Key::Char('g') => {
                self.done = true;
                self.start_gui = true;
                false
            },
            Key::Down => {
                self.selected = if self.selected < last {
                    self.selected + 1
                } else {
                    last
                };
                false
            },
            Key::Up => {
                self.selected = if self.selected >= 1 {
                    self.selected - 1
                } else {
                    0
                };
                false
            },
            Key::PageDown => {
                self.selected = if last >= PAGE && self.selected <= last - PAGE {
                    self.selected + PAGE
                } else {
                    last
                };
                false
            },
            Key::PageUp => {
                self.selected = if self.selected >= PAGE {
                    self.selected - PAGE
                } else {
                    0
                };
                false
            },
            Key::Home => {
                self.selected = 0;
                false
            },
            Key::End => {
                self.selected = last;
                false
            },
            Key::Left => {
                view.sort_col = if view.sort_col >= 1 {
                    view.sort_col - 1
                } else {
                    0
                };
                if view.sort_col == 0 {
                    view.sort_type = SortType::Tree;
                }
                true
            },
            Key::Right => {
                view.sort_col = if view.sort_col < 6 {
                    view.sort_col + 1
                } else {
                    6
                };
                if view.sort_col > 0 && view.sort_type == SortType::Tree {
                    view.sort_type = SortType::Descending;
                }
                true
            },
            _ => false,
        }
    }
}

} // verus!
