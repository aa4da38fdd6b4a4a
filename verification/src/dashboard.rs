//! What the dashboard's keys do to its view: selection, sort order and the
//! text being typed.
use vstd::prelude::*;

verus! {

/// The order of the endpoint list.
#[derive(Debug, Clone, Copy, PartialEq, Eq, Structural)]
pub enum SortMode {
    ByScore,
    ByName,
    ByRequests,
}

/// A key press, as far as the dashboard tells keys apart.
#[derive(Debug, Clone, Copy, PartialEq, Eq, Structural)]
pub enum KeyPress {
    Char(char),
    Esc,
    Backspace,
    Down,
    Up,
    Other,
}

/// The dashboard's view: the selected row, the sort order and the text
/// typed so far.
#[derive(Debug)]
pub struct ViewState {
    pub selected: usize,
    pub sort_by: SortMode,
    pub input: Vec<char>,
}

/// The last row of a list of `rows` rows (0 when empty).
pub open spec fn last_row(rows: usize) -> int {
    if rows > 0 {
        rows - 1
    } else {
        0
    }
}

/// Whether a key is a command: `q`, `j`, `k`, `s`, `n`, `r`, the arrows.
/// Commands act only while nothing is typed; otherwise letters are typed.
pub open spec fn command_key(k: KeyPress) -> bool {
    match k {
        KeyPress::Down | KeyPress::Up => true,
        KeyPress::Char(c) => c == 'q' || c == 'j' || c == 'k' || c == 's' || c == 'n' || c == 'r',
        _ => false,
    }
}

impl ViewState {
    /// The view when the dashboard opens: first row, sorted by score,
    /// nothing typed.
    pub fn new() -> (r: ViewState)
        ensures
            r.selected == 0,
            r.sort_by == SortMode::ByScore,
            r.input@ == Seq::<char>::empty(),
    {
        ViewState { selected: 0, sort_by: SortMode::ByScore, input: Vec::new() }
    }

    /// Applies one key press to the view of a list of `rows` rows; returns
    /// whether the dashboard should quit. With nothing typed: `q` quits,
    /// Down/`j` and Up/`k` move the selection within the list, `s`, `n`, `r`
    /// sort by score, name, requests. Esc clears the text, Backspace deletes
    /// its last character, and any other character is typed.
    pub fn handle_key(&mut self, key: KeyPress, rows: usize) -> (quit: bool)
        requires
            old(self).selected < usize::MAX,
        ensures
            ({
                let typing = old(self).input@.len() > 0;
                let cmd = command_key(key) && !typing;
                &&& old(self).selected <= last_row(rows) ==> final(self).selected <= last_row(rows)
                &&& quit == (cmd && key == KeyPress::Char('q'))
                &&& final(self).selected == if cmd && (key == KeyPress::Down || key == KeyPress::Char('j')) {
                    if old(self).selected + 1 <= last_row(rows) {
                        old(self).selected + 1
                    } else {
                        last_row(rows)
                    }
                } else if cmd && (key == KeyPress::Up || key == KeyPress::Char('k')) {
                    if old(self).selected > 0 {
                        old(self).selected - 1
                    } else {
                        0
                    }
                } else {
                    old(self).selected as int
                }
                &&& final(self).sort_by == if cmd && key == KeyPress::Char('s') {
                    SortMode::ByScore
                } else if cmd && key == KeyPress::Char('n') {
                    SortMode::ByName
                } else if cmd && key == KeyPress::Char('r') {
                    SortMode::ByRequests
                } else {
                    old(self).sort_by
                }
                &&& final(self).input@ == match key {
                    KeyPress::Esc => Seq::empty(),
                    KeyPress::Backspace => if typing {
                        old(self).input@.drop_last()
                    } else {
                        old(self).input@
                    },
                    KeyPress::Char(c) => if cmd {
                        old(self).input@
                    } else {
                        old(self).input@.push(c)
                    },
                    _ => old(self).input@,
                }
            }),
    {
        let typing = self.input.len() > 0;
        let cmd = !typing && is_command(key);
        if cmd {
            match key {
                KeyPress::Char('q') => {
                    return true;
                },
                KeyPress::Down | KeyPress::Char('j') => {
                    let last = if rows > 0 { rows - 1 } else { 0 };
                    let next = self.selected + 1;
                    self.selected = if next <= last { next } else { last };
                },
                KeyPress::Up | KeyPress::Char('k') => {
                    self.selected = if self.selected > 0 { self.selected - 1 } else { 0 };
                },
                KeyPress::Char('s') => {
                    self.sort_by = SortMode::ByScore;
                },
                KeyPress::Char('n') => {
                    self.sort_by = SortMode::ByName;
                },
                KeyPress::Char('r') => {
                    self.sort_by = SortMode::ByRequests;
                },
                _ => {},
            }
            return false;
        }
        match key {
            KeyPress::Esc => {
                self.input.clear();
            },
            KeyPress::Backspace => {
                if typing {
                    self.input.pop();
                }
            },
            KeyPress::Char(c) => {
                self.input.push(c);
            },
            _ => {},
        }
        false
    }
}

fn is_command(key: KeyPress) -> (r: bool)
    ensures
        r == command_key(key),
{
    match key {
        KeyPress::Down | KeyPress::Up => true,
        KeyPress::Char(c) => c == 'q' || c == 'j' || c == 'k' || c == 's' || c == 'n' || c == 'r',
        _ => false,
    }
}

} // verus!
