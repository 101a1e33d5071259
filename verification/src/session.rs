//! The interaction session: a state machine holding the current query, the
//! selection index and the ranked view, driven by one abstract key event at
//! a time. Every event maps to a query edit, a re-rank and a clamped
//! selection; commit and cancel end the session.
use vstd::prelude::*;

use crate::ranker;
use crate::ranker::Finder;
use crate::record::Command;
use crate::text;

verus! {

/// One abstract key event, as the terminal driver hands them over.
#[derive(Debug, Clone, Copy)]
pub enum KeyEvent {
    /// A printable character to append to the query.
    Char(char),
    /// Remove the last character of the query.
    EraseLast,
    /// Move the selection one entry up.
    MoveUp,
    /// Move the selection one entry down.
    MoveDown,
    /// Commit the selected entry and end the session.
    Commit,
    /// End the session without committing.
    Cancel,
    /// Any other key: ignored.
    Other,
}

/// What one step of the session asks of the caller.
#[derive(Debug)]
pub enum Outcome {
    /// Keep going: read the next key event.
    Continue,
    /// The session ended committing this text (empty on an empty view).
    Committed(String),
    /// The session ended without a commit.
    Cancelled,
}

/// The abstract state of a session: the query, the selection index and the
/// ranked view.
pub struct SessionView {
    pub query: Seq<char>,
    pub selection: int,
    pub ranked: Seq<Command>,
}

/// The bound the selection index must stay under: the view's length, but
/// never less than one, so an empty view pins the selection at zero.
pub open spec fn sel_cap(n: int) -> int {
    if n == 0 {
        1
    } else {
        n
    }
}

/// A well-formed abstract state over the given records: the view is the
/// ranking of the records against the query, and the selection stays under
/// `sel_cap` of the view's length.
pub open spec fn view_wf(records: Seq<Command>, v: SessionView) -> bool {
    &&& v.ranked == ranker::rank_view_spec(records, v.query)
    &&& 0 <= v.selection < sel_cap(v.ranked.len() as int)
}

/// The text a commit hands to the sink: the selected entry's text, or the
/// empty string when the view is empty.
pub open spec fn selected_text(v: SessionView) -> Seq<char> {
    if 0 <= v.selection < v.ranked.len() {
        v.ranked[v.selection].command@
    } else {
        Seq::<char>::empty()
    }
}

/// One transition of the state machine: the new abstract state after one
/// key event. A character appends and re-ranks, resetting an out-of-range
/// selection to zero; erase drops the last query character and re-ranks,
/// clamping the selection down; up and down move the selection within
/// bounds; commit, cancel and other keys leave the state as it is.
pub open spec fn step_spec(records: Seq<Command>, v: SessionView, ev: KeyEvent) -> SessionView {
    match ev {
        KeyEvent::Char(c) => {
            let q = v.query.push(c);
            let rk = ranker::rank_view_spec(records, q);
            SessionView {
                query: q,
                selection: if v.selection < rk.len() {
                    v.selection
                } else {
                    0
                },
                ranked: rk,
            }
        },
        KeyEvent::EraseLast => {
            let q = if v.query.len() > 0 {
                v.query.drop_last()
            } else {
                v.query
            };
            let rk = ranker::rank_view_spec(records, q);
            SessionView {
                query: q,
                selection: if v.selection < sel_cap(rk.len() as int) {
                    v.selection
                } else {
                    sel_cap(rk.len() as int) - 1
                },
                ranked: rk,
            }
        },
        KeyEvent::MoveUp => {
            SessionView {
                selection: if v.selection > 0 {
                    v.selection - 1
                } else {
                    0
                },
                ..v
            }
        },
        KeyEvent::MoveDown => {
            SessionView {
                selection: if v.selection + 1 < sel_cap(v.ranked.len() as int) {
                    v.selection + 1
                } else {
                    sel_cap(v.ranked.len() as int) - 1
                },
                ..v
            }
        },
        KeyEvent::Commit => v,
        KeyEvent::Cancel => v,
        KeyEvent::Other => v,
    }
}

/// The abstract state after a whole sequence of key events.
pub open spec fn run_spec(records: Seq<Command>, v: SessionView, events: Seq<KeyEvent>) -> SessionView
    decreases events.len(),
{
    if events.len() == 0 {
        v
    } else {
        run_spec(records, step_spec(records, v, events[0]), events.skip(1))
    }
}

/// One step keeps the state well formed; in particular the selection stays
/// under `sel_cap` of the view's length.
pub proof fn lemma_step_preserves_wf(records: Seq<Command>, v: SessionView, ev: KeyEvent)
    requires
        view_wf(records, v),
    ensures
        view_wf(records, step_spec(records, v, ev)),
{
}

/// After any sequence of key events the selection index is still below
/// `max(1, len(ranked_view))`: no run of the session leaves it dangling.
pub proof fn lemma_run_preserves_wf(records: Seq<Command>, v: SessionView, events: Seq<KeyEvent>)
    requires
        view_wf(records, v),
    ensures
        view_wf(records, run_spec(records, v, events)),
    decreases events.len(),
{
    if events.len() > 0 {
        lemma_step_preserves_wf(records, v, events[0]);
        lemma_run_preserves_wf(records, step_spec(records, v, events[0]), events.skip(1));
    }
}

/// An interactive session: the record store with the current query, the
/// current selection and the current ranked view.
#[derive(Debug)]
pub struct Session {
    pub finder: Finder,
    pub selection: usize,
    pub matches: Vec<Command>,
}

impl View for Session {
    type V = SessionView;

    open spec fn view(&self) -> SessionView {
        SessionView {
            query: self.finder.query@,
            selection: self.selection as int,
            ranked: self.matches@,
        }
    }
}

impl Session {
    /// The session's state is well formed over its own records.
    pub open spec fn wf(self) -> bool {
        view_wf(self.finder.commands@, self@)
    }

    /// A fresh session over the given records: empty query, selection at
    /// zero, the view ranked against the empty query.
    pub fn new(commands: Vec<Command>) -> (r: Session)
        ensures
            r.wf(),
            r.finder.commands == commands,
            r@.query == Seq::<char>::empty(),
            r@.selection == 0,
    {
        let empty = String::new();
        let matches = Finder::get_truncated_matches(&commands, &empty);
        Session { finder: Finder::new(commands, empty), selection: 0, matches }
    }

    /// Processes one key event: edits the query and re-ranks, moves the
    /// selection, or ends the session. The new state is exactly one
    /// `step_spec` transition; commit hands back the selected text (empty
    /// on an empty view), cancel ends without one.
    pub fn step(&mut self, ev: KeyEvent) -> (o: Outcome)
        requires
            old(self).wf(),
        ensures
            final(self).wf(),
            final(self)@ == step_spec(old(self).finder.commands@, old(self)@, ev),
            final(self).finder.commands == old(self).finder.commands,
            o is Committed <==> ev is Commit,
            o is Cancelled <==> ev is Cancel,
            ev is Commit ==> o->Committed_0@ == selected_text(old(self)@),
    {
        match ev {
            KeyEvent::Char(c) => {
                let new_query = text::append_char(self.finder.query.as_str(), c);
                self.matches = Finder::get_truncated_matches(&self.finder.commands, &new_query);
                self.finder.update_query(new_query);
                if self.selection >= self.matches.len() {
                    self.selection = 0;
                }
                Outcome::Continue
            },
            KeyEvent::EraseLast => {
                let new_query = text::drop_last_char(self.finder.query.as_str());
                self.matches = Finder::get_truncated_matches(&self.finder.commands, &new_query);
                self.finder.update_query(new_query);
                let cap = if self.matches.len() == 0 {
                    1
                } else {
                    self.matches.len()
                };
                if self.selection >= cap {
                    self.selection = cap - 1;
                }
                Outcome::Continue
            },
            KeyEvent::MoveUp => {
                if self.selection > 0 {
                    self.selection = self.selection - 1;
                }
                Outcome::Continue
            },
            KeyEvent::MoveDown => {
                let cap = if self.matches.len() == 0 {
                    1
                } else {
                    self.matches.len()
                };
                if self.selection + 1 < cap {
                    self.selection = self.selection + 1;
                } else {
                    self.selection = cap - 1;
                }
                Outcome::Continue
            },
            KeyEvent::Commit => {
                let text = Finder::get_selecting_command(&self.matches, self.selection);
                Outcome::Committed(text)
            },
            KeyEvent::Cancel => Outcome::Cancelled,
            KeyEvent::Other => Outcome::Continue,
        }
    }

    /// The current query text.
    pub fn query(&self) -> (r: &String)
        ensures
            r@ == self@.query,
    {
        &self.finder.query
    }

    /// The current ranked view.
    pub fn ranked_view(&self) -> (r: &Vec<Command>)
        ensures
            r@ == self@.ranked,
    {
        &self.matches
    }

    /// The current selection index.
    pub fn selection_index(&self) -> (r: usize)
        ensures
            r as int == self@.selection,
    {
        self.selection
    }

    /// The width a rendered candidate line may use: the terminal's columns
    /// less a fixed margin.
    pub open spec fn line_width(width: u16) -> int {
        if width > 5 {
            width - 5
        } else {
            0
        }
    }

    /// The render snapshot's candidate lines: one line per ranked entry, in
    /// rank order, each made one line and cut to the terminal width less a
    /// fixed margin.
    pub fn visible_lines(&self, width: u16) -> (r: Vec<String>)
        ensures
            r@.len() == self@.ranked.len(),
            forall|i: int|
                0 <= i < r@.len() ==> r@[i]@ == text::truncated_line(
                    self@.ranked[i].command@,
                    Self::line_width(width),
                ),
    {
        let max_len = if width > 5 {
            width - 5
        } else {
            0
        };
        let mut lines: Vec<String> = Vec::new();
        let mut i: usize = 0;
        while i < self.matches.len()
            invariant
                0 <= i <= self.matches@.len(),
                max_len as int == Self::line_width(width),
                lines@.len() == i,
                forall|k: int|
                    0 <= k < i ==> lines@[k]@ == text::truncated_line(
                        self.matches@[k].command@,
                        Self::line_width(width),
                    ),
            decreases self.matches@.len() - i,
        {
            lines.push(self.matches[i].truncate_command(max_len));
            proof {
                assert(max_len as int == Self::line_width(width));
                assert(lines@[i as int]@ == text::truncated_line(
                    self.matches@[i as int].command@,
                    Self::line_width(width),
                ));
            }
            i = i + 1;
        }
        lines
    }
}

} // verus!
