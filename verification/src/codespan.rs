//! A four-state automaton that tracks whether a scan position is outside,
//! entering, inside, or exiting a backtick-delimited inline code span.
//!
//! A code span is delimited by backtick runs of equal length; a closing run
//! of a different length is literal content of the span. Two counters follow
//! the automaton: the length of the opening backtick run and the length of
//! the closing run currently being consumed.

use vstd::prelude::*;

verus! {

/// Where the scan stands relative to a backtick-delimited code span.
#[derive(Clone, Copy, PartialEq, Eq, Structural, Debug)]
pub enum CodespanState {
    InsideText,
    EnteringCodespan,
    InsideCodespan,
    ExitingCodespan,
}

/// The mathematical model of the automaton: its state and the two
/// backtick-run counters, as unbounded integers.
pub struct CodespanMachine {
    pub state: CodespanState,
    pub open_run: int,
    pub close_run: int,
}

/// The machine before any character has been consumed.
pub open spec fn initial_machine() -> CodespanMachine {
    CodespanMachine { state: CodespanState::InsideText, open_run: 0, close_run: 0 }
}

/// One transition of the automaton on one character.
///
/// From `InsideText` a backtick opens a run; in `EnteringCodespan` backticks
/// extend the opening run and anything else lands inside the span; in
/// `InsideCodespan` a backtick starts a closing run; in `ExitingCodespan`
/// backticks extend the closing run, and any other character resolves it:
/// the span closes only when the two run lengths match, otherwise the
/// backticks were literal content and the scan falls back inside the span.
pub open spec fn machine_step(m: CodespanMachine, c: char) -> CodespanMachine {
    match m.state {
        CodespanState::InsideText => {
            if c == '`' {
                CodespanMachine {
                    state: CodespanState::EnteringCodespan,
                    open_run: 1,
                    close_run: m.close_run,
                }
            } else {
                m
            }
        },
        CodespanState::EnteringCodespan => {
            if c == '`' {
                CodespanMachine {
                    state: CodespanState::EnteringCodespan,
                    open_run: m.open_run + 1,
                    close_run: m.close_run,
                }
            } else {
                CodespanMachine {
                    state: CodespanState::InsideCodespan,
                    open_run: m.open_run,
                    close_run: m.close_run,
                }
            }
        },
        CodespanState::InsideCodespan => {
            if c == '`' {
                CodespanMachine {
                    state: CodespanState::ExitingCodespan,
                    open_run: m.open_run,
                    close_run: m.close_run + 1,
                }
            } else {
                m
            }
        },
        CodespanState::ExitingCodespan => {
            if c == '`' {
                CodespanMachine {
                    state: CodespanState::ExitingCodespan,
                    open_run: m.open_run,
                    close_run: m.close_run + 1,
                }
            } else if m.close_run == m.open_run {
                CodespanMachine { state: CodespanState::InsideText, open_run: 0, close_run: 0 }
            } else {
                CodespanMachine {
                    state: CodespanState::InsideCodespan,
                    open_run: m.open_run,
                    close_run: 0,
                }
            }
        },
    }
}

/// The executable automaton; its counters mirror the model's.
pub struct CodespanTracker {
    pub state: CodespanState,
    pub open_run: usize,
    pub close_run: usize,
}

impl View for CodespanTracker {
    type V = CodespanMachine;

    open spec fn view(&self) -> CodespanMachine {
        CodespanMachine {
            state: self.state,
            open_run: self.open_run as int,
            close_run: self.close_run as int,
        }
    }
}

impl CodespanTracker {
    pub fn new() -> (t: CodespanTracker)
        ensures
            t@ == initial_machine(),
    {
        CodespanTracker { state: CodespanState::InsideText, open_run: 0, close_run: 0 }
    }

    /// Consume one character.
    pub fn advance(&mut self, c: char)
        requires
            old(self).open_run < usize::MAX,
            old(self).close_run < usize::MAX,
        ensures
            final(self)@ == machine_step(old(self)@, c),
    {
        match self.state {
            CodespanState::InsideText => {
                if c == '`' {
                    self.state = CodespanState::EnteringCodespan;
                    self.open_run = 1;
                }
            },
            CodespanState::EnteringCodespan => {
                if c == '`' {
                    self.open_run = self.open_run + 1;
                } else {
                    self.state = CodespanState::InsideCodespan;
                }
            },
            CodespanState::InsideCodespan => {
                if c == '`' {
                    self.state = CodespanState::ExitingCodespan;
                    self.close_run = self.close_run + 1;
                }
            },
            CodespanState::ExitingCodespan => {
                if c == '`' {
                    self.close_run = self.close_run + 1;
                } else if self.close_run == self.open_run {
                    self.state = CodespanState::InsideText;
                    self.open_run = 0;
                    self.close_run = 0;
                } else {
                    self.state = CodespanState::InsideCodespan;
                    self.close_run = 0;
                }
            },
        }
    }
}

} // verus!
