//! Undo/redo stacks with a three-state protocol.
//!
//! A fresh edit is pushed while the history is idle and lands on the undo
//! stack, invalidating the redo branch. Rolling an edit back is a two-step
//! protocol: `start_undo` (or `start_redo`) pops the command to roll back and
//! marks a rollback as in flight; the caller applies the command's inverse to
//! the document, and that application pushes the inverse back here, which —
//! because a rollback is in flight — lands on the opposite stack and returns
//! the history to idle.

use vstd::prelude::*;

verus! {

/// The kind of rollback currently in flight.
#[derive(Clone, Copy, PartialEq, Eq, Structural, Debug)]
pub enum State {
    Undoing,
    Redoing,
}

/// The mathematical content of a history: both stacks, oldest command first,
/// and the in-flight rollback state.
pub ghost struct HistoryView<C> {
    pub undo: Seq<C>,
    pub redo: Seq<C>,
    pub state: Option<State>,
}

impl<C> HistoryView<C> {
    /// No rollback is in flight.
    pub open spec fn is_idle(self) -> bool {
        self.state is None
    }

    /// The history after a command is recorded. While idle, the command is a
    /// fresh edit: it goes on the undo stack and the redo branch is
    /// discarded. While a rollback is in flight, the command is the inverse
    /// of the step being rolled back: it goes on the opposite stack and the
    /// history returns to idle.
    pub open spec fn pushed(self, com: C) -> HistoryView<C> {
        match self.state {
            None => HistoryView { undo: self.undo.push(com), redo: Seq::empty(), state: None },
            Some(State::Undoing) => HistoryView {
                undo: self.undo,
                redo: self.redo.push(com),
                state: None,
            },
            Some(State::Redoing) => HistoryView {
                undo: self.undo.push(com),
                redo: self.redo,
                state: None,
            },
        }
    }

    /// The history and the popped command after an undo is started: on a
    /// non-empty undo stack the most recent edit is handed out and an undo is
    /// in flight; on an empty one nothing changes.
    pub open spec fn undo_started(self) -> (HistoryView<C>, Option<C>) {
        if self.undo.len() == 0 {
            (self, None)
        } else {
            (
                HistoryView {
                    undo: self.undo.drop_last(),
                    redo: self.redo,
                    state: Some(State::Undoing),
                },
                Some(self.undo.last()),
            )
        }
    }

    /// The history and the popped command after a redo is started; symmetric
    /// to `undo_started`.
    pub open spec fn redo_started(self) -> (HistoryView<C>, Option<C>) {
        if self.redo.len() == 0 {
            (self, None)
        } else {
            (
                HistoryView {
                    undo: self.undo,
                    redo: self.redo.drop_last(),
                    state: Some(State::Redoing),
                },
                Some(self.redo.last()),
            )
        }
    }
}

/// An edit log: two stacks of commands and the in-flight rollback state.
#[derive(Debug)]
pub struct History<C> {
    undo_stack: Vec<C>,
    redo_stack: Vec<C>,
    state: Option<State>,
}

impl<C> View for History<C> {
    type V = HistoryView<C>;

    closed spec fn view(&self) -> HistoryView<C> {
        HistoryView { undo: self.undo_stack@, redo: self.redo_stack@, state: self.state }
    }
}

impl<C> History<C> {
    /// An empty, idle history.
    pub fn new() -> (r: Self)
        ensures
            r@ == (HistoryView::<C> { undo: Seq::empty(), redo: Seq::empty(), state: None }),
    {
        History { undo_stack: Vec::new(), redo_stack: Vec::new(), state: None }
    }

    /// Records a command; see [`HistoryView::pushed`].
    pub fn push(&mut self, com: C)
        ensures
            final(self)@ == old(self)@.pushed(com),
    {
        match self.state {
            None => {
                self.undo_stack.push(com);
                self.redo_stack.clear();
            }
            Some(State::Undoing) => {
                self.redo_stack.push(com);
                self.state = None;
            }
            Some(State::Redoing) => {
                self.undo_stack.push(com);
                self.state = None;
            }
        }
    }

    /// Pops the most recent edit to roll back; see [`HistoryView::undo_started`].
    /// The caller must apply the popped command's inverse — and thereby `push`
    /// exactly once — before starting another rollback.
    pub fn start_undo(&mut self) -> (r: Option<C>)
        requires
            old(self)@.is_idle(),
        ensures
            (final(self)@, r) == old(self)@.undo_started(),
    {
        let com = self.undo_stack.pop();
        if com.is_some() {
            self.state = Some(State::Undoing);
        }
        com
    }

    /// Pops the most recent undone edit to re-apply; see
    /// [`HistoryView::redo_started`].
    pub fn start_redo(&mut self) -> (r: Option<C>)
        requires
            old(self)@.is_idle(),
        ensures
            (final(self)@, r) == old(self)@.redo_started(),
    {
        let com = self.redo_stack.pop();
        if com.is_some() {
            self.state = Some(State::Redoing);
        }
        com
    }

    /// The commands on the undo stack, oldest first.
    pub fn undo_commands(&self) -> (r: &Vec<C>)
        ensures
            r@ == self@.undo,
    {
        &self.undo_stack
    }

    /// The commands on the redo stack, oldest first.
    pub fn redo_commands(&self) -> (r: &Vec<C>)
        ensures
            r@ == self@.redo,
    {
        &self.redo_stack
    }

    /// Whether no rollback is in flight.
    pub fn idle(&self) -> (r: bool)
        ensures
            r == self@.is_idle(),
    {
        self.state.is_none()
    }
}

impl<C> Default for History<C> {
    /// An empty, idle history.
    fn default() -> (r: Self)
        ensures
            r@ == (HistoryView::<C> { undo: Seq::empty(), redo: Seq::empty(), state: None }),
    {
        History::new()
    }
}

/// Stack discipline: a fresh edit pushed while idle clears the redo branch
/// and stays idle; starting an undo afterwards hands that edit back, and
/// pushing its inverse returns the history to idle with the inverse on top of
/// the redo stack and the undo stack as before the edit.
pub proof fn lemma_stack_discipline<C>(h: HistoryView<C>, c: C, inv: C)
    requires
        h.is_idle(),
    ensures
        h.pushed(c).redo == Seq::<C>::empty(),
        h.pushed(c).is_idle(),
        ({
            let h1 = h.pushed(c);
            let (h2, popped) = h1.undo_started();
            &&& popped == Some(c)
            &&& h2.undo == h.undo
            &&& h2.pushed(inv).is_idle()
            &&& h2.pushed(inv).redo == Seq::<C>::empty().push(inv)
            &&& h2.pushed(inv).redo.last() == inv
            &&& h2.pushed(inv).undo == h.undo
        }),
{
    let h1 = h.pushed(c);
    assert(h1.undo.len() > 0);
    assert(h1.undo.drop_last() =~= h.undo);
}

} // verus!
