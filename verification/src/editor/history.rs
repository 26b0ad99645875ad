//! Undo / redo history.
//!
//! Encapsulates the two stacks of inverse-[`EditAction`]s so the
//! "recording a new edit clears redo" invariant lives inside
//! [`UndoHistory::record`] and can't be forgotten by callers.

use vstd::prelude::*;

use super::edit::EditAction;

verus! {

pub struct UndoHistory {
    undo: Vec<EditAction>,
    redo: Vec<EditAction>,
}

impl Default for UndoHistory {
    fn default() -> (r: Self)
        ensures
            r.undos() == Seq::<EditAction>::empty(),
            r.redos() == Seq::<EditAction>::empty(),
    {
        UndoHistory { undo: Vec::new(), redo: Vec::new() }
    }
}

impl UndoHistory {
    /// The undo stack, oldest first.
    pub closed spec fn undos(&self) -> Seq<EditAction> {
        self.undo@
    }

    /// The redo stack, oldest first.
    pub closed spec fn redos(&self) -> Seq<EditAction> {
        self.redo@
    }

    /// A new edit was applied: push the inverse onto undo, clear redo.
    pub fn record(&mut self, inverse: EditAction)
        ensures
            final(self).undos() == old(self).undos().push(inverse),
            final(self).redos() == Seq::<EditAction>::empty(),
    {
        self.undo.push(inverse);
        self.redo.clear();
    }

    pub fn pop_undo(&mut self) -> (r: Option<EditAction>)
        ensures
            final(self).redos() == old(self).redos(),
            old(self).undos().len() == 0 ==> r is None && final(self).undos() == old(self).undos(),
            old(self).undos().len() > 0 ==> r == Some(old(self).undos().last())
                && final(self).undos() == old(self).undos().drop_last(),
    {
        self.undo.pop()
    }

    pub fn pop_redo(&mut self) -> (r: Option<EditAction>)
        ensures
            final(self).undos() == old(self).undos(),
            old(self).redos().len() == 0 ==> r is None && final(self).redos() == old(self).redos(),
            old(self).redos().len() > 0 ==> r == Some(old(self).redos().last())
                && final(self).redos() == old(self).redos().drop_last(),
    {
        self.redo.pop()
    }

    pub fn push_undo(&mut self, e: EditAction)
        ensures
            final(self).undos() == old(self).undos().push(e),
            final(self).redos() == old(self).redos(),
    {
        self.undo.push(e);
    }

    pub fn push_redo(&mut self, e: EditAction)
        ensures
            final(self).redos() == old(self).redos().push(e),
            final(self).undos() == old(self).undos(),
    {
        self.redo.push(e);
    }

    pub fn clear(&mut self)
        ensures
            final(self).undos() == Seq::<EditAction>::empty(),
            final(self).redos() == Seq::<EditAction>::empty(),
    {
        self.undo.clear();
        self.redo.clear();
    }

    pub fn can_undo(&self) -> (r: bool)
        ensures
            r == (self.undos().len() > 0),
    {
        self.undo.len() > 0
    }

    pub fn can_redo(&self) -> (r: bool)
        ensures
            r == (self.redos().len() > 0),
    {
        self.redo.len() > 0
    }

    pub fn undo_len(&self) -> (r: usize)
        ensures
            r == self.undos().len(),
    {
        self.undo.len()
    }

    pub fn redo_len(&self) -> (r: usize)
        ensures
            r == self.redos().len(),
    {
        self.redo.len()
    }
}

} // verus!
