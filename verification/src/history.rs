//! Undo / redo history with a bounded number of undoable steps.
use vstd::prelude::*;

verus! {

/// Default number of undoable steps kept by `HistoryStack::new`.
pub const UNDO_HISTORY_LIMIT: usize = 100;

/// A reversible edit applied to a world of type `W`. Implementors say, by
/// `applies` and `reverts`, how the edit changes the world.
pub trait HistoryCommand<W> {
    /// Whether performing the edit may turn the world `before` into `after`.
    spec fn applies(&self, before: W, after: W) -> bool;

    /// Whether undoing the edit may turn the world `before` into `after`.
    spec fn reverts(&self, before: W, after: W) -> bool;

    /// Short human readable description of the edit.
    fn description(&self) -> &str;

    /// Performs (or re-performs) the edit on `world`.
    fn apply(&mut self, world: &mut W)
        ensures
            old(self).applies(*old(world), *final(world));

    /// Undoes the edit on `world`.
    fn revert(&mut self, world: &mut W)
        ensures
            old(self).reverts(*old(world), *final(world));
}

/// Two stacks of commands: those that can be undone (`done`, most recent
/// last) and those that can be redone (`undone`, most recently undone last).
pub struct HistoryStack<C> {
    done: Vec<C>,
    undone: Vec<C>,
    max_depth: usize,
}

/// What `done` becomes after `cmd` is recorded with the given depth limit:
/// the command is appended and, when the limit is exceeded, the oldest entry
/// is dropped.
pub open spec fn pushed_bounded<C>(done: Seq<C>, cmd: C, max_depth: nat) -> Seq<C> {
    if done.len() + 1 > max_depth {
        done.push(cmd).drop_first()
    } else {
        done.push(cmd)
    }
}

impl<C> HistoryStack<C> {
    /// Commands that can be undone, oldest first.
    pub closed spec fn done_view(&self) -> Seq<C> {
        self.done@
    }

    /// Commands that can be redone; the next one to redo is last.
    pub closed spec fn undone_view(&self) -> Seq<C> {
        self.undone@
    }

    /// Largest number of undoable commands kept.
    pub closed spec fn depth_limit(&self) -> nat {
        self.max_depth as nat
    }

    /// The depth limit is positive.
    pub open spec fn wf(&self) -> bool {
        self.depth_limit() >= 1
    }

    /// An empty history holding at most `UNDO_HISTORY_LIMIT` steps.
    pub fn new() -> (h: Self)
        ensures
            h.wf(),
            h.done_view() == Seq::<C>::empty(),
            h.undone_view() == Seq::<C>::empty(),
            h.depth_limit() == UNDO_HISTORY_LIMIT as nat,
    {
        Self::with_max_depth(UNDO_HISTORY_LIMIT)
    }

    /// An empty history holding at most `max(max_depth, 1)` steps.
    pub fn with_max_depth(max_depth: usize) -> (h: Self)
        ensures
            h.wf(),
            h.done_view() == Seq::<C>::empty(),
            h.undone_view() == Seq::<C>::empty(),
            h.depth_limit() == if max_depth >= 1 { max_depth as nat } else { 1 },
    {
        HistoryStack {
            done: Vec::new(),
            undone: Vec::new(),
            max_depth: if max_depth >= 1 { max_depth } else { 1 },
        }
    }

    /// Records a newly performed command: it becomes undoable (dropping the
    /// oldest entry beyond the limit) and the redo stack is emptied.
    pub fn push(&mut self, command: C)
        requires
            old(self).wf(),
        ensures
            final(self).wf(),
            final(self).done_view() == pushed_bounded(
                old(self).done_view(),
                command,
                old(self).depth_limit(),
            ),
            final(self).undone_view() == Seq::<C>::empty(),
            final(self).depth_limit() == old(self).depth_limit(),
            old(self).done_view().len() < old(self).depth_limit() ==> final(self).done_view()
                == old(self).done_view().push(command),
            old(self).done_view().len() >= old(self).depth_limit() ==> final(self).done_view()
                == old(self).done_view().drop_first().push(command),
    {
        proof {
            law_push_drops_oldest(old(self).done_view(), command, old(self).depth_limit());
        }
        self.push_done(command);
        self.undone.clear();
    }

    /// Removes and returns the most recent undoable command.
    pub fn pop_done(&mut self) -> (c: Option<C>)
        requires
            old(self).wf(),
        ensures
            final(self).wf(),
            old(self).done_view().len() == 0 ==> c is None && final(self).done_view()
                == old(self).done_view(),
            old(self).done_view().len() > 0 ==> c == Some(old(self).done_view().last())
                && final(self).done_view() == old(self).done_view().drop_last(),
            final(self).undone_view() == old(self).undone_view(),
            final(self).depth_limit() == old(self).depth_limit(),
    {
        self.done.pop()
    }

    /// Removes and returns the most recent redoable command.
    pub fn pop_undone(&mut self) -> (c: Option<C>)
        requires
            old(self).wf(),
        ensures
            final(self).wf(),
            old(self).undone_view().len() == 0 ==> c is None && final(self).undone_view()
                == old(self).undone_view(),
            old(self).undone_view().len() > 0 ==> c == Some(old(self).undone_view().last())
                && final(self).undone_view() == old(self).undone_view().drop_last(),
            final(self).done_view() == old(self).done_view(),
            final(self).depth_limit() == old(self).depth_limit(),
    {
        self.undone.pop()
    }

    /// Makes `command` undoable without touching the redo stack.
    pub fn push_done(&mut self, command: C)
        requires
            old(self).wf(),
        ensures
            final(self).wf(),
            final(self).done_view() == pushed_bounded(
                old(self).done_view(),
                command,
                old(self).depth_limit(),
            ),
            final(self).undone_view() == old(self).undone_view(),
            final(self).depth_limit() == old(self).depth_limit(),
            old(self).done_view().len() < old(self).depth_limit() ==> final(self).done_view()
                == old(self).done_view().push(command),
            old(self).done_view().len() >= old(self).depth_limit() ==> final(self).done_view()
                == old(self).done_view().drop_first().push(command),
    {
        proof {
            law_push_drops_oldest(old(self).done_view(), command, old(self).depth_limit());
        }
        self.done.push(command);
        if self.done.len() > self.max_depth {
            self.done.remove(0);
        }
    }

    /// Makes `command` the next one to redo.
    pub fn push_undone(&mut self, command: C)
        requires
            old(self).wf(),
        ensures
            final(self).wf(),
            final(self).undone_view() == old(self).undone_view().push(command),
            final(self).done_view() == old(self).done_view(),
            final(self).depth_limit() == old(self).depth_limit(),
    {
        self.undone.push(command);
    }

    /// Reverts the most recent undoable command on `world` and moves it to
    /// the redo stack; `false` when there is nothing to undo.
    pub fn undo<W>(&mut self, world: &mut W) -> (r: bool)
        where C: HistoryCommand<W>,
        requires
            old(self).wf(),
        ensures
            final(self).wf(),
            r == (old(self).done_view().len() > 0),
            old(self).done_view().len() > 0 ==> old(self).done_view().last().reverts(*old(world), *final(world)),
            old(self).done_view().len() == 0 ==> *final(world) == *old(world),
            undo_step(
                old(self).done_view(),
                old(self).undone_view(),
                final(self).done_view(),
                final(self).undone_view(),
            ),
            final(self).depth_limit() == old(self).depth_limit(),
    {
        match self.done.pop() {
            Some(mut command) => {
                command.revert(world);
                let ghost u0 = self.undone@;
                self.undone.push(command);
                assert(self.undone@.drop_last() =~= u0);
                true
            },
            None => false,
        }
    }

    /// Re-applies the most recently undone command on `world` and moves it
    /// back to the undo stack; `false` when there is nothing to redo.
    pub fn redo<W>(&mut self, world: &mut W) -> (r: bool)
        where C: HistoryCommand<W>,
        requires
            old(self).wf(),
        ensures
            final(self).wf(),
            r == (old(self).undone_view().len() > 0),
            old(self).undone_view().len() > 0 ==> old(self).undone_view().last().applies(*old(world), *final(world)),
            old(self).undone_view().len() == 0 ==> *final(world) == *old(world),
            undo_step(
                old(self).undone_view(),
                old(self).done_view(),
                final(self).undone_view(),
                final(self).done_view(),
            ),
            final(self).depth_limit() == old(self).depth_limit(),
    {
        match self.undone.pop() {
            Some(mut command) => {
                command.apply(world);
                let ghost d0 = self.done@;
                self.done.push(command);
                assert(self.done@.drop_last() =~= d0);
                true
            },
            None => false,
        }
    }

    /// Whether there is something to undo.
    pub fn can_undo(&self) -> (r: bool)
        ensures
            r == (self.done_view().len() > 0),
    {
        !self.done.is_empty()
    }

    /// Whether there is something to redo.
    pub fn can_redo(&self) -> (r: bool)
        ensures
            r == (self.undone_view().len() > 0),
    {
        !self.undone.is_empty()
    }

    /// Number of undoable commands.
    pub fn done_len(&self) -> (n: usize)
        ensures
            n == self.done_view().len(),
    {
        self.done.len()
    }

    /// Number of redoable commands.
    pub fn undone_len(&self) -> (n: usize)
        ensures
            n == self.undone_view().len(),
    {
        self.undone.len()
    }

    /// Forgets every command.
    pub fn clear(&mut self)
        requires
            old(self).wf(),
        ensures
            final(self).wf(),
            final(self).done_view() == Seq::<C>::empty(),
            final(self).undone_view() == Seq::<C>::empty(),
            final(self).depth_limit() == old(self).depth_limit(),
    {
        self.done.clear();
        self.undone.clear();
    }
}

/// One undo: when `done` is non-empty its last command (possibly changed by
/// reverting it) moves onto the top of `undone`; otherwise nothing changes.
pub open spec fn undo_step<C>(done: Seq<C>, undone: Seq<C>, done2: Seq<C>, undone2: Seq<C>) -> bool {
    if done.len() > 0 {
        &&& done2 == done.drop_last()
        &&& undone2.len() == undone.len() + 1
        &&& undone2.drop_last() == undone
    } else {
        done2 == done && undone2 == undone
    }
}

/// Recording a command never lets the undoable steps exceed the depth limit
/// when they were within it, and the recorded command is the next to undo.
pub proof fn law_push_respects_limit<C>(done: Seq<C>, cmd: C, max_depth: nat)
    requires
        max_depth >= 1,
        done.len() <= max_depth,
    ensures
        pushed_bounded(done, cmd, max_depth).len() <= max_depth,
        pushed_bounded(done, cmd, max_depth).len() > 0,
        pushed_bounded(done, cmd, max_depth).last() == cmd,
{
}

/// Recording a command appends it; when the history is already at its
/// depth limit, exactly the oldest entry is dropped and every other entry
/// stays, in order.
pub proof fn law_push_drops_oldest<C>(done: Seq<C>, cmd: C, max_depth: nat)
    requires
        max_depth >= 1,
    ensures
        done.len() < max_depth ==> pushed_bounded(done, cmd, max_depth) == done.push(cmd),
        done.len() >= max_depth ==> pushed_bounded(done, cmd, max_depth) == done.drop_first().push(cmd),
{
    if done.len() >= max_depth {
        assert(done.push(cmd).drop_first() =~= done.drop_first().push(cmd));
    }
}

/// Undoing and then redoing restores the redo stack and every undoable step
/// below the one that was undone and redone.
pub proof fn law_undo_then_redo<C>(
    done: Seq<C>,
    undone: Seq<C>,
    done1: Seq<C>,
    undone1: Seq<C>,
    done2: Seq<C>,
    undone2: Seq<C>,
)
    requires
        done.len() > 0,
        undo_step(done, undone, done1, undone1),
        undo_step(undone1, done1, undone2, done2),
    ensures
        undone2 == undone,
        done2.len() == done.len(),
        done2.drop_last() == done.drop_last(),
{
    assert(undone1.len() > 0);
}

/// Redoing and then undoing restores the undo stack and every redoable step
/// below the one that was redone and undone.
pub proof fn law_redo_then_undo<C>(
    done: Seq<C>,
    undone: Seq<C>,
    done1: Seq<C>,
    undone1: Seq<C>,
    done2: Seq<C>,
    undone2: Seq<C>,
)
    requires
        undone.len() > 0,
        undo_step(undone, done, undone1, done1),
        undo_step(done1, undone1, done2, undone2),
    ensures
        done2 == done,
        undone2.len() == undone.len(),
        undone2.drop_last() == undone.drop_last(),
{
    assert(done1.len() > 0);
}

/// After recording a command, undo moves exactly that step to the redo
/// stack, which then holds one command.
pub proof fn law_push_then_undo<C>(
    done: Seq<C>,
    cmd: C,
    max_depth: nat,
    done2: Seq<C>,
    undone2: Seq<C>,
)
    requires
        max_depth >= 1,
        undo_step(pushed_bounded(done, cmd, max_depth), Seq::<C>::empty(), done2, undone2),
    ensures
        undone2.len() == 1,
        done2 == pushed_bounded(done, cmd, max_depth).drop_last(),
{
}

} // verus!
