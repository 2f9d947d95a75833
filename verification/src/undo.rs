use vstd::prelude::*;
use vstd::std_specs::cmp::PartialEqSpec;

verus! {

/// A log of actions that can be undone and redone. The first `actions_performed` actions have
/// been performed; the rest are the ones that were undone and can still be redone.
#[derive(Clone)]
pub struct Undo<T> {
    pub actions: Vec<T>,
    pub actions_performed: usize,
}

/// The log as a mathematical value: the recorded actions and how many of them are performed.
pub struct UndoView<T> {
    pub actions: Seq<T>,
    pub performed: int,
}

/// The log after recording `action`: it becomes the next performed action. The actions that had
/// been undone are kept if the new action is the one that would have been redone next, and
/// discarded otherwise.
pub open spec fn spec_record<T: PartialEq>(u: UndoView<T>, action: T) -> UndoView<T> {
    UndoView {
        actions: if u.performed >= u.actions.len() {
            u.actions.push(action)
        } else if u.actions[u.performed].eq_spec(&action) {
            u.actions.update(u.performed, action)
        } else {
            u.actions.take(u.performed).push(action)
        },
        performed: u.performed + 1,
    }
}

/// `v` is a log after recording `action` in `u`, whatever `==` says of the action that would have
/// been redone next: the action becomes the next performed one, and the actions that had been
/// undone are either kept or discarded.
pub open spec fn recorded<T>(u: UndoView<T>, action: T, v: UndoView<T>) -> bool {
    &&& v.performed == u.performed + 1
    &&& (v.actions == u.actions.take(u.performed).push(action) || (u.performed < u.actions.len()
        && v.actions == u.actions.update(u.performed, action)))
}

/// The log after undoing: one action fewer is performed, if any was.
pub open spec fn spec_undo<T>(u: UndoView<T>) -> UndoView<T> {
    UndoView { actions: u.actions, performed: if u.performed > 0 { u.performed - 1 } else { 0 } }
}

/// The action handed back by undoing: the most recently performed one, if any.
pub open spec fn spec_undo_result<T>(u: UndoView<T>) -> Option<T> {
    if u.performed > 0 { Some(u.actions[u.performed - 1]) } else { None }
}

/// The log after redoing: one action more is performed, if one was undone before.
pub open spec fn spec_redo<T>(u: UndoView<T>) -> UndoView<T> {
    UndoView {
        actions: u.actions,
        performed: if u.performed < u.actions.len() { u.performed + 1 } else { u.performed },
    }
}

/// The action handed back by redoing: the most recently undone one, if any.
pub open spec fn spec_redo_result<T>(u: UndoView<T>) -> Option<T> {
    if u.performed < u.actions.len() { Some(u.actions[u.performed]) } else { None }
}

/// `eq_spec` is the equality of values, as for integers and moves.
pub open spec fn eq_is_equality<T: PartialEq>() -> bool {
    &&& T::obeys_eq_spec()
    &&& forall|x: T, y: T| #[trigger] x.eq_spec(&y) <==> (x == y)
}

impl<T> Undo<T> {
    pub open spec fn view(&self) -> UndoView<T> {
        UndoView { actions: self.actions@, performed: self.actions_performed as int }
    }

    /// No more actions are performed than have been recorded.
    pub open spec fn wf(&self) -> bool {
        self.actions_performed <= self.actions.len()
    }
}

impl<T: PartialEq> Undo<T> {
    pub fn new() -> (r: Self)
        ensures
            r.wf(),
            r.actions@ == Seq::<T>::empty(),
            r.actions_performed == 0,
    {
        Undo { actions: Vec::new(), actions_performed: 0 }
    }

    /// When an action is performed, record the action in a log so it can later be undone.
    pub fn record(&mut self, action: T)
        requires
            old(self).wf(),
            old(self).actions_performed < usize::MAX,
        ensures
            final(self).wf(),
            recorded(old(self).view(), action, final(self).view()),
            T::obeys_eq_spec() ==> final(self).view() == spec_record(old(self).view(), action),
    {
        let p = self.actions_performed;
        if self.actions.len() <= p {
            self.actions.push(action);
        } else {
            if self.actions[p] != action {
                self.actions.truncate(p + 1);
            }
            self.actions.set(p, action);
        }
        self.actions_performed = p + 1;
        proof {
            let ghost o = old(self).view();
            if o.performed < o.actions.len() {
                if self.actions@.len() == o.performed + 1 {
                    assert(self.actions@ =~= o.actions.take(o.performed).push(action));
                }
                if T::obeys_eq_spec() && !o.actions[o.performed].eq_spec(&action) {
                    assert(self.actions@ =~= o.actions.take(o.performed).push(action));
                }
            } else {
                assert(o.actions.take(o.performed) =~= o.actions);
            }
        }
    }

    /// Get the most recent action from the log.
    pub fn undo(&mut self) -> (r: Option<&T>)
        requires
            old(self).wf(),
        ensures
            final(self).wf(),
            final(self).view() == spec_undo(old(self).view()),
            match r {
                Some(a) => spec_undo_result(old(self).view()) == Some(*a),
                None => spec_undo_result(old(self).view()) is None,
            },
    {
        if self.actions_performed > 0 {
            self.actions_performed = self.actions_performed - 1;
            Some(&self.actions[self.actions_performed])
        } else {
            None
        }
    }

    /// Return the most recently undone action.
    pub fn redo(&mut self) -> (r: Option<&T>)
        requires
            old(self).wf(),
        ensures
            final(self).wf(),
            final(self).view() == spec_redo(old(self).view()),
            match r {
                Some(a) => spec_redo_result(old(self).view()) == Some(*a),
                None => spec_redo_result(old(self).view()) is None,
            },
    {
        let p = self.actions_performed;
        if p < self.actions.len() {
            self.actions_performed = p + 1;
            Some(&self.actions[p])
        } else {
            None
        }
    }
}

/// Undoing right after recording an action hands back that action and restores the number of
/// performed actions; redoing then hands it back again and restores the log as recorded.
pub proof fn lemma_undo_after_record<T>(u: UndoView<T>, x: T, v: UndoView<T>)
    requires
        0 <= u.performed <= u.actions.len(),
        recorded(u, x, v),
    ensures
        spec_undo_result(v) == Some(x),
        spec_undo(v).performed == u.performed,
        spec_redo_result(spec_undo(v)) == Some(x),
        spec_redo(spec_undo(v)) == v,
{
}

/// The log that `spec_record` describes is one after recording the action.
pub proof fn lemma_spec_record_recorded<T: PartialEq>(u: UndoView<T>, x: T)
    requires
        0 <= u.performed <= u.actions.len(),
    ensures
        recorded(u, x, spec_record(u, x)),
{
    if u.performed >= u.actions.len() {
        assert(u.actions.take(u.performed) =~= u.actions);
    }
}

/// Redoing right after undoing hands back the action that was undone, and restores the log.
pub proof fn lemma_redo_after_undo<T>(u: UndoView<T>)
    requires
        0 < u.performed <= u.actions.len(),
    ensures
        spec_redo_result(spec_undo(u)) == spec_undo_result(u),
        spec_redo(spec_undo(u)) == u,
{
}

/// Recording, after an undo, the very action that was undone keeps the log as it was, so the
/// actions that were undone before can still be redone.
pub proof fn lemma_record_undone_action_keeps_log<T: PartialEq>(u: UndoView<T>)
    requires
        0 < u.performed <= u.actions.len(),
        eq_is_equality::<T>(),
    ensures
        spec_record(spec_undo(u), u.actions[u.performed - 1]) == u,
{
    let a = u.actions[u.performed - 1];
    assert(a.eq_spec(&a));
    assert(u.actions.update(u.performed - 1, a) =~= u.actions);
}

/// Recording, after an undo, an action different from the one that was undone discards all
/// actions that could have been redone.
pub proof fn lemma_record_other_action_truncates<T: PartialEq>(u: UndoView<T>, x: T)
    requires
        0 < u.performed <= u.actions.len(),
        eq_is_equality::<T>(),
        x != u.actions[u.performed - 1],
    ensures
        spec_record(spec_undo(u), x).actions == u.actions.take(u.performed - 1).push(x),
        spec_record(spec_undo(u), x).performed == u.performed,
{
    assert(!u.actions[u.performed - 1].eq_spec(&x));
}

} // verus!
