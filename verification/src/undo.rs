use vstd::prelude::*;

use crate::entity::EntityId;

verus! {

/// Depth of the undo and the redo history.
pub const UNDO_MAX: usize = 32;

/// One step of history: the world as it was, and what was selected.
pub struct UndoEntry<S> {
    pub snapshot: S,
    pub selected: Vec<EntityId>,
}

/// `s` with `e` appended, dropping the oldest entry first when `s` is full.
pub open spec fn bounded_push<E>(s: Seq<E>, e: E) -> Seq<E> {
    if s.len() >= UNDO_MAX {
        s.drop_first().push(e)
    } else {
        s.push(e)
    }
}

/// Bounded undo and redo histories.
pub struct UndoStack<S> {
    undo: Vec<UndoEntry<S>>,
    redo: Vec<UndoEntry<S>>,
}

/// The two histories, oldest entry first.
pub struct UndoStackView<S> {
    pub undo: Seq<UndoEntry<S>>,
    pub redo: Seq<UndoEntry<S>>,
}

impl<S> UndoStackView<S> {
    /// Both histories hold at most `UNDO_MAX` entries.
    pub open spec fn bounded(self) -> bool {
        self.undo.len() <= UNDO_MAX && self.redo.len() <= UNDO_MAX
    }

    /// Recording a new state: forget the redo history and remember `e`.
    pub open spec fn push(self, e: UndoEntry<S>) -> UndoStackView<S> {
        UndoStackView { undo: bounded_push(self.undo, e), redo: Seq::empty() }
    }

    pub open spec fn push_undo_only(self, e: UndoEntry<S>) -> UndoStackView<S> {
        UndoStackView { undo: bounded_push(self.undo, e), redo: self.redo }
    }

    pub open spec fn push_redo(self, e: UndoEntry<S>) -> UndoStackView<S> {
        UndoStackView { undo: self.undo, redo: bounded_push(self.redo, e) }
    }

    pub open spec fn pop(self) -> (UndoStackView<S>, Option<UndoEntry<S>>) {
        if self.undo.len() == 0 {
            (self, None)
        } else {
            (UndoStackView { undo: self.undo.drop_last(), redo: self.redo }, Some(self.undo.last()))
        }
    }

    pub open spec fn pop_redo(self) -> (UndoStackView<S>, Option<UndoEntry<S>>) {
        if self.redo.len() == 0 {
            (self, None)
        } else {
            (UndoStackView { undo: self.undo, redo: self.redo.drop_last() }, Some(self.redo.last()))
        }
    }

    /// The editor's undo: take the latest recorded state and file the current
    /// one under redo. Returns the state to go back to.
    pub open spec fn undo_step(self, current: UndoEntry<S>) -> (UndoStackView<S>, Option<UndoEntry<S>>) {
        let (st, e) = self.pop();
        match e {
            Some(entry) => (st.push_redo(current), Some(entry)),
            None => (self, None),
        }
    }

    /// The editor's redo: take the latest undone state and file the current one
    /// under undo, keeping the rest of the redo history.
    pub open spec fn redo_step(self, current: UndoEntry<S>) -> (UndoStackView<S>, Option<UndoEntry<S>>) {
        let (st, e) = self.pop_redo();
        match e {
            Some(entry) => (st.push_undo_only(current), Some(entry)),
            None => (self, None),
        }
    }
}

impl<S> View for UndoStack<S> {
    type V = UndoStackView<S>;

    closed spec fn view(&self) -> UndoStackView<S> {
        UndoStackView { undo: self.undo@, redo: self.redo@ }
    }
}

/// Appends with eviction of the oldest entry when full.
fn bounded_push_vec<S>(v: &mut Vec<UndoEntry<S>>, e: UndoEntry<S>)
    ensures
        final(v)@ == bounded_push(old(v)@, e),
{
    if v.len() >= UNDO_MAX {
        v.remove(0);
    }
    v.push(e);
    proof {
        if old(v)@.len() >= UNDO_MAX {
            assert(old(v)@.remove(0) =~= old(v)@.drop_first());
        }
    }
}

impl<S> UndoStack<S> {
    pub fn new() -> (s: Self)
        ensures
            s@.undo.len() == 0,
            s@.redo.len() == 0,
    {
        UndoStack { undo: Vec::new(), redo: Vec::new() }
    }

    /// Records a state before an edit: clears the redo history and keeps at most
    /// `UNDO_MAX` undo entries, dropping the oldest.
    pub fn push(&mut self, snapshot: S, selected: Vec<EntityId>)
        ensures
            final(self)@ == old(self)@.push(UndoEntry { snapshot, selected }),
    {
        self.redo.clear();
        bounded_push_vec(&mut self.undo, UndoEntry { snapshot, selected });
    }

    pub fn pop(&mut self) -> (r: Option<UndoEntry<S>>)
        ensures
            (final(self)@, r) == old(self)@.pop(),
    {
        self.undo.pop()
    }

    pub fn push_redo(&mut self, snapshot: S, selected: Vec<EntityId>)
        ensures
            final(self)@ == old(self)@.push_redo(UndoEntry { snapshot, selected }),
    {
        bounded_push_vec(&mut self.redo, UndoEntry { snapshot, selected });
    }

    pub fn pop_redo(&mut self) -> (r: Option<UndoEntry<S>>)
        ensures
            (final(self)@, r) == old(self)@.pop_redo(),
    {
        self.redo.pop()
    }

    /// Records a state into the undo history without touching the redo history
    /// (used while redoing).
    pub fn push_undo_only(&mut self, snapshot: S, selected: Vec<EntityId>)
        ensures
            final(self)@ == old(self)@.push_undo_only(UndoEntry { snapshot, selected }),
    {
        bounded_push_vec(&mut self.undo, UndoEntry { snapshot, selected });
    }

    /// The editor's undo: when there is a recorded state, files the current
    /// state (`snapshot`, `selected`) under redo and returns the recorded one to
    /// go back to; otherwise changes nothing.
    pub fn undo_step(&mut self, snapshot: S, selected: Vec<EntityId>) -> (r: Option<UndoEntry<S>>)
        ensures
            (final(self)@, r) == old(self)@.undo_step(UndoEntry { snapshot, selected }),
    {
        match self.pop() {
            Some(entry) => {
                self.push_redo(snapshot, selected);
                Some(entry)
            },
            None => None,
        }
    }

    /// The editor's redo: when there is an undone state, files the current
    /// state under undo (keeping the rest of the redo history) and returns the
    /// undone one; otherwise changes nothing.
    pub fn redo_step(&mut self, snapshot: S, selected: Vec<EntityId>) -> (r: Option<UndoEntry<S>>)
        ensures
            (final(self)@, r) == old(self)@.redo_step(UndoEntry { snapshot, selected }),
    {
        match self.pop_redo() {
            Some(entry) => {
                self.push_undo_only(snapshot, selected);
                Some(entry)
            },
            None => None,
        }
    }

    pub fn can_undo(&self) -> (b: bool)
        ensures
            b == (self@.undo.len() > 0),
    {
        !self.undo.is_empty()
    }

    pub fn can_redo(&self) -> (b: bool)
        ensures
            b == (self@.redo.len() > 0),
    {
        !self.redo.is_empty()
    }
}

/// Neither history ever grows beyond `UNDO_MAX` entries, whatever is pushed.
pub proof fn law_undo_bounded<S>(st: UndoStackView<S>, e: UndoEntry<S>)
    requires
        st.bounded(),
    ensures
        st.push(e).bounded(),
        st.push_redo(e).bounded(),
        st.push_undo_only(e).bounded(),
        st.pop().0.bounded(),
        st.pop_redo().0.bounded(),
{
}

/// A recorded state is the next one undo gives back, and recording wipes the
/// redo history.
pub proof fn law_push_then_pop<S>(st: UndoStackView<S>, e: UndoEntry<S>)
    ensures
        st.push(e).pop().1 == Some(e),
        st.push(e).redo.len() == 0,
        !(st.push(e).pop_redo().1 is Some),
{
}

/// When the undo history is full, recording a new state forgets the oldest one
/// and keeps the rest in order.
pub proof fn law_push_evicts_oldest<S>(st: UndoStackView<S>, e: UndoEntry<S>)
    requires
        st.undo.len() == UNDO_MAX,
    ensures
        st.push(e).undo == st.undo.subrange(1, UNDO_MAX as int).push(e),
        st.push(e).undo.len() == UNDO_MAX,
{
    assert(st.undo.drop_first() =~= st.undo.subrange(1, UNDO_MAX as int));
}

/// Undo followed by redo brings back the state that was current before the
/// undo and leaves both histories as they were (as long as the redo history
/// had room).
pub proof fn law_undo_then_redo<S>(st: UndoStackView<S>, current: UndoEntry<S>)
    requires
        st.bounded(),
        st.undo.len() > 0,
        st.redo.len() < UNDO_MAX,
    ensures
        ({
            let (st1, back) = st.undo_step(current);
            let (st2, forth) = st1.redo_step(back->0);
            &&& back == Some(st.undo.last())
            &&& forth == Some(current)
            &&& st2.undo =~= st.undo
            &&& st2.redo =~= st.redo
        }),
{
    let (st1, back) = st.undo_step(current);
    assert(st1.redo == st.redo.push(current));
    assert(st1.redo.drop_last() =~= st.redo);
    assert(st1.undo.push(back->0) =~= st.undo);
}

/// Redo followed by undo brings back the state that was current before the
/// redo and leaves both histories as they were (as long as the undo history
/// had room).
pub proof fn law_redo_then_undo<S>(st: UndoStackView<S>, current: UndoEntry<S>)
    requires
        st.bounded(),
        st.redo.len() > 0,
        st.undo.len() < UNDO_MAX,
    ensures
        ({
            let (st1, forth) = st.redo_step(current);
            let (st2, back) = st1.undo_step(forth->0);
            &&& forth == Some(st.redo.last())
            &&& back == Some(current)
            &&& st2.undo =~= st.undo
            &&& st2.redo =~= st.redo
        }),
{
    let (st1, forth) = st.redo_step(current);
    assert(st1.undo == st.undo.push(current));
    assert(st1.undo.drop_last() =~= st.undo);
    assert(st1.redo.push(forth->0) =~= st.redo);
}

} // verus!
