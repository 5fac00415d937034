//! The bounded undo history: a queue of reversible draw and erase records.

use vstd::prelude::*;

use crate::state::{lines_view, Line, LineV};

verus! {

/// How many entries the undo history keeps before evicting the oldest.
pub const UNDO_CAPACITY: usize = 100;

/// One reversible action: a stroke that was drawn, or one that was erased.
#[derive(Debug)]
pub enum UndoAction {
    Erase(Line),
    Draw(Line),
}

/// The mathematical view of an [`UndoAction`].
pub enum UndoV {
    Erase(LineV),
    Draw(LineV),
}

impl View for UndoAction {
    type V = UndoV;

    open spec fn view(&self) -> UndoV {
        match self {
            UndoAction::Erase(l) => UndoV::Erase(l@),
            UndoAction::Draw(l) => UndoV::Draw(l@),
        }
    }
}

pub open spec fn wf_entry(e: UndoV) -> bool {
    match e {
        UndoV::Erase(l) => l.wf(),
        UndoV::Draw(l) => l.wf(),
    }
}

/// Wraps each stroke of a sequence in an erase record, keeping the order.
pub open spec fn erase_entries(ls: Seq<LineV>) -> Seq<UndoV> {
    ls.map_values(|l: LineV| UndoV::Erase(l))
}

/// One bounded push: append the entry, then evict the oldest entry if the
/// capacity is now exceeded.
pub open spec fn push_entry(s: Seq<UndoV>, e: UndoV) -> Seq<UndoV> {
    let t = s.push(e);
    if t.len() > UNDO_CAPACITY as nat {
        t.drop_first()
    } else {
        t
    }
}

/// Bounded pushes of a whole batch, one entry at a time, each followed by
/// its own eviction check.
pub open spec fn push_all(s: Seq<UndoV>, es: Seq<UndoV>) -> Seq<UndoV>
    decreases es.len(),
{
    if es.len() == 0 {
        s
    } else {
        push_entry(push_all(s, es.drop_last()), es.last())
    }
}

/// The bounded undo history. The front of `stack` is the oldest entry; undo
/// takes from the back.
pub struct UndoStack {
    pub stack: Vec<UndoAction>,
}

pub open spec fn undo_view(v: Seq<UndoAction>) -> Seq<UndoV> {
    v.map_values(|a: UndoAction| a@)
}

impl View for UndoStack {
    type V = Seq<UndoV>;

    open spec fn view(&self) -> Seq<UndoV> {
        undo_view(self.stack@)
    }
}

impl UndoStack {
    /// Never more entries than the capacity, and every recorded stroke
    /// well-formed.
    pub open spec fn wf(self) -> bool {
        self@.len() <= UNDO_CAPACITY as nat && (forall|k: int|
            0 <= k < self@.len() ==> wf_entry(#[trigger] self@[k]))
    }
}

impl Default for UndoStack {
    /// An empty history.
    fn default() -> (s: UndoStack)
        ensures
            s@ == Seq::<UndoV>::empty(),
            s.wf(),
    {
        let s = UndoStack { stack: Vec::new() };
        proof {
            assert(s@ =~= Seq::<UndoV>::empty());
        }
        s
    }
}

impl UndoStack {
    /// Pushes one entry with the eviction check of `push_entry`.
    fn push_one(&mut self, a: UndoAction)
        requires
            old(self).wf(),
            wf_entry(a@),
        ensures
            final(self)@ == push_entry(old(self)@, a@),
            final(self).wf(),
    {
        let ghost pre = self@;
        let ghost av = a@;
        self.stack.push(a);
        proof {
            assert(undo_view(self.stack@) =~= pre.push(av));
        }
        if self.stack.len() > UNDO_CAPACITY {
            let ghost mid = self.stack@;
            self.stack.remove(0);
            proof {
                assert(undo_view(self.stack@) =~= undo_view(mid).drop_first());
            }
        }
        proof {
            assert(self@ =~= push_entry(pre, av));
        }
    }

    /// Records an erased stroke.
    pub fn add_erase(&mut self, line: Line)
        requires
            old(self).wf(),
            line@.wf(),
        ensures
            final(self)@ == push_entry(old(self)@, UndoV::Erase(line@)),
            final(self).wf(),
    {
        self.push_one(UndoAction::Erase(line));
    }

    /// Records a drawn stroke.
    pub fn add_draw(&mut self, line: Line)
        requires
            old(self).wf(),
            line@.wf(),
        ensures
            final(self)@ == push_entry(old(self)@, UndoV::Draw(line@)),
            final(self).wf(),
    {
        self.push_one(UndoAction::Draw(line));
    }

    /// Records a whole erase batch, one bounded push per stroke, keeping the
    /// removal order.
    pub fn extend_erase(&mut self, erased: Vec<Line>)
        requires
            old(self).wf(),
            forall|k: int|
                0 <= k < erased@.len() ==> (#[trigger] erased@[k])@.wf(),
        ensures
            final(self)@ == push_all(old(self)@, erase_entries(lines_view(erased@))),
            final(self).wf(),
    {
        let ghost pre = self@;
        let ghost es = erase_entries(lines_view(erased@));
        let mut i: usize = 0;
        while i < erased.len()
            invariant
                i <= erased@.len(),
                self.wf(),
                es == erase_entries(lines_view(erased@)),
                es.len() == erased@.len(),
                forall|k: int| 0 <= k < erased@.len() ==> (#[trigger] erased@[k])@.wf(),
                forall|k: int| 0 <= k < es.len() ==> es[k] == UndoV::Erase((#[trigger] erased@[k])@),
                self@ == push_all(pre, es.take(i as int)),
            decreases erased@.len() - i,
        {
            let l = erased[i].duplicate();
            self.push_one(UndoAction::Erase(l));
            proof {
                assert(es.take(i + 1 as int).drop_last() =~= es.take(i as int));
                assert(es.take(i + 1 as int).last() == es[i as int]);
            }
            i = i + 1;
        }
        proof {
            assert(es.take(erased@.len() as int) =~= es);
        }
    }

    /// Removes and returns the most recently pushed entry, if any.
    pub fn pop(&mut self) -> (r: Option<UndoAction>)
        requires
            old(self).wf(),
        ensures
            final(self).wf(),
            match r {
                Some(a) => old(self)@.len() > 0 && a@ == old(self)@.last() && final(self)@ == old(
                    self,
                )@.drop_last(),
                None => old(self)@.len() == 0 && final(self)@ == old(self)@,
            },
    {
        let ghost pre = self@;
        let r = self.stack.pop();
        proof {
            if pre.len() > 0 {
                assert(undo_view(self.stack@) =~= pre.drop_last());
            } else {
                assert(undo_view(self.stack@) =~= pre);
            }
        }
        r
    }
}

/// The history is bounded: a push never leaves more than the capacity, and a
/// push at capacity evicts exactly the oldest entry while appending the new
/// one at the back.
pub proof fn lemma_history_bounded(s: Seq<UndoV>, e: UndoV)
    requires
        s.len() <= UNDO_CAPACITY as nat,
    ensures
        push_entry(s, e).len() <= UNDO_CAPACITY as nat,
        s.len() == UNDO_CAPACITY as nat ==> push_entry(s, e) == s.drop_first().push(e),
        s.len() < UNDO_CAPACITY as nat ==> push_entry(s, e) == s.push(e),
{
    if s.len() == UNDO_CAPACITY as nat {
        assert(push_entry(s, e) =~= s.drop_first().push(e));
    }
}

} // verus!
