//! Where the file list is, and the Back and Forward history.
//!
//! The program asks whether a folder exists before it moves; every decision about the history
//! is here.
use vstd::prelude::*;
use crate::text::{components, same_path};

verus! {

broadcast use vstd::string::group_string_axioms;

/// The folder shown, the folders Back returns to (most recent last), and those Forward returns
/// to (most recent last).
pub struct History {
    pub current: String,
    pub back: Vec<String>,
    pub forward: Vec<String>,
}

/// The value of a [`History`].
pub struct HistoryView {
    pub current: Seq<char>,
    pub back: Seq<Seq<char>>,
    pub forward: Seq<Seq<char>>,
}

impl View for History {
    type V = HistoryView;

    open spec fn view(&self) -> HistoryView {
        HistoryView {
            current: self.current@,
            back: crate::text::views(self.back@),
            forward: crate::text::views(self.forward@),
        }
    }
}

/// Where going to `path` leaves the history: a different folder becomes current, the one left
/// is remembered for Back, and Forward is forgotten; the same folder changes nothing.
pub open spec fn after_go(h: HistoryView, path: Seq<char>) -> HistoryView {
    if components(h.current) == components(path) {
        h
    } else {
        HistoryView { current: path, back: h.back.push(h.current), forward: Seq::empty() }
    }
}

/// Where Back leaves the history: the last folder left becomes current, and the current one is
/// remembered for Forward. Nothing changes when there is nowhere to go back to.
pub open spec fn after_back(h: HistoryView) -> HistoryView {
    if h.back.len() == 0 {
        h
    } else {
        HistoryView {
            current: h.back.last(),
            back: h.back.drop_last(),
            forward: h.forward.push(h.current),
        }
    }
}

/// Where Forward leaves the history: the mirror of [`after_back`].
pub open spec fn after_forward(h: HistoryView) -> HistoryView {
    if h.forward.len() == 0 {
        h
    } else {
        HistoryView {
            current: h.forward.last(),
            back: h.back.push(h.current),
            forward: h.forward.drop_last(),
        }
    }
}

impl History {
    /// A history that starts at `start`, with nowhere to go back or forward to.
    pub fn new(start: String) -> (r: History)
        ensures
            r@.current == start@,
            r@.back.len() == 0,
            r@.forward.len() == 0,
    {
        History { current: start, back: Vec::new(), forward: Vec::new() }
    }

    /// Goes to the folder `path` (the caller has made sure it is one).
    pub fn go(&mut self, path: String)
        ensures
            final(self)@ == after_go(old(self)@, path@),
    {
        if !same_path(self.current.as_str(), path.as_str()) {
            let ghost h = self@;
            let mut left = path;
            std::mem::swap(&mut left, &mut self.current);
            self.back.push(left);
            self.forward = Vec::new();
            assert(self@.back =~= h.back.push(h.current));
            assert(self@.forward =~= Seq::<Seq<char>>::empty());
        }
    }

    /// Goes back; `false` when there was nowhere to go.
    pub fn go_back(&mut self) -> (moved: bool)
        ensures
            moved == (old(self)@.back.len() > 0),
            final(self)@ == after_back(old(self)@),
    {
        match self.back.pop() {
            Some(prev) => {
                let ghost h = old(self)@;
                let mut left = prev;
                std::mem::swap(&mut left, &mut self.current);
                self.forward.push(left);
                assert(self@.back =~= h.back.drop_last());
                assert(self@.forward =~= h.forward.push(h.current));
                true
            },
            None => false,
        }
    }

    /// Goes forward; `false` when there was nowhere to go.
    pub fn go_forward(&mut self) -> (moved: bool)
        ensures
            moved == (old(self)@.forward.len() > 0),
            final(self)@ == after_forward(old(self)@),
    {
        match self.forward.pop() {
            Some(next) => {
                let ghost h = old(self)@;
                let mut left = next;
                std::mem::swap(&mut left, &mut self.current);
                self.back.push(left);
                assert(self@.forward =~= h.forward.drop_last());
                assert(self@.back =~= h.back.push(h.current));
                true
            },
            None => false,
        }
    }
}

/// Back then Forward returns to exactly where the history was, whenever there was somewhere to
/// go back to; and Forward then Back likewise.
pub proof fn lemma_back_forward_undo(h: HistoryView)
    ensures
        h.back.len() > 0 ==> after_forward(after_back(h)) == h,
        h.forward.len() > 0 ==> after_back(after_forward(h)) == h,
{
    if h.back.len() > 0 {
        assert(after_back(h).forward.drop_last() =~= h.forward);
        assert(after_back(h).back.push(after_back(h).current) =~= h.back);
    }
    if h.forward.len() > 0 {
        assert(after_forward(h).back.drop_last() =~= h.back);
        assert(after_forward(h).forward.push(after_forward(h).current) =~= h.forward);
    }
}

/// Going somewhere new is remembered: Back from there returns to where the list was, with
/// the new folder next for Forward.
pub proof fn lemma_go_then_back(h: HistoryView, path: Seq<char>)
    requires
        components(h.current) != components(path),
    ensures
        after_back(after_go(h, path)).current == h.current,
        after_back(after_go(h, path)).back == h.back,
        after_back(after_go(h, path)).forward == seq![path],
{
    assert(after_go(h, path).back.drop_last() =~= h.back);
    assert(Seq::<Seq<char>>::empty().push(path) =~= seq![path]);
}

} // verus!
