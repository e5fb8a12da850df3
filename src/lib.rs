use std::collections::VecDeque;
use vstd::prelude::*;

pub mod edit;
pub mod levenshtein;

pub use edit::Edit;
pub use levenshtein::compute_edit_sequence;

use edit::{applicable, apply_all, lemma_apply_first};
use levenshtein::{edit_script, levenshtein};

verus! {

/// A string that changes into a target string one edit at a time.
pub struct MorphingString {
    current_value: String,
    target: String,
    remaining_edits: VecDeque<Edit>,
    total_edits: usize,
}

impl MorphingString {
    /// The string as it stands now.
    pub closed spec fn current(&self) -> Seq<char> {
        self.current_value@
    }

    /// The string being morphed towards.
    pub closed spec fn goal(&self) -> Seq<char> {
        self.target@
    }

    /// The edits still to perform, the next one first.
    pub closed spec fn pending(&self) -> Seq<Edit> {
        self.remaining_edits@
    }

    /// The number of edits scheduled when the target was last set.
    pub closed spec fn total(&self) -> nat {
        self.total_edits as nat
    }

    /// The pending edits are in range and lead from the current string to the
    /// target, and there are no more of them than were scheduled.
    pub closed spec fn wf(&self) -> bool {
        &&& applicable(self.pending(), self.current())
        &&& apply_all(self.pending(), self.current()) == self.goal()
        &&& self.pending().len() <= self.total()
    }

    /// Starts settled on `value`.
    pub fn new(value: String) -> (r: Self)
        ensures
            r.wf(),
            r.current() == value@,
            r.goal() == value@,
            r.pending().len() == 0,
            r.total() == 0,
    {
        MorphingString {
            current_value: value.clone(),
            target: value,
            remaining_edits: VecDeque::new(),
            total_edits: 0,
        }
    }

    /// Schedules the edits from the current string to `target`, dropping any
    /// edits still pending.
    pub fn set_target(&mut self, target: String)
        requires
            old(self).current().len() < usize::MAX,
            target@.len() < usize::MAX,
        ensures
            final(self).wf(),
            final(self).current() == old(self).current(),
            final(self).goal() == target@,
            final(self).pending() == edit_script(old(self).current(), target@),
            final(self).pending().len() == levenshtein(old(self).current(), target@),
            final(self).total() == final(self).pending().len(),
    {
        self.remaining_edits = compute_edit_sequence(self.current_value.as_str(), target.as_str());
        self.total_edits = self.remaining_edits.len();
        self.target = target;
    }

    /// Performs the next pending edit, if there is one, and reports the progress.
    pub fn advance(&mut self) -> (r: Progress)
        requires
            old(self).wf(),
        ensures
            final(self).wf(),
            final(self).goal() == old(self).goal(),
            final(self).total() == old(self).total(),
            old(self).pending().len() > 0 ==> {
                &&& final(self).current() == old(self).pending()[0].spec_apply(old(self).current())
                &&& final(self).pending() == old(self).pending().drop_first()
            },
            old(self).pending().len() == 0 ==> final(self).current() == old(self).current()
                && final(self).pending() == old(self).pending(),
            final(self).pending().len() == 0 ==> final(self).current() == final(self).goal(),
            r.total_edits == final(self).total(),
            r.remaining_edits == final(self).pending().len(),
    {
        proof {
            if self.remaining_edits@.len() > 0 {
                lemma_apply_first(self.remaining_edits@, self.current_value@);
            }
        }
        if let Some(edit) = self.remaining_edits.pop_front() {
            self.current_value = edit.apply(self.current_value.as_str());
            assert(self.remaining_edits@ =~= old(self).remaining_edits@.drop_first());
        }
        self.progress()
    }

    /// A copy of the string as it stands now.
    pub fn get_value(&self) -> (r: String)
        ensures
            r@ == self.current(),
    {
        self.current_value.clone()
    }

    /// A copy of the string as it stands now.
    pub fn value(&self) -> (r: String)
        ensures
            r@ == self.current(),
    {
        self.get_value()
    }

    /// How many edits were scheduled and how many remain.
    pub fn progress(&self) -> (r: Progress)
        ensures
            r.total_edits == self.total(),
            r.remaining_edits == self.pending().len(),
    {
        Progress { total_edits: self.total_edits, remaining_edits: self.remaining_edits.len() }
    }
}

/// Once no edits are pending, the string has reached its target.
pub proof fn lemma_settled(m: &MorphingString)
    requires
        m.wf(),
        m.pending().len() == 0,
    ensures
        m.current() == m.goal(),
{
}

/// A snapshot of a morph: edits scheduled for the current target and edits left.
#[derive(Clone, Copy, Debug)]
pub struct Progress {
    pub total_edits: usize,
    pub remaining_edits: usize,
}

impl Progress {
    /// Whether no edits are left.
    pub fn is_complete(&self) -> (r: bool)
        ensures
            r == (self.remaining_edits == 0),
    {
        self.remaining_edits == 0
    }
}

} // verus!
