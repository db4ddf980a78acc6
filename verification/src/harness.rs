//! The concurrent mutator of the verification harness.
//!
//! A `Mutator` stands for the attacker thread: a queue of filesystem
//! mutations together with a schedule saying after how many resolver steps
//! each fires.  The resolver calls `apply` at every interleaving point — one
//! per capability call — so enumerating schedules enumerates every
//! interleaving of the two threads at syscall granularity.  An `apply` only
//! ever touches the filesystem tree, and what it does to it is the fold of
//! the actions it fired: the descriptor table and the current-directory
//! register belong to the resolving thread.

use crate::mockfs::{
    create_tree, link_tree, remove_tree, FileType, FileTypeView, MockFs,
};
use crate::path::split_path;
use vstd::prelude::*;

verus! {

/// One atomic mutation of the shared tree.
pub enum MutatorAction {
    /// Remove the entry at this path.
    Remove(String),
    /// Check the first path resolves, then bind the second name to a
    /// symbolic link whose target text is the first path.
    Link(String, String),
    /// Create an entry at this path.
    Create(String, FileType),
}

/// The tree transition one action performs, exactly the contract of the
/// double's operation it runs.
pub open spec fn action_tree(
    t: Seq<(Seq<Seq<char>>, FileTypeView)>,
    a: MutatorAction,
) -> Seq<(Seq<Seq<char>>, FileTypeView)> {
    match a {
        MutatorAction::Remove(p) => remove_tree(t, split_path(p@)),
        MutatorAction::Link(src, dst) => link_tree(t, src@, dst@),
        MutatorAction::Create(p, ft) => create_tree(t, split_path(p@), ft@),
    }
}

/// The fold of the actions with indices in `[from, to)` over the tree `t`.
pub open spec fn run_actions(
    t: Seq<(Seq<Seq<char>>, FileTypeView)>,
    acts: Seq<MutatorAction>,
    from: int,
    to: int,
) -> Seq<(Seq<Seq<char>>, FileTypeView)>
    decreases to - from,
{
    if from >= to {
        t
    } else {
        run_actions(action_tree(t, acts[from]), acts, from + 1, to)
    }
}

/// The fold grows at its right end.
proof fn lemma_run_actions_extend(
    t: Seq<(Seq<Seq<char>>, FileTypeView)>,
    acts: Seq<MutatorAction>,
    from: int,
    to: int,
)
    requires
        from <= to,
    ensures
        run_actions(t, acts, from, to + 1) == action_tree(run_actions(t, acts, from, to), acts[to]),
    decreases to - from,
{
    if from < to {
        lemma_run_actions_extend(action_tree(t, acts[from]), acts, from + 1, to);
    } else {
        assert(run_actions(t, acts, from, to + 1) == run_actions(
            action_tree(t, acts[from]),
            acts,
            from + 1,
            to + 1,
        ));
        assert(run_actions(t, acts, from, to) == t);
    }
}

/// The attacker thread: pending actions, and the step at which each fires.
pub struct Mutator {
    actions: Vec<MutatorAction>,
    schedule: Vec<usize>,
    next: usize,
    clock: usize,
}

impl Mutator {
    /// A mutator with nothing to do: the interference-free run.
    pub closed spec fn is_inert(self) -> bool {
        self.actions@.len() == 0
    }

    /// The queued actions.
    pub closed spec fn actions_spec(self) -> Seq<MutatorAction> {
        self.actions@
    }

    /// The index of the first action not yet fired.
    pub closed spec fn cursor(self) -> int {
        self.next as int
    }

    /// The mutator that never acts.
    pub fn inert() -> (r: Mutator)
        ensures
            r.is_inert(),
    {
        Mutator { actions: Vec::new(), schedule: Vec::new(), next: 0, clock: 0 }
    }

    /// A mutator that fires `actions` in order; action `k` fires at the
    /// first interleaving point numbered at least `schedule[k]`, or at once
    /// where the schedule gives it no entry.
    pub fn new(actions: Vec<MutatorAction>, schedule: Vec<usize>) -> (r: Mutator)
        ensures
            r.is_inert() <==> actions@.len() == 0,
            r.actions_spec() == actions@,
            r.cursor() == 0,
    {
        Mutator { actions, schedule, next: 0, clock: 0 }
    }

    /// One interleaving point: the attacker runs the pending actions its
    /// schedule has made due, in order.  The tree becomes the fold of the
    /// fired actions' transitions; the descriptor table, the allocation
    /// cursor, and the current-directory register are never touched, and an
    /// inert mutator changes nothing.
    pub fn apply(&mut self, fs: &mut MockFs)
        requires
            old(fs).wf(),
        ensures
            final(fs).wf(),
            final(fs).table() == old(fs).table(),
            final(fs).fd_limit() == old(fs).fd_limit(),
            final(fs).cwd_spec() == old(fs).cwd_spec(),
            final(self).actions_spec() == old(self).actions_spec(),
            old(self).cursor() <= final(self).cursor(),
            final(fs).tree() == run_actions(
                old(fs).tree(),
                old(self).actions_spec(),
                old(self).cursor(),
                final(self).cursor(),
            ),
            old(self).is_inert() ==> final(self).is_inert() && *final(fs) == *old(fs),
    {
        if self.clock < usize::MAX {
            self.clock = self.clock + 1;
        }
        while self.next < self.actions.len() && (self.next >= self.schedule.len()
            || self.schedule[self.next] <= self.clock)
            invariant
                fs.wf(),
                fs.table() == old(fs).table(),
                fs.fd_limit() == old(fs).fd_limit(),
                fs.cwd_spec() == old(fs).cwd_spec(),
                self.actions == old(self).actions,
                old(self).cursor() <= self.next as int,
                fs.tree() == run_actions(
                    old(fs).tree(),
                    old(self).actions_spec(),
                    old(self).cursor(),
                    self.next as int,
                ),
                old(self).is_inert() ==> *fs == *old(fs),
            decreases self.actions.len() - self.next,
        {
            let idx = self.next;
            self.next = idx + 1;
            proof {
                lemma_run_actions_extend(
                    old(fs).tree(),
                    old(self).actions_spec(),
                    old(self).cursor(),
                    idx as int,
                );
            }
            match &self.actions[idx] {
                MutatorAction::Remove(p) => {
                    let _ = fs.remove(p.as_str());
                },
                MutatorAction::Link(src, dst) => {
                    let _ = fs.link(src.as_str(), dst.as_str());
                },
                MutatorAction::Create(p, ft) => {
                    let _ = fs.create(p.as_str(), ft.duplicate());
                },
            }
        }
    }
}

} // verus!
