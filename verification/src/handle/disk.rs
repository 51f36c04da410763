//! The order in which a host carries out what touches the disk.
//!
//! A host performs a step and says whether it succeeded; what comes next is decided here. Nothing
//! is dropped from the log file before the snapshot that covers it is durable.
use vstd::prelude::*;

verus! {

/// The steps of a compaction.
#[derive(Debug, Clone, Copy, PartialEq, Eq, Structural)]
pub enum CompactionStep {
    /// Write the snapshot to a file of its own and make it durable.
    Save,
    /// Compact the Raft log and replace the contents of the log file.
    Rotate,
    /// Delete the snapshots that are no longer needed.
    Prune,
    /// Let the compaction count.
    Finish,
    Done,
    /// The snapshot or the new log file could not be written.
    Abandoned,
}

impl CompactionStep {
    pub open spec fn next_of(self, succeeded: bool) -> CompactionStep {
        match self {
            CompactionStep::Save => if succeeded {
                CompactionStep::Rotate
            } else {
                CompactionStep::Abandoned
            },
            CompactionStep::Rotate => if succeeded {
                CompactionStep::Prune
            } else {
                CompactionStep::Abandoned
            },
            // A snapshot too many does no harm.
            CompactionStep::Prune => CompactionStep::Finish,
            CompactionStep::Finish => CompactionStep::Done,
            CompactionStep::Done => CompactionStep::Done,
            CompactionStep::Abandoned => CompactionStep::Abandoned,
        }
    }

    /// Where a compaction stands after steps with these outcomes.
    pub open spec fn after(outcomes: Seq<bool>) -> CompactionStep
        decreases outcomes.len(),
    {
        if outcomes.len() == 0 {
            CompactionStep::Save
        } else {
            Self::after(outcomes.drop_last()).next_of(outcomes.last())
        }
    }

    pub fn first() -> (step: CompactionStep)
        ensures
            step == Self::after(Seq::empty()),
    {
        CompactionStep::Save
    }

    pub fn next(self, succeeded: bool) -> (step: CompactionStep)
        ensures
            step == self.next_of(succeeded),
    {
        match self {
            CompactionStep::Save => if succeeded {
                CompactionStep::Rotate
            } else {
                CompactionStep::Abandoned
            },
            CompactionStep::Rotate => if succeeded {
                CompactionStep::Prune
            } else {
                CompactionStep::Abandoned
            },
            CompactionStep::Prune => CompactionStep::Finish,
            CompactionStep::Finish => CompactionStep::Done,
            CompactionStep::Done => CompactionStep::Done,
            CompactionStep::Abandoned => CompactionStep::Abandoned,
        }
    }
}

/// The steps of installing a snapshot from the leader.
#[derive(Debug, Clone, Copy, PartialEq, Eq, Structural)]
pub enum InstallStep {
    /// Replace the store and the Raft log by the snapshot.
    Apply,
    /// Write the snapshot to a file of its own and make it durable.
    Save,
    /// Replace the contents of the log file.
    Rewrite,
    /// Tell readers and watchers.
    Announce,
    Done,
    /// The snapshot does not decode. Nothing has changed.
    Refused,
}

impl InstallStep {
    pub open spec fn next_of(self, succeeded: bool) -> InstallStep {
        match self {
            InstallStep::Apply => if succeeded {
                InstallStep::Save
            } else {
                InstallStep::Refused
            },
            InstallStep::Save => if succeeded {
                InstallStep::Rewrite
            } else {
                InstallStep::Announce
            },
            InstallStep::Rewrite => InstallStep::Announce,
            InstallStep::Announce => InstallStep::Done,
            InstallStep::Done => InstallStep::Done,
            InstallStep::Refused => InstallStep::Refused,
        }
    }

    /// Where an installation stands after steps with these outcomes.
    pub open spec fn after(outcomes: Seq<bool>) -> InstallStep
        decreases outcomes.len(),
    {
        if outcomes.len() == 0 {
            InstallStep::Apply
        } else {
            Self::after(outcomes.drop_last()).next_of(outcomes.last())
        }
    }

    pub fn first() -> (step: InstallStep)
        ensures
            step == Self::after(Seq::empty()),
    {
        InstallStep::Apply
    }

    pub fn next(self, succeeded: bool) -> (step: InstallStep)
        ensures
            step == self.next_of(succeeded),
    {
        match self {
            InstallStep::Apply => if succeeded {
                InstallStep::Save
            } else {
                InstallStep::Refused
            },
            InstallStep::Save => if succeeded {
                InstallStep::Rewrite
            } else {
                InstallStep::Announce
            },
            InstallStep::Rewrite => InstallStep::Announce,
            InstallStep::Announce => InstallStep::Done,
            InstallStep::Done => InstallStep::Done,
            InstallStep::Refused => InstallStep::Refused,
        }
    }
}

/// The log file is rotated only after the snapshot was saved, and a compaction counts only after
/// both; snapshots are pruned only then.
pub proof fn law_rotation_needs_a_saved_snapshot(outcomes: Seq<bool>)
    ensures
        ({
            let step = CompactionStep::after(outcomes);
            &&& step == CompactionStep::Save <==> outcomes.len() == 0
            &&& step == CompactionStep::Rotate <==> outcomes == seq![true]
            &&& (step == CompactionStep::Prune || step == CompactionStep::Finish || step
                == CompactionStep::Done) <==> outcomes.len() >= 2 && outcomes[0] && outcomes[1]
        }),
    decreases outcomes.len(),
{
    if outcomes.len() > 0 {
        let rest = outcomes.drop_last();
        law_rotation_needs_a_saved_snapshot(rest);
        assert(outcomes == rest.push(outcomes.last()));
        if outcomes.len() == 1 {
            assert(rest =~= Seq::empty());
            assert(outcomes.last() ==> outcomes =~= seq![true]);
        } else if outcomes.len() == 2 {
            assert(outcomes[0] ==> rest =~= seq![true]);
        }
    }
}

/// The log file is rewritten only after the installed snapshot was saved, and watchers are told of
/// a snapshot if and only if it was installed.
pub proof fn law_rewrite_needs_a_saved_snapshot(outcomes: Seq<bool>)
    ensures
        ({
            let step = InstallStep::after(outcomes);
            &&& step == InstallStep::Apply <==> outcomes.len() == 0
            &&& step == InstallStep::Save <==> outcomes == seq![true]
            &&& step == InstallStep::Rewrite <==> outcomes == seq![true, true]
            &&& step == InstallStep::Announce ==> outcomes[0]
            &&& step == InstallStep::Refused <==> outcomes.len() > 0 && !outcomes[0]
        }),
    decreases outcomes.len(),
{
    if outcomes.len() > 0 {
        let rest = outcomes.drop_last();
        law_rewrite_needs_a_saved_snapshot(rest);
        assert(outcomes == rest.push(outcomes.last()));
        if outcomes.len() == 1 {
            assert(rest =~= Seq::empty());
            assert(outcomes.last() ==> outcomes =~= seq![true]);
        } else if outcomes.len() == 2 {
            assert(outcomes[0] ==> rest =~= seq![true]);
            assert(outcomes[0] && outcomes[1] ==> outcomes =~= seq![true, true]);
        } else {
            assert(rest.len() == 2 && rest[0] && rest[1] ==> rest =~= seq![true, true]);
        }
    }
}

/// A compaction that is not held up runs through: the snapshot is saved, the log file is rotated,
/// the older snapshots are pruned, and it counts, whether or not they could be pruned. It is
/// abandoned as soon as the snapshot or the log file cannot be written, and only then.
pub proof fn law_compaction_runs_through(outcomes: Seq<bool>)
    ensures
        ({
            let step = CompactionStep::after(outcomes);
            let n = outcomes.len();
            &&& step == CompactionStep::Prune <==> n == 2 && outcomes[0] && outcomes[1]
            &&& step == CompactionStep::Finish <==> n == 3 && outcomes[0] && outcomes[1]
            &&& step == CompactionStep::Done <==> n >= 4 && outcomes[0] && outcomes[1]
            &&& step == CompactionStep::Abandoned <==> (n >= 1 && !outcomes[0]) || (n >= 2
                && !outcomes[1])
        }),
    decreases outcomes.len(),
{
    if outcomes.len() > 0 {
        let rest = outcomes.drop_last();
        law_compaction_runs_through(rest);
        law_rotation_needs_a_saved_snapshot(outcomes);
        law_rotation_needs_a_saved_snapshot(rest);
        assert(outcomes == rest.push(outcomes.last()));
    }
}

/// An installation that is not refused runs through: the snapshot is saved, the log file is
/// rewritten if it was, and readers and watchers are told in any case, once.
pub proof fn law_installation_runs_through(outcomes: Seq<bool>)
    ensures
        ({
            let step = InstallStep::after(outcomes);
            let n = outcomes.len();
            &&& step == InstallStep::Announce <==> (n == 2 && outcomes[0] && !outcomes[1]) || (n
                == 3 && outcomes[0] && outcomes[1])
            &&& step == InstallStep::Done <==> (n >= 3 && outcomes[0] && !outcomes[1]) || (n >= 4
                && outcomes[0] && outcomes[1])
        }),
    decreases outcomes.len(),
{
    if outcomes.len() > 0 {
        let rest = outcomes.drop_last();
        law_installation_runs_through(rest);
        law_rewrite_needs_a_saved_snapshot(outcomes);
        law_rewrite_needs_a_saved_snapshot(rest);
        assert(outcomes == rest.push(outcomes.last()));
        if outcomes.len() == 2 {
            assert(outcomes[0] && outcomes[1] ==> outcomes =~= seq![true, true]);
            assert(rest[0] ==> rest =~= seq![true]);
        } else if outcomes.len() == 3 {
            assert(rest[0] && rest[1] ==> rest =~= seq![true, true]);
        } else if outcomes.len() == 1 {
            assert(outcomes[0] ==> outcomes =~= seq![true]);
        }
    }
}

} // verus!
