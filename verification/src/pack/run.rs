//! Building all packs, whatever becomes of each.
use vstd::prelude::*;

verus! {

/// What is done at some time.
#[derive(Clone, Copy, Debug, PartialEq, Eq, Structural)]
pub enum Stage {
    /// The output is set up.
    Setup,
    /// A pack is built.
    Pack(usize),
    /// The output is cleaned up.
    Finish,
    /// Nothing.
    Done,
}

/// A run over a number of packs.
#[derive(Clone, Copy, Debug, PartialEq, Eq, Structural)]
pub struct Run {
    pub packs: usize,
    pub stage: Stage,
    pub failed: bool,
}

/// What is done when the stage is over.
pub open spec fn next_stage(packs: usize, stage: Stage, ok: bool) -> Stage {
    match stage {
        Stage::Setup => if !ok {
            Stage::Done
        } else if packs > 0 {
            Stage::Pack(0)
        } else {
            Stage::Finish
        },
        Stage::Pack(i) => if i + 1 < packs {
            Stage::Pack((i + 1) as usize)
        } else {
            Stage::Finish
        },
        Stage::Finish => Stage::Done,
        Stage::Done => Stage::Done,
    }
}

/// The run once its stage is over, well or not.
pub open spec fn after(run: Run, ok: bool) -> Run {
    Run {
        packs: run.packs,
        stage: next_stage(run.packs, run.stage, ok),
        failed: run.failed || !ok,
    }
}

/// Starts a run.
pub fn run(packs: usize) -> (r: Run)
    ensures
        r == (Run { packs, stage: Stage::Setup, failed: false }),
{
    Run { packs, stage: Stage::Setup, failed: false }
}

impl Run {
    /// Whether something has failed.
    pub fn get_err(&self) -> (r: bool)
        ensures
            r == self.failed,
    {
        self.failed
    }

    /// Notes that something has failed.
    pub fn set_err(&mut self)
        ensures
            *final(self) == (Run { failed: true, ..*old(self) }),
    {
        self.failed = true;
    }

    /// Notes that the stage is over, well or not, and goes on to the next.
    pub fn handle_err(&mut self, ok: bool)
        ensures
            *final(self) == after(*old(self), ok),
    {
        if !ok {
            self.set_err();
        }
        self.stage = match self.stage {
            Stage::Setup => if !ok {
                Stage::Done
            } else if self.packs > 0 {
                Stage::Pack(0)
            } else {
                Stage::Finish
            },
            Stage::Pack(i) => if self.packs > 0 && i < self.packs - 1 {
                Stage::Pack(i + 1)
            } else {
                Stage::Finish
            },
            Stage::Finish => Stage::Done,
            Stage::Done => Stage::Done,
        };
    }
}

/// A run after the first stages, given how each of them went.
pub open spec fn run_after(packs: usize, oks: Seq<bool>) -> Run
    decreases oks.len(),
{
    if oks.len() == 0 {
        Run { packs, stage: Stage::Setup, failed: false }
    } else {
        after(run_after(packs, oks.drop_last()), oks.last())
    }
}

/// A run fails if and only if one of its stages does.
pub proof fn law_run_fails(packs: usize, oks: Seq<bool>)
    ensures
        run_after(packs, oks).failed <==> oks.contains(false),
        run_after(packs, oks).packs == packs,
    decreases oks.len(),
{
    if oks.len() > 0 {
        let n = oks.len() - 1;
        law_run_fails(packs, oks.drop_last());
        if oks.drop_last().contains(false) {
            let i = choose|i: int| 0 <= i < n && !oks.drop_last()[i];
            assert(!oks[i]);
        }
        if oks.contains(false) && oks[n] {
            let i = choose|i: int| 0 <= i < oks.len() && !oks[i];
            assert(!oks.drop_last()[i]);
        }
        assert(oks[n] == oks.last());
    }
}

/// Once the output is set up, every pack is built, whatever becomes of those before it.
pub proof fn law_run_builds_all(packs: usize, oks: Seq<bool>)
    requires
        oks.len() > 0,
        oks[0],
    ensures
        oks.len() <= packs ==> run_after(packs, oks).stage == Stage::Pack((oks.len() - 1) as usize),
        oks.len() == packs + 1 ==> run_after(packs, oks).stage == Stage::Finish,
        oks.len() > packs + 1 ==> run_after(packs, oks).stage == Stage::Done,
    decreases oks.len(),
{
    law_run_fails(packs, oks.drop_last());
    if oks.len() > 1 {
        law_run_builds_all(packs, oks.drop_last());
    } else {
        assert(oks.drop_last().len() == 0);
        assert(oks.last() == oks[0]);
    }
}

/// Nothing is built if the output cannot be set up.
pub proof fn law_run_stops(packs: usize, oks: Seq<bool>)
    requires
        oks.len() > 0,
        !oks[0],
    ensures
        run_after(packs, oks).stage == Stage::Done,
    decreases oks.len(),
{
    if oks.len() > 1 {
        law_run_stops(packs, oks.drop_last());
    } else {
        assert(run_after(packs, oks.drop_last()).stage == Stage::Setup);
        assert(oks.last() == oks[0]);
    }
}

} // verus!
