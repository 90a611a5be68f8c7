//! Waking up in a house the duck has mapped before: which saved map to
//! try first, and when the answers to "does the map so far fit inside a
//! saved one?" are enough to adopt it.

use vstd::prelude::*;

use crate::wire::SavedMap;

verus! {

/// `k` is the newest saved map: none was written later, and none written
/// at the same second comes after it in the list.
pub open spec fn newest_at(maps: Seq<SavedMap>, k: int) -> bool {
    &&& 0 <= k < maps.len()
    &&& forall|j: int| 0 <= j < maps.len() ==> #[trigger] maps[j].saved_at <= maps[k].saved_at
    &&& forall|j: int| k < j < maps.len() ==> #[trigger] maps[j].saved_at < maps[k].saved_at
}

/// The map to try first at boot: the one saved last (the later in the
/// list on a tie); `None` for an empty library.
pub fn newest_saved(maps: &Vec<SavedMap>) -> (r: Option<usize>)
    ensures
        match r {
            None => maps@.len() == 0,
            Some(k) => newest_at(maps@, k as int),
        },
{
    if maps.len() == 0 {
        return None;
    }
    let mut best: usize = 0;
    let mut i: usize = 1;
    while i < maps.len()
        invariant
            1 <= i <= maps@.len(),
            best < i,
            forall|j: int| 0 <= j < i ==> #[trigger] maps@[j].saved_at <= maps@[best as int].saved_at,
            forall|j: int| best < j < i ==> #[trigger] maps@[j].saved_at < maps@[best as int].saved_at,
        decreases maps@.len() - i,
    {
        if maps[i].saved_at >= maps[best].saved_at {
            best = i;
        }
        i += 1;
    }
    Some(best)
}

/// What one ask came back with, the measured numbers already held
/// against the configured bars.
#[derive(Debug, Clone, Copy, PartialEq, Eq, Structural)]
pub enum AskVerdict {
    /// The best fit scores above the bar: not this house, or not enough
    /// of it yet.
    AboveBar,
    /// The runner-up came too close: two places fit.
    NearTie,
    /// Most of the live map lies where the saved one has never been.
    LowOverlap,
    /// A candidate: the best fit clears every bar. `agrees` when it names
    /// the same map as the answer on record, in the same place, with the
    /// live map grown enough since.
    Fits { agrees: bool },
}

/// The run of agreeing answers so far.
#[derive(Debug, Clone, Copy, PartialEq, Eq, Structural)]
pub struct AskRun {
    /// An answer is on record to agree with.
    pub seeded: bool,
    /// How many answers in a row agreed with the one before them.
    pub agreed: u32,
}

/// What to do after an ask.
#[derive(Debug, Clone, Copy, PartialEq, Eq, Structural)]
pub enum AskStep {
    /// The answer cleared no bar; the run starts over.
    Refused,
    /// So far `count` answers in a row agree; ask again later.
    Agreeing { count: u32 },
    /// Enough agree, but this is a dry run: say so and keep asking.
    WouldAdopt,
    /// Enough answers agree: adopt the saved map.
    Adopt,
}

impl AskRun {
    pub fn fresh() -> (r: Self)
        ensures
            !r.seeded,
            r.agreed == 0,
    {
        AskRun { seeded: false, agreed: 0 }
    }
}

/// The run after `verdict`.
pub open spec fn next_run(run: AskRun, verdict: AskVerdict) -> AskRun {
    match verdict {
        AskVerdict::Fits { agrees } => AskRun {
            seeded: true,
            agreed: if agrees && run.seeded { (run.agreed + 1) as u32 } else { 0 },
        },
        _ => AskRun { seeded: false, agreed: 0 },
    }
}

/// The step after `verdict`, the run having reached `next`.
pub open spec fn next_step(next: AskRun, verdict: AskVerdict, adopt_asks: u32, dry_run: bool) -> AskStep {
    match verdict {
        AskVerdict::Fits { .. } => if next.agreed + 1 < adopt_asks {
            AskStep::Agreeing { count: (next.agreed + 1) as u32 }
        } else if dry_run {
            AskStep::WouldAdopt
        } else {
            AskStep::Adopt
        },
        _ => AskStep::Refused,
    }
}

/// One ask's answer folded into the run: a refusal starts the run over
/// and seeds nothing; a fitting answer extends the run when it agrees
/// with the one on record and starts a new one otherwise; once
/// `adopt_asks` answers in a row agree, the saved map is adopted (or, on
/// a dry run, would be).
pub fn judge_ask(run: AskRun, verdict: AskVerdict, adopt_asks: u32, dry_run: bool) -> (res: (AskRun, AskStep))
    requires
        run.agreed + 2 <= u32::MAX,
    ensures
        res.0 == next_run(run, verdict),
        res.1 == next_step(res.0, verdict, adopt_asks, dry_run),
{
    match verdict {
        AskVerdict::Fits { agrees } => {
            let agreed = if agrees && run.seeded { run.agreed + 1 } else { 0 };
            let next = AskRun { seeded: true, agreed };
            let step = if agreed + 1 < adopt_asks {
                AskStep::Agreeing { count: agreed + 1 }
            } else if dry_run {
                AskStep::WouldAdopt
            } else {
                AskStep::Adopt
            };
            (next, step)
        },
        _ => (AskRun { seeded: false, agreed: 0 }, AskStep::Refused),
    }
}

/// The run after a whole series of answers, from a fresh start.
pub open spec fn run_after(verdicts: Seq<AskVerdict>) -> AskRun
    decreases verdicts.len(),
{
    if verdicts.len() == 0 {
        AskRun { seeded: false, agreed: 0 }
    } else {
        next_run(run_after(verdicts.drop_last()), verdicts.last())
    }
}

/// How many answers at the end of the series fit.
pub open spec fn fitting_tail(verdicts: Seq<AskVerdict>) -> nat
    decreases verdicts.len(),
{
    if verdicts.len() == 0 {
        0
    } else if verdicts.last() is Fits {
        fitting_tail(verdicts.drop_last()) + 1
    } else {
        0
    }
}

/// The run never counts more agreeing answers than the fitting answers
/// at the end of the series: a refusal anywhere wipes the slate.
pub proof fn run_counts_only_fitting_answers(verdicts: Seq<AskVerdict>)
    ensures
        run_after(verdicts).agreed + (if run_after(verdicts).seeded { 1int } else { 0int }) <= fitting_tail(
            verdicts,
        ),
        run_after(verdicts).seeded <==> fitting_tail(verdicts) > 0,
    decreases verdicts.len(),
{
    if verdicts.len() > 0 {
        run_counts_only_fitting_answers(verdicts.drop_last());
    }
}

/// A saved map is adopted only after at least `adopt_asks` answers in a
/// row (the one just in among them) cleared every bar, and never on a
/// dry run.
pub proof fn adoption_needs_a_run_of_fits(verdicts: Seq<AskVerdict>, verdict: AskVerdict, adopt_asks: u32, dry_run: bool)
    requires
        next_step(run_after(verdicts.push(verdict)), verdict, adopt_asks, dry_run) is Adopt,
    ensures
        fitting_tail(verdicts.push(verdict)) >= adopt_asks,
        !dry_run,
{
    run_counts_only_fitting_answers(verdicts.push(verdict));
    assert(verdicts.push(verdict).drop_last() =~= verdicts);
}

} // verus!
