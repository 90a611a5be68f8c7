//! The explorer's rules that count: the job's state, the trusted floor
//! (the cells the duck walked or saw from a stand, which a leg may cross
//! blind), the distrust that stands in disagreement with the map build
//! up, the mode a job is in and what it allows, and when only slivers of
//! frontier are left to chase.

use vstd::prelude::*;
use std::collections::HashMap;

use crate::grid_index::lemma_index_in_grid;
use crate::words::{chars_of, contains_bytes, occurs_at, spells, text_bytes, text_contains, text_starts_with};

verus! {

broadcast use vstd::std_specs::hash::group_hash_axioms;

/// Where an exploring job stands.
#[derive(Debug, Clone, Copy, PartialEq, Eq, Structural)]
pub enum State {
    Idle,
    Running,
    Done,
    Stopped,
    Failed,
}

impl State {
    pub open spec fn spec_as_str(self) -> Seq<char> {
        match self {
            State::Idle => "idle"@,
            State::Running => "running"@,
            State::Done => "done"@,
            State::Stopped => "stopped"@,
            State::Failed => "failed"@,
        }
    }

    pub fn as_str(self) -> (s: &'static str)
        ensures
            s@ == self.spec_as_str(),
    {
        match self {
            State::Idle => "idle",
            State::Running => "running",
            State::Done => "done",
            State::Stopped => "stopped",
            State::Failed => "failed",
        }
    }
}

/// The key a cell of the trusted floor is kept under: its two indices
/// side by side in one word.
pub open spec fn cell_key(i: i32, j: i32) -> u64 {
    (((i as u32) as u64) << 32u64) | ((j as u32) as u64)
}

/// The cell a key stands for.
pub open spec fn key_cell(k: u64) -> (i32, i32) {
    (((k >> 32u64) as u32) as i32, (k as u32) as i32)
}

proof fn lemma_key_cell(i: i32, j: i32)
    ensures
        key_cell(cell_key(i, j)) == (i, j),
{
    let k = cell_key(i, j);
    assert((((((i as u32) as u64) << 32u64) | ((j as u32) as u64)) >> 32u64) as u32 as i32 == i) by (bit_vector);
    assert(((((i as u32) as u64) << 32u64) | ((j as u32) as u64)) as u32 as i32 == j) by (bit_vector);
}

proof fn lemma_cell_key(k: u64)
    ensures
        cell_key(key_cell(k).0, key_cell(k).1) == k,
{
    assert(((((((k >> 32u64) as u32) as i32) as u32) as u64) << 32u64) | ((((k as u32) as i32) as u32) as u64)
        == k) by (bit_vector);
}

/// The floor the duck has reason to trust, in cells of the trusted
/// floor's grid: each cell it walked (and a little around) or a stand's
/// frames vouched for. The cells it walked are kept apart too: a drop is
/// never booked where the body has stood.
pub struct TrustedFloor {
    /// Every trusted cell, by key; `true` where the body walked.
    cells: HashMap<u64, bool>,
}

impl TrustedFloor {
    /// The trusted cells.
    pub closed spec fn trusted(&self) -> Set<(i32, i32)> {
        Set::new(|c: (i32, i32)| self.cells@.dom().contains(cell_key(c.0, c.1)))
    }

    /// The cells the body walked.
    pub closed spec fn walked_cells(&self) -> Set<(i32, i32)> {
        Set::new(
            |c: (i32, i32)| self.cells@.dom().contains(cell_key(c.0, c.1)) && self.cells@[cell_key(c.0, c.1)],
        )
    }

    pub fn new() -> (f: Self)
        ensures
            f.trusted() == Set::<(i32, i32)>::empty(),
            f.walked_cells() == Set::<(i32, i32)>::empty(),
    {
        let f = TrustedFloor { cells: HashMap::new() };
        proof {
            assert(f.trusted() =~= Set::<(i32, i32)>::empty());
            assert(f.walked_cells() =~= Set::<(i32, i32)>::empty());
        }
        f
    }

    fn key(i: i32, j: i32) -> (k: u64)
        ensures
            k == cell_key(i, j),
    {
        ((i as u32 as u64) << 32u64) | (j as u32 as u64)
    }

    /// Trust the cell `(i, j)`.
    pub fn mark(&mut self, i: i32, j: i32)
        ensures
            final(self).trusted() == old(self).trusted().insert((i, j)),
            final(self).walked_cells() == old(self).walked_cells(),
    {
        let k = Self::key(i, j);
        if !self.cells.contains_key(&k) {
            self.cells.insert(k, false);
        }
        proof {
            lemma_key_cell(i, j);
            assert forall|c: (i32, i32)| #[trigger] self.trusted().contains(c) == old(self).trusted().insert(
                (i, j),
            ).contains(c) by {
                lemma_key_cell(c.0, c.1);
            }
            assert forall|c: (i32, i32)| #[trigger] self.walked_cells().contains(c)
                == old(self).walked_cells().contains(c) by {
                lemma_key_cell(c.0, c.1);
            }
            assert(self.trusted() =~= old(self).trusted().insert((i, j)));
            assert(self.walked_cells() =~= old(self).walked_cells());
        }
    }

    /// The body walked the cell `(i, j)`: trusted, and walked.
    pub fn mark_walked(&mut self, i: i32, j: i32)
        ensures
            final(self).trusted() == old(self).trusted().insert((i, j)),
            final(self).walked_cells() == old(self).walked_cells().insert((i, j)),
    {
        let k = Self::key(i, j);
        self.cells.insert(k, true);
        proof {
            lemma_key_cell(i, j);
            assert forall|c: (i32, i32)| #[trigger] self.trusted().contains(c) == old(self).trusted().insert(
                (i, j),
            ).contains(c) by {
                lemma_key_cell(c.0, c.1);
            }
            assert forall|c: (i32, i32)| #[trigger] self.walked_cells().contains(c)
                == old(self).walked_cells().insert((i, j)).contains(c) by {
                lemma_key_cell(c.0, c.1);
            }
            assert(self.trusted() =~= old(self).trusted().insert((i, j)));
            assert(self.walked_cells() =~= old(self).walked_cells().insert((i, j)));
        }
    }

    /// Whether the cell `(i, j)` is trusted.
    pub fn has(&self, i: i32, j: i32) -> (r: bool)
        ensures
            r == self.trusted().contains((i, j)),
    {
        self.cells.contains_key(&Self::key(i, j))
    }

    /// Whether the body walked the cell `(i, j)`.
    pub fn walked_at(&self, i: i32, j: i32) -> (r: bool)
        ensures
            r == self.walked_cells().contains((i, j)),
    {
        match self.cells.get(&Self::key(i, j)) {
            Some(w) => *w,
            None => false,
        }
    }

    /// How many cells are trusted.
    pub fn len(&self) -> (n: usize)
        ensures
            n == self.trusted().len(),
    {
        proof {
            let dom = self.cells@.dom();
            let f = |k: u64| key_cell(k);
            assert(vstd::relations::injective_on(f, dom)) by {
                assert forall|a: u64, b: u64| dom.contains(a) && dom.contains(b) && #[trigger] f(a) == #[trigger] f(
                    b,
                ) implies a == b by {
                    lemma_cell_key(a);
                    lemma_cell_key(b);
                }
            }
            assert(dom.map(f) =~= self.trusted()) by {
                assert forall|c: (i32, i32)| #[trigger] dom.map(f).contains(c) == self.trusted().contains(c) by {
                    lemma_key_cell(c.0, c.1);
                    if dom.map(f).contains(c) {
                        let k = choose|k: u64| dom.contains(k) && f(k) == c;
                        lemma_cell_key(k);
                    }
                    if self.trusted().contains(c) {
                        assert(dom.contains(cell_key(c.0, c.1)) && f(cell_key(c.0, c.1)) == c);
                    }
                }
            }
            vstd::set_lib::lemma_map_size(dom, self.trusted(), f);
        }
        self.cells.len()
    }
}

/// Every cell the body walked is trusted floor.
pub proof fn walked_floor_is_trusted(f: TrustedFloor)
    ensures
        f.walked_cells().subset_of(f.trusted()),
{
}

/// At least this many of a stand's beams must see past the map, and
/// three times the ones that agree with it, for the stand to disagree.
pub const DISAGREE_MIN: usize = 10;
/// This many disagreeing stands in a row earn a panorama.
pub const DISTRUST_PANORAMA: u32 = 2;
/// This many end the job as lost.
pub const DISTRUST_FAIL: u32 = 6;

/// What a stand's agreement between map and sensor calls for.
#[derive(Debug, Clone, Copy, PartialEq, Eq, Structural)]
pub enum StandCheck {
    /// The pose is lost: the job ends as failed.
    Lost,
    /// Look all the way round, for the mapper to find the duck again.
    Panorama,
    /// Nothing to do about the pose.
    CarryOn,
}

/// A stand disagrees with the map: enough beams see past it, and three
/// times as many as agree.
pub open spec fn spec_disagrees(agree: usize, disagree: usize) -> bool {
    disagree >= DISAGREE_MIN && disagree >= 3 * agree
}

/// The distrust after a stand whose beams `agree` with the map and
/// `disagree` with it: one more for a disagreeing stand, none after a
/// stand with any agreement, unchanged otherwise.
pub open spec fn distrust_after(distrust: u32, agree: usize, disagree: usize) -> int {
    if spec_disagrees(agree, disagree) {
        distrust + 1
    } else if agree > 0 {
        0
    } else {
        distrust as int
    }
}

/// One stand's check of the pose: the new distrust and what to do. Lost
/// once the distrust reaches [`DISTRUST_FAIL`]; a panorama when it
/// reaches [`DISTRUST_PANORAMA`], which itself counts once more so that
/// it is taken once per streak.
pub fn judge_stand(distrust: u32, agree: usize, disagree: usize) -> (res: (u32, StandCheck))
    requires
        distrust < u32::MAX,
        3 * agree <= usize::MAX,
    ensures
        ({
            let d = distrust_after(distrust, agree, disagree);
            if d >= DISTRUST_FAIL {
                res == (d as u32, StandCheck::Lost)
            } else if d == DISTRUST_PANORAMA {
                res == ((d + 1) as u32, StandCheck::Panorama)
            } else {
                res == (d as u32, StandCheck::CarryOn)
            }
        }),
{
    let d = if disagree >= DISAGREE_MIN && disagree >= 3 * agree {
        distrust + 1
    } else if agree > 0 {
        0
    } else {
        distrust
    };
    if d >= DISTRUST_FAIL {
        (d, StandCheck::Lost)
    } else if d == DISTRUST_PANORAMA {
        (d + 1, StandCheck::Panorama)
    } else {
        (d, StandCheck::CarryOn)
    }
}

/// What a job is doing: mapping a house, a journey blind on a frozen map
/// with its books, or a journey with the guards on.
#[derive(Debug, Clone, Copy, PartialEq, Eq, Structural)]
pub enum Mode {
    Mapping,
    JourneyBlind,
    JourneyGuarded,
}

/// The mode of a job now: no goal is mapping; a goal walked blind (a
/// frozen map with its books, the guards not asked for) a blind
/// journey; any other goal a guarded one.
pub fn mode_now(has_goal: bool, blind: bool) -> (m: Mode)
    ensures
        m == if !has_goal {
            Mode::Mapping
        } else if blind {
            Mode::JourneyBlind
        } else {
            Mode::JourneyGuarded
        },
{
    if !has_goal {
        Mode::Mapping
    } else if blind {
        Mode::JourneyBlind
    } else {
        Mode::JourneyGuarded
    }
}

/// The switches the environment may set, each on, off or left to the mode.
#[derive(Debug, Clone, Copy, PartialEq, Eq, Structural)]
pub struct Knobs {
    pub hug: Option<bool>,
    pub align_kick: Option<bool>,
    pub held_leg: Option<bool>,
    pub seal: Option<bool>,
    pub trusted_floor: Option<bool>,
    pub mouth_aim: Option<bool>,
    pub trusted_kick: Option<bool>,
    pub wall_fit: Option<bool>,
}

/// What a mode allows of the passage law and the planner.
#[derive(Debug, Clone, Copy, PartialEq, Eq, Structural)]
pub struct Switches {
    pub mode: Mode,
    /// The wall as the guide in a passage.
    pub hug: bool,
    /// The alignment by a guarded kick then yaw.
    pub align_kick: bool,
    /// The passage leg one held walk.
    pub held_leg: bool,
    /// A rim refused three times running is sealed for the planner.
    pub seal: bool,
    /// Legs over trusted floor walk blind.
    pub trusted_floor: bool,
    /// The aim on a passage's centre line while the body is off it.
    pub mouth_aim: bool,
    /// The short kick of a turn walks blind over trusted floor.
    pub trusted_kick: bool,
    /// The hug's wall line fitted to the wall's cells.
    pub wall_fit: bool,
}

/// A knob's setting, or the mode's own when it is not set.
pub open spec fn or_mode(knob: Option<bool>, own: bool) -> bool {
    match knob {
        Some(v) => v,
        None => own,
    }
}

fn pick(knob: Option<bool>, own: bool) -> (v: bool)
    ensures
        v == or_mode(knob, own),
{
    match knob {
        Some(v) => v,
        None => own,
    }
}

/// The switches of a mode: the passage law's experiments belong to the
/// guarded journey alone, trusted floor to every mode but the blind
/// journey, the mouth aim and the trusted kick to none; a knob that is
/// set overrides the mode.
pub fn switches_for(mode: Mode, knobs: Knobs) -> (s: Switches)
    ensures
        s.mode == mode,
        s.hug == or_mode(knobs.hug, mode == Mode::JourneyGuarded),
        s.align_kick == or_mode(knobs.align_kick, mode == Mode::JourneyGuarded),
        s.held_leg == or_mode(knobs.held_leg, mode == Mode::JourneyGuarded),
        s.seal == or_mode(knobs.seal, mode == Mode::JourneyGuarded),
        s.trusted_floor == or_mode(knobs.trusted_floor, mode != Mode::JourneyBlind),
        s.mouth_aim == or_mode(knobs.mouth_aim, false),
        s.trusted_kick == or_mode(knobs.trusted_kick, false),
        s.wall_fit == or_mode(knobs.wall_fit, mode == Mode::JourneyGuarded),
{
    let guarded = match mode {
        Mode::JourneyGuarded => true,
        _ => false,
    };
    let blind = match mode {
        Mode::JourneyBlind => true,
        _ => false,
    };
    Switches {
        mode,
        hug: pick(knobs.hug, guarded),
        align_kick: pick(knobs.align_kick, guarded),
        held_leg: pick(knobs.held_leg, guarded),
        seal: pick(knobs.seal, guarded),
        trusted_floor: pick(knobs.trusted_floor, !blind),
        mouth_aim: pick(knobs.mouth_aim, false),
        trusted_kick: pick(knobs.trusted_kick, false),
        wall_fit: pick(knobs.wall_fit, guarded),
    }
}

/// An on/off switch's setting: `1` on, `0` off, anything else (or
/// nothing) left to the mode.
pub fn switch_setting(value: Option<&str>) -> (r: Option<bool>)
    ensures
        r == match value {
            Some(v) => if v@ == seq!['1'] {
                Some(true)
            } else if v@ == seq!['0'] {
                Some(false)
            } else {
                None::<bool>
            },
            None => None::<bool>,
        },
{
    match value {
        Some(v) => {
            let one: [u8; 1] = [49];
            let zero: [u8; 1] = [48];
            proof {
                assert(chars_of(one@) =~= seq!['1']);
                assert(chars_of(zero@) =~= seq!['0']);
            }
            if spells(v, &one) {
                Some(true)
            } else if spells(v, &zero) {
                Some(false)
            } else {
                None
            }
        },
        None => None,
    }
}

/// Frontier groups at least this big are served first, wherever they are.
pub const BIG_FRONTIER_CELLS: usize = 20;
/// In the sliver phase, this many rounds without the map growing end the job.
pub const SLIVER_PATIENCE: u32 = 12;
/// The growth, in free cells, that counts as the map growing.
pub const SLIVER_GROWTH_CELLS: usize = 30;

/// The sliver phase's books: the free cells when the map last grew, and
/// the rounds served since.
#[derive(Debug, Clone, Copy, PartialEq, Eq, Structural)]
pub struct SliverWatch {
    pub base: Option<usize>,
    pub served: u32,
}

/// The books after one round: `largest` is the size of the largest
/// frontier group on the map, `free` its free cells.
pub open spec fn next_watch(w: SliverWatch, largest: usize, free: usize) -> SliverWatch {
    if largest >= BIG_FRONTIER_CELLS {
        SliverWatch { base: None, served: 0 }
    } else {
        match w.base {
            Some(b) => if free >= b + SLIVER_GROWTH_CELLS {
                SliverWatch { base: Some(free), served: 0 }
            } else {
                SliverWatch { base: Some(b), served: (w.served + 1) as u32 }
            },
            None => SliverWatch { base: Some(free), served: (w.served + 1) as u32 },
        }
    }
}

/// Whether the round ends the job: only slivers remain, and the map has
/// not grown for more than [`SLIVER_PATIENCE`] rounds.
pub open spec fn sliver_done(w: SliverWatch, largest: usize, free: usize) -> bool {
    &&& largest < BIG_FRONTIER_CELLS
    &&& w.base is Some
    &&& free < w.base->0 + SLIVER_GROWTH_CELLS
    &&& w.served + 1 > SLIVER_PATIENCE
}

impl SliverWatch {
    pub fn fresh() -> (w: Self)
        ensures
            w.base is None,
            w.served == 0,
    {
        SliverWatch { base: None, served: 0 }
    }
}

/// One round of the sliver rule: a big frontier anywhere clears the
/// books; otherwise the round counts, unless the map grew enough since
/// the books were opened, and too many such rounds end the job.
pub fn sliver_round(w: SliverWatch, largest: usize, free: usize) -> (res: (SliverWatch, bool))
    requires
        w.served < u32::MAX,
    ensures
        res.0 == next_watch(w, largest, free),
        res.1 == sliver_done(w, largest, free),
{
    if largest >= BIG_FRONTIER_CELLS {
        return (SliverWatch { base: None, served: 0 }, false);
    }
    let served = w.served + 1;
    match w.base {
        Some(b) => {
            if free >= b && free - b >= SLIVER_GROWTH_CELLS {
                (SliverWatch { base: Some(free), served: 0 }, false)
            } else {
                (SliverWatch { base: Some(b), served }, served > SLIVER_PATIENCE)
            }
        },
        None => (SliverWatch { base: Some(free), served }, false),
    }
}

/// The books after a series of rounds `(largest, free)`, from fresh.
pub open spec fn watch_after(rounds: Seq<(usize, usize)>) -> SliverWatch
    decreases rounds.len(),
{
    if rounds.len() == 0 {
        SliverWatch { base: None, served: 0 }
    } else {
        next_watch(watch_after(rounds.drop_last()), rounds.last().0, rounds.last().1)
    }
}

/// How many rounds at the end of the series saw only slivers.
pub open spec fn sliver_tail(rounds: Seq<(usize, usize)>) -> nat
    decreases rounds.len(),
{
    if rounds.len() == 0 {
        0
    } else if rounds.last().0 < BIG_FRONTIER_CELLS {
        sliver_tail(rounds.drop_last()) + 1
    } else {
        0
    }
}

proof fn lemma_served_within_tail(rounds: Seq<(usize, usize)>)
    requires
        rounds.len() < u32::MAX,
    ensures
        watch_after(rounds).served <= sliver_tail(rounds),
        sliver_tail(rounds) <= rounds.len(),
    decreases rounds.len(),
{
    if rounds.len() > 0 {
        lemma_served_within_tail(rounds.drop_last());
    }
}

/// The sliver rule never ends a job before more than [`SLIVER_PATIENCE`]
/// rounds in a row (the last among them) have seen only slivers.
pub proof fn slivers_end_a_job_only_after_patience(rounds: Seq<(usize, usize)>, largest: usize, free: usize)
    requires
        rounds.len() < u32::MAX,
        sliver_done(watch_after(rounds), largest, free),
    ensures
        sliver_tail(rounds.push((largest, free))) > SLIVER_PATIENCE,
{
    lemma_served_within_tail(rounds);
    assert(rounds.push((largest, free)).drop_last() =~= rounds);
}

/// What a refused leg's reason calls for.
#[derive(Debug, Clone, Copy, PartialEq, Eq, Structural)]
pub enum RefusalKind {
    /// The robot is lost, or the goal unreachable: the job fails.
    Lost,
    /// The passage law names the turn that makes the leg fit.
    TurnInPlace { left: bool },
    /// Too narrow for the body.
    Passage,
    /// The books' own drop refused the leg; nothing new was seen.
    BookedDrop,
    /// The sensor saw a drop on the way.
    Drop,
    /// Something in the way: what the sensor sees, or a mapped wall.
    Obstacle,
    /// The leg stalled.
    DidNotMove,
    /// The way ahead has not been looked at.
    Unlooked,
    /// Seated, or not sure of the pose.
    Unsure,
    /// Anything else.
    Other,
}

/// The reason `e` says `p` somewhere.
pub open spec fn says(e: Seq<char>, p: Seq<char>) -> bool {
    contains_bytes(text_bytes(e), text_bytes(p))
}

/// The reason `e` begins with `p`.
pub open spec fn opens_with(e: Seq<char>, p: Seq<char>) -> bool {
    occurs_at(text_bytes(e), text_bytes(p), 0)
}

/// How the reason a leg was refused is read: the first of these that
/// fits.
pub open spec fn spec_refusal_kind(e: Seq<char>) -> RefusalKind {
    if says(e, "robot lost"@) || says(e, "unreachable"@) {
        RefusalKind::Lost
    } else if says(e, "turn in place"@) {
        RefusalKind::TurnInPlace { left: says(e, "turn in place left"@) }
    } else if opens_with(e, "a passage"@) {
        RefusalKind::Passage
    } else if opens_with(e, "a drop"@) && says(e, "on the books at"@) {
        RefusalKind::BookedDrop
    } else if opens_with(e, "a drop"@) {
        RefusalKind::Drop
    } else if says(e, "sensor sees something"@) || opens_with(e, "a wall"@) {
        RefusalKind::Obstacle
    } else if says(e, "did not move"@) {
        RefusalKind::DidNotMove
    } else if says(e, "has not looked"@) || says(e, "unmapped space"@) {
        RefusalKind::Unlooked
    } else if says(e, "seated"@) || says(e, "not sure"@) {
        RefusalKind::Unsure
    } else {
        RefusalKind::Other
    }
}

/// What a refused leg's reason `e` calls for.
pub fn refusal_kind(e: &str) -> (k: RefusalKind)
    ensures
        k == spec_refusal_kind(e@),
{
    if text_contains(e, "robot lost") || text_contains(e, "unreachable") {
        RefusalKind::Lost
    } else if text_contains(e, "turn in place") {
        RefusalKind::TurnInPlace { left: text_contains(e, "turn in place left") }
    } else if text_starts_with(e, "a passage") {
        RefusalKind::Passage
    } else if text_starts_with(e, "a drop") && text_contains(e, "on the books at") {
        RefusalKind::BookedDrop
    } else if text_starts_with(e, "a drop") {
        RefusalKind::Drop
    } else if text_contains(e, "sensor sees something") || text_starts_with(e, "a wall") {
        RefusalKind::Obstacle
    } else if text_contains(e, "did not move") {
        RefusalKind::DidNotMove
    } else if text_contains(e, "has not looked") || text_contains(e, "unmapped space") {
        RefusalKind::Unlooked
    } else if text_contains(e, "seated") || text_contains(e, "not sure") {
        RefusalKind::Unsure
    } else {
        RefusalKind::Other
    }
}

/// Refusals on the way to the same frontier before it is left alone.
pub const REFUSALS_PER_TARGET: u32 = 4;
/// Refusals in a row, no leg between, before backing out of the spot.
pub const REFUSAL_STREAK_MAX: u32 = 6;

/// The refusals counted so far: those on the way to the frontier aimed
/// at (none without one), and those since the last leg that walked.
#[derive(Debug, Clone, Copy, PartialEq, Eq, Structural)]
pub struct RefusalTally {
    pub on_target: Option<u32>,
    pub since_leg: u32,
}

/// What a refusal's count calls for.
#[derive(Debug, Clone, Copy, PartialEq, Eq, Structural)]
pub struct RefusalCall {
    /// Leave the frontier aimed at alone.
    pub leave_target: bool,
    /// Back out of the spot.
    pub unseal: bool,
}

/// The tally after one more refusal, and what it calls for: a frontier
/// refused [`REFUSALS_PER_TARGET`] times is left alone; after
/// [`REFUSAL_STREAK_MAX`] refusals with no leg between, the duck backs
/// out of the spot, which leaves the frontier too and starts the streak
/// over.
pub fn count_refusal(t: RefusalTally) -> (res: (RefusalTally, RefusalCall))
    requires
        t.since_leg < u32::MAX,
        t.on_target matches Some(n) ==> n < u32::MAX,
    ensures
        ({
            let aimed = match t.on_target {
                Some(n) => if n + 1 >= REFUSALS_PER_TARGET { None::<u32> } else { Some((n + 1) as u32) },
                None => None::<u32>,
            };
            let unseal = t.since_leg + 1 >= REFUSAL_STREAK_MAX;
            &&& res.1.unseal == unseal
            &&& res.1.leave_target == ((t.on_target is Some && aimed is None) || (unseal && aimed is Some))
            &&& res.0 == if unseal {
                RefusalTally { on_target: None, since_leg: 0 }
            } else {
                RefusalTally { on_target: aimed, since_leg: (t.since_leg + 1) as u32 }
            }
        }),
{
    let mut leave = false;
    let aimed = match t.on_target {
        Some(n) => if n + 1 >= REFUSALS_PER_TARGET {
            leave = true;
            None
        } else {
            Some(n + 1)
        },
        None => None,
    };
    let since_leg = t.since_leg + 1;
    if since_leg >= REFUSAL_STREAK_MAX {
        let leave_now = match aimed {
            Some(_) => true,
            None => leave,
        };
        (RefusalTally { on_target: None, since_leg: 0 }, RefusalCall { leave_target: leave_now, unseal: true })
    } else {
        (RefusalTally { on_target: aimed, since_leg }, RefusalCall { leave_target: leave, unseal: false })
    }
}

/// Proposal `i` goes on the books: an obstacle edge always; a hole only
/// when a hole from another frame lies near it (`near` is row-major,
/// `near[i * n + j]` saying whether proposal `j` lies near proposal `i`).
pub open spec fn believed(frame: Seq<usize>, hole: Seq<bool>, near: Seq<bool>, i: int) -> bool {
    let n = frame.len() as int;
    !hole[i] || exists|j: int| 0 <= j < n && #[trigger] hole[j] && near[i * n + j] && frame[j] != frame[i]
}

/// Which of a stand's proposals go on the books: a hole needs two frames
/// to be believed — a single frame's hole stays off — while an obstacle
/// edge is cheap to keep. `frame[i]` is the frame that proposed `i`,
/// `hole[i]` whether it is a hole.
pub fn vote_drops(frame: &Vec<usize>, hole: &Vec<bool>, near: &Vec<bool>) -> (kept: Vec<bool>)
    requires
        hole@.len() == frame@.len(),
        near@.len() == frame@.len() * frame@.len(),
    ensures
        kept@.len() == frame@.len(),
        forall|i: int| 0 <= i < frame@.len() ==> #[trigger] kept@[i] == believed(frame@, hole@, near@, i),
{
    let n = frame.len();
    let m = near.len();
    let mut kept: Vec<bool> = Vec::new();
    let mut i: usize = 0;
    while i < n
        invariant
            n == frame@.len(),
            m == near@.len(),
            hole@.len() == n,
            near@.len() == n * n,
            i <= n,
            kept@.len() == i,
            forall|k: int| 0 <= k < i ==> #[trigger] kept@[k] == believed(frame@, hole@, near@, k),
        decreases n - i,
    {
        let mut keep = !hole[i];
        if hole[i] {
            let mut j: usize = 0;
            while j < n
                invariant
                    n == frame@.len(),
                    m == near@.len(),
                    hole@.len() == n,
                    near@.len() == n * n,
                    i < n,
                    j <= n,
                    hole@[i as int],
                    keep == exists|k: int|
                        0 <= k < j && #[trigger] hole@[k] && near@[i * n + k] && frame@[k] != frame@[i as int],
                decreases n - j,
            {
                proof {
                    lemma_index_in_grid(i as int, j as int, n as int, n as int);
                }
                if hole[j] && near[i * n + j] && frame[j] != frame[i] {
                    keep = true;
                }
                j += 1;
            }
        }
        kept.push(keep);
        i += 1;
    }
    kept
}


/// What the vote keeps: an obstacle edge always; a hole never when every
/// proposal came from one frame, whatever lies near what; and a hole
/// always when a hole from another frame lies near it.
pub proof fn one_frame_never_books_a_hole(frame: Seq<usize>, hole: Seq<bool>, near: Seq<bool>, i: int)
    requires
        hole.len() == frame.len(),
        near.len() == frame.len() * frame.len(),
        0 <= i < frame.len(),
    ensures
        !hole[i] ==> believed(frame, hole, near, i),
        hole[i] && (forall|j: int| 0 <= j < frame.len() ==> #[trigger] frame[j] == frame[i]) ==> !believed(
            frame,
            hole,
            near,
            i,
        ),
        forall|j: int|
            0 <= j < frame.len() && hole[i] && #[trigger] hole[j] && near[i * frame.len() + j] && frame[j] != frame[i]
                ==> believed(frame, hole, near, i),
{
}
} // verus!
