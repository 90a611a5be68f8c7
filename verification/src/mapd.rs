//! The hosted mapper's own decisions: when the head sweeps, what the
//! body is doing, which depth zones count, which odometry sample a depth
//! frame is paired with, which frames wait for a later sample, and how
//! the rendered map's log-odds become the wire's cells.

use vstd::prelude::*;

use crate::words::{chars_of, spells};

verus! {

pub open spec fn stand_word() -> Seq<char> {
    seq!['s', 't', 'a', 'n', 'd']
}

pub open spec fn walk_word() -> Seq<char> {
    seq!['w', 'a', 'l', 'k']
}

pub open spec fn sit_word() -> Seq<char> {
    seq!['s', 'i', 't']
}

pub open spec fn held_word() -> Seq<char> {
    seq!['h', 'e', 'l', 'd']
}

/// A step label the policy drives the robot under: standing or walking.
pub open spec fn driven_label(policy: Seq<char>) -> bool {
    policy == stand_word() || policy == walk_word()
}

/// A step label under which the robot can be still: walking, standing,
/// sitting or held. Every other label (a skill, a rise, a pick, homing,
/// riding a fall) is the robot doing something.
pub open spec fn still_label(policy: Seq<char>) -> bool {
    policy == stand_word() || policy == walk_word() || policy == sit_word() || policy == held_word()
}

fn is_stand(policy: &str) -> (r: bool)
    ensures
        r == (policy@ == stand_word()),
{
    let w: [u8; 5] = [115, 116, 97, 110, 100];
    let r = spells(policy, &w);
    proof {
        assert(chars_of(w@) =~= stand_word());
    }
    r
}

fn is_walk(policy: &str) -> (r: bool)
    ensures
        r == (policy@ == walk_word()),
{
    let w: [u8; 4] = [119, 97, 108, 107];
    let r = spells(policy, &w);
    proof {
        assert(chars_of(w@) =~= walk_word());
    }
    r
}

fn is_held(policy: &str) -> (r: bool)
    ensures
        r == (policy@ == held_word()),
{
    let w: [u8; 4] = [104, 101, 108, 100];
    let r = spells(policy, &w);
    proof {
        assert(chars_of(w@) =~= held_word());
    }
    r
}

/// Whether the step label is `sit`: the robot is seated.
pub fn sitting(policy: &str) -> (r: bool)
    ensures
        r == (policy@ == sit_word()),
{
    let w: [u8; 3] = [115, 105, 116];
    let r = spells(policy, &w);
    proof {
        assert(chars_of(w@) =~= sit_word());
    }
    r
}

/// Whether the head sweeps: only a robot the policy is driving (standing
/// or walking), not seated, not fallen, and — outside the continuous
/// mode — only while it stands still.
pub fn sweeps(policy: &str, moving: bool, sitting: bool, fallen: bool, continuous: bool) -> (r: bool)
    ensures
        r == (driven_label(policy@) && !sitting && !fallen && (!moving || continuous)),
{
    let driving = is_stand(policy) || is_walk(policy);
    driving && !sitting && !fallen && (!moving || continuous)
}

/// The loop's own "the robot is doing something": the twist it applied
/// is not zero (`twist_positive`), or the step label is not one under
/// which the robot can be still.
pub fn moving(policy: &str, twist_positive: bool) -> (r: bool)
    ensures
        r == (twist_positive || !still_label(policy@)),
{
    let still = is_walk(policy) || is_stand(policy) || sitting(policy) || is_held(policy);
    twist_positive || !still
}

/// A log-odds value above this is a wall.
pub const WALL_LOG_ODDS: i32 = 150;
/// A log-odds value below this is free floor.
pub const FREE_LOG_ODDS: i32 = -50;

/// The wire's cell for one log-odds value: 2 a wall, 1 free floor, 0 not
/// known either way.
pub open spec fn spec_ink(lo: i32) -> u8 {
    if lo > WALL_LOG_ODDS {
        2
    } else if lo < FREE_LOG_ODDS {
        1
    } else {
        0
    }
}

pub fn ink(lo: i32) -> (c: u8)
    ensures
        c == spec_ink(lo),
{
    if lo > WALL_LOG_ODDS {
        2
    } else if lo < FREE_LOG_ODDS {
        1
    } else {
        0
    }
}

/// The rendered grid's cells, row-major, as the wire carries them.
pub fn render_cells(log_odds: &Vec<i32>) -> (cells: Vec<u8>)
    ensures
        cells@.len() == log_odds@.len(),
        forall|i: int| 0 <= i < log_odds@.len() ==> #[trigger] cells@[i] == spec_ink(log_odds@[i]),
{
    let mut cells: Vec<u8> = Vec::new();
    let mut i: usize = 0;
    while i < log_odds.len()
        invariant
            i <= log_odds@.len(),
            cells@.len() == i,
            forall|j: int| 0 <= j < i ==> #[trigger] cells@[j] == spec_ink(log_odds@[j]),
        decreases log_odds@.len() - i,
    {
        cells.push(ink(log_odds[i]));
        i += 1;
    }
    cells
}

/// A depth zone's status that means the measurement can be trusted.
pub open spec fn trusted_status(status: u8) -> bool {
    status == 5 || status == 9
}

/// A depth frame's zones, each kept (in millimetres) only where the
/// sensor trusts it and measured something; `None` when the frame does
/// not have `zones` distances and statuses.
pub fn valid_zones(distance_mm: &Vec<i16>, status: &Vec<u8>, zones: usize) -> (out: Option<Vec<Option<i16>>>)
    ensures
        match out {
            None => distance_mm@.len() != zones || status@.len() != zones,
            Some(z) => {
                &&& distance_mm@.len() == zones
                &&& status@.len() == zones
                &&& z@.len() == zones
                &&& forall|i: int|
                    0 <= i < zones ==> #[trigger] z@[i] == if trusted_status(status@[i]) && distance_mm@[i] > 0 {
                        Some(distance_mm@[i])
                    } else {
                        None
                    }
            },
        },
{
    if distance_mm.len() != zones || status.len() != zones {
        return None;
    }
    let mut z: Vec<Option<i16>> = Vec::new();
    let mut i: usize = 0;
    while i < zones
        invariant
            distance_mm@.len() == zones,
            status@.len() == zones,
            i <= zones,
            z@.len() == i,
            forall|j: int|
                0 <= j < i ==> #[trigger] z@[j] == if trusted_status(status@[j]) && distance_mm@[j] > 0 {
                    Some(distance_mm@[j])
                } else {
                    None
                },
        decreases zones - i,
    {
        let s = status[i];
        let mm = distance_mm[i];
        if (s == 5 || s == 9) && mm > 0 {
            z.push(Some(mm));
        } else {
            z.push(None);
        }
        i += 1;
    }
    Some(z)
}

/// `k` is the first sample stamped at or after `t`.
pub open spec fn first_at_or_after(times: Seq<u64>, t: u64, k: int) -> bool {
    &&& 0 <= k < times.len()
    &&& times[k] >= t
    &&& forall|j: int| 0 <= j < k ==> #[trigger] times[j] < t
}

/// Which odometry sample a depth frame stamped `t_ns` is paired with: the
/// first of the recent samples (`times`, their stamps, oldest first)
/// stamped at or after it, when one before it brackets the instant; with
/// how far the newest sample is past the frame, in microseconds. `None`
/// when the frame has no stamp, fewer than two samples are kept, the
/// newest is older than the frame, or the oldest is not older than it.
pub fn pair_at(times: &Vec<u64>, t_ns: u64) -> (r: Option<(usize, u64)>)
    ensures
        match r {
            None => t_ns == 0 || times@.len() < 2 || times@.last() < t_ns || times@[0] >= t_ns,
            Some((after, lag_us)) => {
                &&& t_ns != 0
                &&& times@.len() >= 2
                &&& times@.last() >= t_ns
                &&& after >= 1
                &&& first_at_or_after(times@, t_ns, after as int)
                &&& lag_us == (times@.last() - t_ns) / 1000
            },
        },
{
    let n = times.len();
    if t_ns == 0 || n < 2 {
        return None;
    }
    let last = times[n - 1];
    if last < t_ns {
        return None;
    }
    let mut k: usize = 0;
    while times[k] < t_ns
        invariant
            n == times@.len(),
            n >= 2,
            times@[n - 1] >= t_ns,
            k < n,
            forall|j: int| 0 <= j < k ==> #[trigger] times@[j] < t_ns,
        decreases n - k,
    {
        k += 1;
    }
    if k == 0 {
        return None;
    }
    Some((k, (last - t_ns) / 1000))
}

/// How long a frame may wait for the sample of its own instant, at most.
pub const STALE_NS: u64 = 200_000_000;
/// How many frames may wait at once; the oldest goes first.
pub const PENDING_MAX: usize = 8;

/// `a + b`, held at the top of `u64`.
pub open spec fn sat_add(a: u64, b: u64) -> int {
    if a + b > u64::MAX {
        u64::MAX as int
    } else {
        a + b
    }
}

/// `a - b`, held at zero.
pub open spec fn sat_sub(a: u64, b: u64) -> int {
    if a < b {
        0
    } else {
        a - b
    }
}

/// Whether a frame stamped `frame_t` waits for a later sample: it has a
/// stamp, and the newest sample is older than the stamp plus the head's
/// lead.
pub fn waits(frame_t: u64, newest_sample_t: Option<u64>, lead_ns: u64) -> (w: bool)
    ensures
        w == (frame_t > 0 && match newest_sample_t {
            Some(s) => s < sat_add(frame_t, lead_ns),
            None => false,
        }),
{
    if frame_t == 0 {
        return false;
    }
    match newest_sample_t {
        Some(s) => s < frame_t.saturating_add(lead_ns),
        None => false,
    }
}

/// A waiting frame stamped `frame_t` is done waiting at a sample stamped
/// `sample_t`: the sample brackets it, or it has waited too long.
pub open spec fn ready(frame_t: u64, sample_t: u64, lead_ns: u64) -> bool {
    sat_add(frame_t, lead_ns) <= sample_t || sat_sub(sample_t, frame_t) > STALE_NS
}

/// The newest [`PENDING_MAX`] of `s`.
pub open spec fn newest<T>(s: Seq<(u64, T)>) -> Seq<(u64, T)> {
    if s.len() > PENDING_MAX {
        s.skip(s.len() - PENDING_MAX)
    } else {
        s
    }
}

/// How many of `s`, from the front, are ready at `sample_t`.
pub open spec fn ready_prefix<T>(s: Seq<(u64, T)>, sample_t: u64, lead_ns: u64, k: int) -> bool {
    &&& 0 <= k <= s.len()
    &&& forall|j: int| 0 <= j < k ==> ready(#[trigger] s[j].0, sample_t, lead_ns)
    &&& (k < s.len() ==> !ready(s[k].0, sample_t, lead_ns))
}

/// The depth frames that wait for the odometry sample of their own
/// instant, oldest first, each with its stamp.
pub struct Pending<T> {
    items: Vec<(u64, T)>,
}

impl<T> View for Pending<T> {
    type V = Seq<(u64, T)>;

    closed spec fn view(&self) -> Seq<(u64, T)> {
        self.items@
    }
}

impl<T> Pending<T> {
    pub fn new() -> (p: Self)
        ensures
            p@ == Seq::<(u64, T)>::empty(),
    {
        Pending { items: Vec::new() }
    }

    pub fn len(&self) -> (n: usize)
        ensures
            n == self@.len(),
    {
        self.items.len()
    }

    /// Queue a frame; past [`PENDING_MAX`] the oldest are dropped.
    pub fn hold(&mut self, frame_t: u64, frame: T)
        ensures
            final(self)@ == newest(old(self)@.push((frame_t, frame))),
    {
        let ghost all = self.items@.push((frame_t, frame));
        self.items.push((frame_t, frame));
        let ghost mut dropped: int = 0;
        while self.items.len() > PENDING_MAX
            invariant
                0 <= dropped <= all.len(),
                self.items@ == all.skip(dropped),
                dropped > 0 ==> all.len() - dropped >= PENDING_MAX,
            decreases self.items@.len(),
        {
            self.items.remove(0);
            proof {
                assert(all.skip(dropped).skip(1) =~= all.skip(dropped + 1));
                dropped = dropped + 1;
            }
        }
        proof {
            if all.len() > PENDING_MAX {
                assert(dropped == all.len() - PENDING_MAX);
            } else {
                assert(dropped == 0);
                assert(all.skip(0) =~= all);
            }
        }
    }

    /// At a sample stamped `sample_t`, the frames at the front that are
    /// ready, in order; the rest keep waiting.
    pub fn release(&mut self, sample_t: u64, lead_ns: u64) -> (out: Vec<T>)
        ensures
            exists|k: int|
                #![trigger ready_prefix(old(self)@, sample_t, lead_ns, k)]
                ready_prefix(old(self)@, sample_t, lead_ns, k) && final(self)@ == old(self)@.skip(k) && out@
                    == old(self)@.take(k).map_values(|x: (u64, T)| x.1),
    {
        let ghost all = self.items@;
        let mut out: Vec<T> = Vec::new();
        let ghost mut k: int = 0;
        loop
            invariant
                0 <= k <= all.len(),
                self.items@ == all.skip(k),
                forall|j: int| 0 <= j < k ==> ready(#[trigger] all[j].0, sample_t, lead_ns),
                out@ == all.take(k).map_values(|x: (u64, T)| x.1),
            ensures
                k == all.len() || !ready(all[k].0, sample_t, lead_ns),
            decreases self.items@.len(),
        {
            if self.items.len() == 0 {
                break;
            }
            let t = self.items[0].0;
            let done = t.saturating_add(lead_ns) <= sample_t || sample_t.saturating_sub(t) > STALE_NS;
            if !done {
                break;
            }
            let (_, frame) = self.items.remove(0);
            out.push(frame);
            proof {
                assert(all.skip(k).skip(1) =~= all.skip(k + 1));
                assert(all.take(k + 1).map_values(|x: (u64, T)| x.1) =~= all.take(k).map_values(
                    |x: (u64, T)| x.1,
                ).push(all[k].1));
                k = k + 1;
            }
        }
        proof {
            assert(ready_prefix(all, sample_t, lead_ns, k));
            assert(self.items@ == all.skip(k));
            assert(all == old(self)@);
            assert(ready_prefix(old(self)@, sample_t, lead_ns, k) && self@ == old(self)@.skip(k) && out@
                == old(self)@.take(k).map_values(|x: (u64, T)| x.1));
        }
        out
    }
}

} // verus!
