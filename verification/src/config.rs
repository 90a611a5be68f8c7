//! The daemon's configuration choices that decide something: how the
//! hosted mapper inks the map, where the map is answered, which hand the
//! explorer turns to.

use vstd::prelude::*;

use crate::words::{chars_of, same_ignoring_case, spells_ignoring_case};

verus! {

/// When to paint scans into the map (`[maploc] mode`).
#[derive(Debug, Clone, Copy, PartialEq, Eq, Structural)]
pub enum MaplocMode {
    /// Integrate only while the robot stands still: the frames of a stop
    /// are voted against each other before any of them inks the map.
    StopAndScan,
    /// Also integrate while walking: more coverage, blurrier walls.
    Continuous,
    /// The map is what it is: nothing is inked, the pose is corrected
    /// against the map as saved.
    Localize,
}

impl MaplocMode {
    pub open spec fn spec_as_str(self) -> Seq<char> {
        match self {
            MaplocMode::StopAndScan => "stop_and_scan"@,
            MaplocMode::Continuous => "continuous"@,
            MaplocMode::Localize => "localize"@,
        }
    }

    /// The spelling `robot.map` reports.
    pub fn as_str(self) -> (s: &'static str)
        ensures
            s@ == self.spec_as_str(),
    {
        match self {
            MaplocMode::StopAndScan => "stop_and_scan",
            MaplocMode::Continuous => "continuous",
            MaplocMode::Localize => "localize",
        }
    }

    /// Whether scans are integrated while walking too.
    pub fn continuous(self) -> (c: bool)
        ensures
            c == (self == MaplocMode::Continuous),
    {
        match self {
            MaplocMode::Continuous => true,
            _ => false,
        }
    }

    /// Whether the map is held as saved, nothing inked.
    pub fn frozen(self) -> (f: bool)
        ensures
            f == (self == MaplocMode::Localize),
    {
        match self {
            MaplocMode::Localize => true,
            _ => false,
        }
    }
}

/// The mapper hosted in this daemon (`[maploc]`). Off by default, and
/// then the map comes from robotd's own `robot.map`.
#[derive(Debug, Clone)]
pub struct MaplocConfig {
    pub enabled: bool,
    pub mode: MaplocMode,
    /// Where the working session persists; the library of named maps is
    /// `maps/` beside it.
    pub map_path: String,
    /// Start from a clean slate instead of the saved session.
    pub wipe_on_boot: bool,
    /// Pan the head at every stop and while the pose is suspect.
    pub search_sweep: bool,
    /// When set, every tick and frame the mapper consumed is recorded here.
    pub record_dir: Option<String>,
    /// Where the map is served, in robotd's `robot.map*` dialect.
    pub socket: String,
}

impl Default for MaplocConfig {
    fn default() -> (c: Self)
        ensures
            !c.enabled,
            c.mode == MaplocMode::StopAndScan,
            c.map_path@ == "/var/lib/quack-nav/maploc.session"@,
            !c.wipe_on_boot,
            c.search_sweep,
            c.record_dir is None,
            c.socket@ == "/run/quack-nav/map.sock"@,
    {
        MaplocConfig {
            enabled: false,
            mode: MaplocMode::StopAndScan,
            map_path: "/var/lib/quack-nav/maploc.session".to_owned(),
            wipe_on_boot: false,
            search_sweep: true,
            record_dir: None,
            socket: "/run/quack-nav/map.sock".to_owned(),
        }
    }
}

/// Where `robot.map` and the map library answer: this daemon's own map
/// socket when it hosts the mapper, robotd's otherwise.
pub fn map_socket<'a>(maploc: &'a MaplocConfig, robotd_socket: &'a str) -> (s: &'a str)
    ensures
        s@ == if maploc.enabled {
            maploc.socket@
        } else {
            robotd_socket@
        },
{
    if maploc.enabled {
        maploc.socket.as_str()
    } else {
        robotd_socket
    }
}

/// The word `left`.
pub open spec fn left_word() -> Seq<char> {
    seq!['l', 'e', 'f', 't']
}

/// Whether the explorer turns left when the way on is blocked: the
/// `explore_turn` setting says `left`, in any case; anything else is the
/// right hand.
pub fn turns_left(explore_turn: &str) -> (left: bool)
    ensures
        left == same_ignoring_case(explore_turn@, left_word()),
{
    let word: [u8; 4] = [108, 101, 102, 116];
    let r = spells_ignoring_case(explore_turn, &word);
    proof {
        assert(chars_of(word@) =~= left_word());
    }
    r
}

} // verus!
