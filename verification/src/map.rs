//! The live occupancy map, as the mapper publishes it: the frame's grid
//! of cells, its base64 reader, and the status a map lane keeps.

use vstd::prelude::*;

use crate::wire::{
    PAD, all_in_alphabet, b64_value, decode_chunk, decode_groups, prepend, spec_b64_decode, trim_pad,
    value_or_zero,
};

verus! {

/// The six-bit group of one byte of base64 text.
fn value(c: u8) -> (v: Option<u32>)
    ensures
        match b64_value(c) {
            Some(x) => v == Some(x as u32) && x < 64,
            None => v is None,
        },
{
    if 65 <= c && c <= 90 {
        Some((c - 65) as u32)
    } else if 97 <= c && c <= 122 {
        Some((c - 97) as u32 + 26)
    } else if 48 <= c && c <= 57 {
        Some((c - 48) as u32 + 52)
    } else if c == 43 {
        Some(62)
    } else if c == 47 {
        Some(63)
    } else {
        None
    }
}

proof fn lemma_bytes_of_word(v0: u32, v1: u32, v2: u32, v3: u32)
    requires
        v0 < 64,
        v1 < 64,
        v2 < 64,
        v3 < 64,
    ensures
        ({
            let acc = (v0 << 18u32) | (v1 << 12u32) | (v2 << 6u32) | v3;
            &&& (acc >> 16u32) as u8 == (v0 * 4 + v1 / 16) as u8
            &&& (acc >> 8u32) as u8 == ((v1 % 16) * 16 + v2 / 4) as u8
            &&& acc as u8 == ((v2 % 4) * 64 + v3) as u8
        }),
{
    assert({
        let acc = (v0 << 18u32) | (v1 << 12u32) | (v2 << 6u32) | v3;
        &&& (acc >> 16u32) as u8 == (v0 * 4 + v1 / 16) as u8
        &&& (acc >> 8u32) as u8 == ((v1 % 16) * 16 + v2 / 4) as u8
        &&& acc as u8 == ((v2 % 4) * 64 + v3) as u8
    }) by (bit_vector)
        requires
            v0 < 64,
            v1 < 64,
            v2 < 64,
            v3 < 64,
    ;
}

proof fn lemma_trim_step(s: Seq<u8>, end: int)
    requires
        0 < end <= s.len(),
        s[end - 1] == PAD,
    ensures
        trim_pad(s.take(end)) == trim_pad(s.take(end - 1)),
{
    assert(s.take(end).drop_last() =~= s.take(end - 1));
}

proof fn lemma_groups_unfold(s: Seq<u8>, i: int)
    requires
        0 <= i < s.len(),
    ensures
        ({
            let rest = s.skip(i);
            let n = if rest.len() < 4 { rest.len() } else { 4 };
            let c = rest.take(n as int);
            decode_groups(rest) == if n == 1 || !all_in_alphabet(c) {
                None
            } else {
                prepend(decode_chunk(c), decode_groups(s.skip(i + n)))
            }
        }),
{
    let rest = s.skip(i);
    let n = if rest.len() < 4 { rest.len() } else { 4 };
    assert(rest.skip(n as int) =~= s.skip(i + n));
}

/// Standard base64 (RFC 4648, padded), as the mapper spells it. Owned
/// here so reading a map costs no dependency. `None` for text that is
/// not base64: a byte outside the alphabet, or a lone character left
/// over at the end.
pub fn b64_decode(input: &str) -> (res: Option<Vec<u8>>)
    ensures
        match res {
            Some(v) => spec_b64_decode(vstd::utf8::encode_utf8(input@)) == Some(v@),
            None => spec_b64_decode(vstd::utf8::encode_utf8(input@)) is None,
        },
{
    let bytes = input.as_bytes();
    let ghost text = bytes@;
    assert(text == vstd::utf8::encode_utf8(input@));
    let mut end = bytes.len();
    assert(text.take(end as int) =~= text);
    while end > 0 && bytes[end - 1] == PAD
        invariant
            end <= text.len(),
            text == bytes@,
            trim_pad(text) == trim_pad(text.take(end as int)),
        decreases end,
    {
        proof {
            lemma_trim_step(text, end as int);
        }
        end -= 1;
    }
    let ghost s = text.take(end as int);
    proof {
        if end > 0 {
            assert(s.last() != PAD);
        }
        assert(trim_pad(s) == s);
        assert(s.skip(0) =~= s);
    }
    let mut out: Vec<u8> = Vec::new();
    let mut i: usize = 0;
    while i < end
        invariant
            end <= text.len(),
            text == bytes@,
            text == vstd::utf8::encode_utf8(input@),
            s == text.take(end as int),
            i <= end,
            trim_pad(text) == s,
            decode_groups(s) == prepend(out@, decode_groups(s.skip(i as int))),
        decreases end - i,
    {
        proof {
            lemma_groups_unfold(s, i as int);
        }
        let len: usize = if end - i < 4 { end - i } else { 4 };
        let ghost c = s.skip(i as int).take(len as int);
        proof {
            assert(s.skip(i as int).len() == end - i);
            assert(c.len() == len);
        }
        if len == 1 {
            assert(decode_groups(s.skip(i as int)) is None);
                assert(spec_b64_decode(text) is None);
            return None;
        }
        let v0 = match value(bytes[i]) {
            Some(v) => v,
            None => {
                assert(b64_value(c[0]) is None);
                assert(!all_in_alphabet(c));
                assert(decode_groups(s.skip(i as int)) is None);
                assert(spec_b64_decode(text) is None);
                return None;
            },
        };
        let v1 = match value(bytes[i + 1]) {
            Some(v) => v,
            None => {
                assert(b64_value(c[1]) is None);
                assert(!all_in_alphabet(c));
                assert(decode_groups(s.skip(i as int)) is None);
                assert(spec_b64_decode(text) is None);
                return None;
            },
        };
        let v2 = if len > 2 {
            match value(bytes[i + 2]) {
                Some(v) => v,
                None => {
                    assert(b64_value(c[2]) is None);
                    assert(!all_in_alphabet(c));
                    assert(decode_groups(s.skip(i as int)) is None);
                assert(spec_b64_decode(text) is None);
                    return None;
                },
            }
        } else {
            0
        };
        let v3 = if len > 3 {
            match value(bytes[i + 3]) {
                Some(v) => v,
                None => {
                    assert(b64_value(c[3]) is None);
                    assert(!all_in_alphabet(c));
                    assert(decode_groups(s.skip(i as int)) is None);
                assert(spec_b64_decode(text) is None);
                    return None;
                },
            }
        } else {
            0
        };
        proof {
            assert(all_in_alphabet(c));
            assert(v0 as int == value_or_zero(c, 0));
            assert(v1 as int == value_or_zero(c, 1));
            assert(v2 as int == value_or_zero(c, 2));
            assert(v3 as int == value_or_zero(c, 3));
            lemma_bytes_of_word(v0, v1, v2, v3);
        }
        let acc: u32 = (v0 << 18u32) | (v1 << 12u32) | (v2 << 6u32) | v3;
        let ghost before = out@;
        out.push(#[verifier::truncate] ((acc >> 16u32) as u8));
        if len > 2 {
            out.push(#[verifier::truncate] ((acc >> 8u32) as u8));
        }
        if len > 3 {
            out.push(#[verifier::truncate] (acc as u8));
        }
        proof {
            assert(out@ =~= before + decode_chunk(c));
            match decode_groups(s.skip(i + len)) {
                Some(rest) => {
                    assert(before + (decode_chunk(c) + rest) =~= out@ + rest);
                },
                None => {},
            }
        }
        i = i + len;
    }
    proof {
        assert(s.skip(end as int) =~= Seq::<u8>::empty());
        assert(out@ + Seq::<u8>::empty() =~= out@);
    }
    Some(out)
}

} // verus!

verus! {

/// What the map knows of one cell.
#[derive(Debug, Clone, Copy, PartialEq, Eq, Structural)]
pub enum Cell {
    Unknown,
    Free,
    Wall,
}

/// The cell a byte of the wire grid stands for: 1 free, 2 wall,
/// anything else unknown.
pub open spec fn spec_cell_of_byte(b: u8) -> Cell {
    if b == 1 {
        Cell::Free
    } else if b == 2 {
        Cell::Wall
    } else {
        Cell::Unknown
    }
}

pub fn cell_of_byte(b: u8) -> (c: Cell)
    ensures
        c == spec_cell_of_byte(b),
{
    match b {
        1 => Cell::Free,
        2 => Cell::Wall,
        _ => Cell::Unknown,
    }
}

/// A decoded trinary grid: `rows × cols` cells, row-major, row 0 first.
/// Where it sits in the world (the corner of cell (0, 0) and the pitch)
/// travels beside it.
#[derive(Debug, Clone, PartialEq)]
pub struct Grid {
    pub rows: usize,
    pub cols: usize,
    /// Row-major, row 0 at the bottom of the map.
    pub cells: Vec<Cell>,
}

impl Grid {
    /// The grid holds exactly one cell per row and column.
    pub open spec fn wf(&self) -> bool {
        self.cells@.len() == self.rows * self.cols
    }

    /// The cell at `(row, col)`, `None` off the grid.
    pub open spec fn spec_cell(&self, row: int, col: int) -> Option<Cell> {
        if 0 <= row < self.rows && 0 <= col < self.cols {
            Some(self.cells@[row * self.cols + col])
        } else {
            None
        }
    }

    pub fn cell(&self, row: usize, col: usize) -> (c: Option<Cell>)
        requires
            self.wf(),
        ensures
            c == self.spec_cell(row as int, col as int),
    {
        if row < self.rows && col < self.cols {
            let n = self.cells.len();
            proof {
                crate::grid_index::lemma_index_in_grid(row as int, col as int, self.rows as int, self.cols as int);
                assert(self.cells@.len() == n);
                assert(row * self.cols <= row * self.cols + col);
            }
            Some(self.cells[row * self.cols + col])
        } else {
            None
        }
    }

    /// How many cells are unknown, free and wall.
    pub fn counts(&self) -> (c: (usize, usize, usize))
        ensures
            c.0 == count_of(self.cells@, Cell::Unknown),
            c.1 == count_of(self.cells@, Cell::Free),
            c.2 == count_of(self.cells@, Cell::Wall),
    {
        let (mut u, mut f, mut w) = (0usize, 0usize, 0usize);
        let mut i: usize = 0;
        while i < self.cells.len()
            invariant
                i <= self.cells@.len(),
                u == count_of(self.cells@.take(i as int), Cell::Unknown),
                f == count_of(self.cells@.take(i as int), Cell::Free),
                w == count_of(self.cells@.take(i as int), Cell::Wall),
            decreases self.cells@.len() - i,
        {
            proof {
                lemma_count_push(self.cells@.take(i as int), self.cells@[i as int]);
                assert(self.cells@.take(i as int).push(self.cells@[i as int]) =~= self.cells@.take(i + 1));
                lemma_count_le_len(self.cells@.take(i as int), Cell::Unknown);
                lemma_count_le_len(self.cells@.take(i as int), Cell::Free);
                lemma_count_le_len(self.cells@.take(i as int), Cell::Wall);
            }
            match self.cells[i] {
                Cell::Unknown => u += 1,
                Cell::Free => f += 1,
                Cell::Wall => w += 1,
            }
            i += 1;
        }
        assert(self.cells@.take(self.cells@.len() as int) =~= self.cells@);
        (u, f, w)
    }
}

/// How many of `cells` are `kind`.
pub open spec fn count_of(cells: Seq<Cell>, kind: Cell) -> nat
    decreases cells.len(),
{
    if cells.len() == 0 {
        0
    } else {
        count_of(cells.drop_last(), kind) + if cells.last() == kind { 1nat } else { 0nat }
    }
}

proof fn lemma_count_push(cells: Seq<Cell>, c: Cell)
    ensures
        forall|k: Cell| #[trigger] count_of(cells.push(c), k) == count_of(cells, k) + if c == k { 1nat } else { 0nat },
{
    assert forall|k: Cell| #[trigger] count_of(cells.push(c), k) == count_of(cells, k) + if c == k { 1nat } else { 0nat } by {
        assert(cells.push(c).drop_last() =~= cells);
    }
}

proof fn lemma_count_le_len(cells: Seq<Cell>, k: Cell)
    ensures
        count_of(cells, k) <= cells.len(),
    decreases cells.len(),
{
    if cells.len() > 0 {
        lemma_count_le_len(cells.drop_last(), k);
    }
}

/// Why a frame's cells did not make a grid.
#[derive(Debug, Clone, Copy, PartialEq, Eq, Structural)]
pub enum GridError {
    /// The cells are not base64.
    NotBase64,
    /// The cells decode to `got` bytes where the grid has `expected` cells.
    WrongSize { got: u64, expected: u64 },
}

/// The grid a frame's `cells` text describes, `rows × cols` of them.
pub open spec fn spec_grid_cells(bytes: Seq<u8>) -> Seq<Cell> {
    bytes.map_values(|b: u8| spec_cell_of_byte(b))
}

/// Decode a frame's grid: the base64 `cells`, one byte per cell, must
/// hold exactly `rows × cols` of them — a short grid is an error, not a
/// panic.
pub fn decode_grid(cells: &str, rows: u32, cols: u32) -> (res: Result<Grid, GridError>)
    ensures
        match spec_b64_decode(vstd::utf8::encode_utf8(cells@)) {
            None => res == Err::<Grid, GridError>(GridError::NotBase64),
            Some(bytes) => if bytes.len() == rows * cols {
                res matches Ok(g) && g.rows == rows && g.cols == cols && g.cells@ == spec_grid_cells(bytes)
                    && g.wf()
            } else {
                res == Err::<Grid, GridError>(GridError::WrongSize { got: bytes.len() as u64, expected: (rows * cols) as u64 })
            },
        },
{
    let bytes = match b64_decode(cells) {
        Some(b) => b,
        None => return Err(GridError::NotBase64),
    };
    assert((rows as u64) * (cols as u64) <= 0xffff_ffffu64 * 0xffff_ffffu64) by (nonlinear_arith)
        requires
            rows <= 0xffff_ffffu32,
            cols <= 0xffff_ffffu32,
    ;
    let expected: u64 = rows as u64 * cols as u64;
    let got: u64 = bytes.len() as u64;
    if got != expected {
        return Err(GridError::WrongSize { got, expected });
    }
    let mut out: Vec<Cell> = Vec::new();
    let mut i: usize = 0;
    while i < bytes.len()
        invariant
            i <= bytes@.len(),
            out@ == spec_grid_cells(bytes@.take(i as int)),
        decreases bytes@.len() - i,
    {
        out.push(cell_of_byte(bytes[i]));
        proof {
            assert(spec_grid_cells(bytes@.take(i + 1)) =~= spec_grid_cells(bytes@.take(i as int)).push(
                spec_cell_of_byte(bytes@[i as int]),
            ));
        }
        i += 1;
    }
    assert(bytes@.take(bytes@.len() as int) =~= bytes@);
    Ok(Grid { rows: rows as usize, cols: cols as usize, cells: out })
}

} // verus!

verus! {

pub const METHOD_ROBOT_MAP: &'static str = "robot.map";
pub const METHOD_ROBOT_MAP_WIPE: &'static str = "robot.map_wipe";
pub const METHOD_MAP_FRAME: &'static str = "map.frame";

/// The robotd API version whose `robot.map` shape this module speaks.
pub const MAP_API_VERSION: u32 = 17;

/// What ended a clearance ray marched over the grid.
#[derive(Debug, Clone, Copy, PartialEq, Eq, Structural)]
pub enum Blocked {
    /// A mapped wall.
    Wall,
    /// The map does not know what is there (unexplored, or never in view).
    Unknown,
    /// The rendered grid ends here.
    Edge,
    /// Nothing within the distance asked about.
    Open,
}

impl Blocked {
    pub open spec fn spec_as_str(self) -> Seq<char> {
        match self {
            Blocked::Wall => "wall"@,
            Blocked::Unknown => "unknown"@,
            Blocked::Edge => "edge"@,
            Blocked::Open => "open"@,
        }
    }

    pub fn as_str(self) -> (s: &'static str)
        ensures
            s@ == self.spec_as_str(),
    {
        match self {
            Blocked::Wall => "wall",
            Blocked::Unknown => "unknown",
            Blocked::Edge => "edge",
            Blocked::Open => "open",
        }
    }
}

/// Answer to `robot.map`.
#[derive(Debug, Clone, PartialEq, Eq)]
pub struct MapStreamResult {
    /// The subscription is held either way; frames flow only if mapping
    /// is (or later becomes) enabled.
    pub accepted: bool,
    /// Whether mapping is enabled on this robot.
    pub enabled: bool,
    /// `stop_and_scan` or `continuous`, when enabled.
    pub mode: Option<String>,
}

/// Why one connection-lifetime of the map stream returned without an
/// error.
#[derive(Debug, Clone, Copy, PartialEq, Eq, Structural)]
pub enum MapStreamEnd {
    /// The receiver hung up.
    ReceiverGone,
    /// The robot answered `METHOD_NOT_FOUND`: it predates `robot.map`.
    Unsupported,
}

/// What the robot said about mapping, as far as we know.
#[derive(Debug, Clone, PartialEq, Eq, Default)]
pub enum MapSupport {
    /// No answer yet (not connected, or waiting for the ack).
    #[default]
    Unknown,
    /// The robot predates `robot.map`.
    Unsupported,
    /// `robot.map` exists; `enabled` says whether frames will come.
    Supported { enabled: bool, mode: Option<String> },
}

/// The parts of a map frame the status keeps its books by: renders since
/// the mapper's robot started, submaps, still windows integrated, and
/// whether the mapper vouches for the pose.
#[derive(Debug, Clone, Copy, PartialEq, Eq, Structural)]
pub struct FrameMark {
    pub seq: u64,
    pub n_submaps: u32,
    pub windows: u32,
    pub tracking: bool,
    pub seated: bool,
}

/// What one connection-lifetime of the map stream delivers.
#[derive(Debug, Clone, PartialEq)]
pub enum MapEvent {
    /// The subscribe ack: whether this robot maps at all, and how.
    Subscribed(MapStreamResult),
    Frame(FrameMark),
}

/// Whether `frame`, following `prev`, starts a new map frame: a new
/// mapper (`windows` or `seq` went backwards) **and** fewer submaps.
/// A restart that restored its saved session is a new mapper with the
/// same submaps, and keeps the frame.
pub open spec fn spec_is_reset(prev: Option<FrameMark>, frame: FrameMark) -> bool {
    match prev {
        Some(p) => (frame.windows < p.windows || frame.seq < p.seq) && frame.n_submaps < p.n_submaps,
        None => false,
    }
}

/// The newest word from the map lane.
#[derive(Debug, Clone, PartialEq)]
pub struct MapStatus {
    pub support: MapSupport,
    /// The newest frame's books.
    pub latest: Option<FrameMark>,
    /// Frames received since the lane started.
    pub frames: u64,
    /// Bumped whenever the map frame may no longer be the one earlier
    /// poses were expressed in — a wipe, or a boot that started a fresh
    /// map (see [`spec_is_reset`]).
    pub epoch: u64,
}

impl MapStatus {
    /// The books balance: a frame is on record exactly when one was
    /// received, and the epoch has moved at most once per frame after the
    /// first.
    pub open spec fn books_ok(&self) -> bool {
        &&& (self.latest is None <==> self.frames == 0)
        &&& self.frames == 0 ==> self.epoch == 0
        &&& self.frames > 0 ==> self.epoch < self.frames
    }

    pub fn new() -> (s: Self)
        ensures
            s.support == MapSupport::Unknown,
            s.latest is None,
            s.frames == 0,
            s.epoch == 0,
            s.books_ok(),
    {
        MapStatus { support: MapSupport::Unknown, latest: None, frames: 0, epoch: 0 }
    }

    /// Fold one frame in; returns true when the epoch changed.
    pub fn absorb(&mut self, frame: FrameMark) -> (reset: bool)
        requires
            old(self).frames < u64::MAX,
            old(self).epoch < u64::MAX,
        ensures
            reset == spec_is_reset(old(self).latest, frame),
            final(self).epoch == old(self).epoch + if reset { 1int } else { 0int },
            final(self).latest == Some(frame),
            final(self).frames == old(self).frames + 1,
            final(self).support == old(self).support,
            old(self).books_ok() ==> final(self).books_ok(),
    {
        let reset = match &self.latest {
            Some(prev) => {
                let new_mapper = frame.windows < prev.windows || frame.seq < prev.seq;
                new_mapper && frame.n_submaps < prev.n_submaps
            },
            None => false,
        };
        if reset {
            self.epoch += 1;
        }
        self.latest = Some(frame);
        self.frames += 1;
        reset
    }

    /// Whether the newest frame's pose is to be trusted: the mapper is
    /// tracking and the robot is not seated.
    pub open spec fn spec_trusted(&self) -> bool {
        match self.latest {
            Some(f) => f.tracking && !f.seated,
            None => false,
        }
    }

    pub fn trusted(&self) -> (t: bool)
        ensures
            t == self.spec_trusted(),
    {
        match &self.latest {
            Some(f) => f.tracking && !f.seated,
            None => false,
        }
    }

    /// One event from the map lane: an ack sets what the robot supports,
    /// a frame is absorbed. Returns whether the epoch changed.
    pub fn apply(&mut self, event: MapEvent) -> (reset: bool)
        requires
            old(self).frames < u64::MAX,
            old(self).epoch < u64::MAX,
        ensures
            match event {
                MapEvent::Subscribed(ack) => {
                    &&& !reset
                    &&& final(self).support == (MapSupport::Supported { enabled: ack.enabled, mode: ack.mode })
                    &&& final(self).latest == old(self).latest
                    &&& final(self).frames == old(self).frames
                    &&& final(self).epoch == old(self).epoch
                },
                MapEvent::Frame(f) => {
                    &&& reset == spec_is_reset(old(self).latest, f)
                    &&& final(self).support == old(self).support
                    &&& final(self).latest == Some(f)
                    &&& final(self).frames == old(self).frames + 1
                    &&& final(self).epoch == old(self).epoch + if reset { 1int } else { 0int }
                },
            },
            old(self).books_ok() ==> final(self).books_ok(),
    {
        match event {
            MapEvent::Subscribed(ack) => {
                self.support = MapSupport::Supported { enabled: ack.enabled, mode: ack.mode };
                false
            },
            MapEvent::Frame(frame) => self.absorb(frame),
        }
    }
}

/// The first frame a status sees is never a reset: there is no earlier
/// map for it to differ from.
pub proof fn first_frame_never_resets(frame: FrameMark)
    ensures
        !spec_is_reset(None, frame),
{
}

/// A mapper that comes back with at least the submaps it had (a restart
/// that restored its saved session) keeps the map frame, whatever its
/// counters did.
pub proof fn restored_session_keeps_the_frame(prev: FrameMark, frame: FrameMark)
    requires
        frame.n_submaps >= prev.n_submaps,
    ensures
        !spec_is_reset(Some(prev), frame),
{
}

/// The same mapper still counting up (neither its sequence number nor its
/// window count went backwards) keeps the map frame, however many
/// submaps it reports: fewer submaps alone is no reset.
pub proof fn a_mapper_counting_up_keeps_the_frame(prev: FrameMark, frame: FrameMark)
    requires
        frame.seq >= prev.seq,
        frame.windows >= prev.windows,
    ensures
        !spec_is_reset(Some(prev), frame),
{
}

/// A new mapper (its sequence number or its window count went backwards)
/// that comes with fewer submaps than before starts a new map frame.
pub proof fn a_new_mapper_with_fewer_submaps_resets(prev: FrameMark, frame: FrameMark)
    requires
        frame.seq < prev.seq || frame.windows < prev.windows,
        frame.n_submaps < prev.n_submaps,
    ensures
        spec_is_reset(Some(prev), frame),
{
}

/// How many of `frames`, absorbed in order after `prev`, are resets.
pub open spec fn resets(prev: Option<FrameMark>, frames: Seq<FrameMark>) -> nat
    decreases frames.len(),
{
    if frames.len() == 0 {
        0
    } else {
        (if spec_is_reset(prev, frames[0]) { 1nat } else { 0nat }) + resets(Some(frames[0]), frames.skip(1))
    }
}

/// Over any run of frames from a fresh status, the epoch moves at most
/// once per frame after the first.
pub proof fn resets_trail_frames(frames: Seq<FrameMark>)
    requires
        frames.len() > 0,
    ensures
        resets(None, frames) < frames.len(),
{
    lemma_resets_bound(Some(frames[0]), frames.skip(1));
}

proof fn lemma_resets_bound(prev: Option<FrameMark>, frames: Seq<FrameMark>)
    ensures
        resets(prev, frames) <= frames.len(),
    decreases frames.len(),
{
    if frames.len() > 0 {
        lemma_resets_bound(Some(frames[0]), frames.skip(1));
    }
}

} // verus!
