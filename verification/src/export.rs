//! The export schedule: when to capture a rendered frame, and which film frame
//! to show next. The renderer drives it with two events, a frame update and a
//! captured frame having been stored, and performs the action it returns.
use vstd::prelude::*;
use crate::film::{film_frames, total_frames, MAX_FPS};

verus! {

/// Updates to wait before the first capture, while the renderer starts up.
pub const STARTUP_WAIT: u8 = 120;
/// Updates to wait after moving to the next frame, so that it is rendered before capture.
pub const SETTLE_WAIT: u8 = 2;

/// What to do after a captured frame has been stored.
#[derive(Clone, Copy, Debug, PartialEq, Eq, Structural)]
pub enum Next {
    /// Every frame has been stored: finish the export.
    Finish,
    /// Show this frame of the film and capture it after it has settled.
    Seek(u32),
}

/// Progress of an export of `count` consecutive film frames starting at `first`.
pub struct Schedule {
    first: u32,
    count: u32,
    written: u32,
    wait: u8,
    in_flight: bool,
}

/// The state of a `Schedule`.
pub struct ScheduleView {
    /// The first film frame exported.
    pub first: int,
    /// How many frames are exported.
    pub count: int,
    /// How many frames have been stored.
    pub written: int,
    /// Updates still to wait before the next capture.
    pub wait: int,
    /// A capture has been requested and not yet stored, or the export has ended.
    pub in_flight: bool,
}

/// Frames a still export (one frame) or a video export (the whole film) takes.
pub open spec fn export_count(still: bool, fps: int) -> int {
    if still {
        1
    } else {
        film_frames(fps)
    }
}

/// The state after an update: an update while a capture is in flight does
/// nothing, one during a wait counts it down, and otherwise a capture starts.
pub open spec fn after_update(s: ScheduleView) -> (ScheduleView, bool) {
    if s.in_flight {
        (s, false)
    } else if s.wait > 0 {
        (ScheduleView { wait: s.wait - 1, ..s }, false)
    } else {
        (ScheduleView { in_flight: true, ..s }, true)
    }
}

/// The state after a captured frame has been stored: the export finishes once
/// `count` frames are stored, and otherwise moves to the next consecutive frame.
pub open spec fn after_store(s: ScheduleView) -> (ScheduleView, Next) {
    if s.written + 1 >= s.count {
        (ScheduleView { written: s.written + 1, ..s }, Next::Finish)
    } else {
        (
            ScheduleView { written: s.written + 1, wait: SETTLE_WAIT as int, in_flight: false, ..s },
            Next::Seek((s.first + s.written + 1) as u32),
        )
    }
}

impl View for Schedule {
    type V = ScheduleView;

    closed spec fn view(&self) -> ScheduleView {
        ScheduleView {
            first: self.first as int,
            count: self.count as int,
            written: self.written as int,
            wait: self.wait as int,
            in_flight: self.in_flight,
        }
    }
}

impl Schedule {
    /// At least one frame is exported; no more frames are stored than exported,
    /// and only an ended export (or one whose last capture is in flight) has all
    /// of them; every exported frame number fits in a `u32`.
    #[verifier::type_invariant]
    spec fn well_formed(self) -> bool {
        &&& 1 <= self.count
        &&& self.written <= self.count
        &&& self.written == self.count ==> self.in_flight
        &&& self.first + self.count - 1 <= u32::MAX
    }

    /// A schedule for a still (one frame, `first`) or a video (the whole film
    /// at `fps`, from `first`), waiting for the renderer to start.
    pub fn new(still: bool, first: u32, fps: u32) -> (r: Schedule)
        requires
            1 <= fps <= MAX_FPS,
            first + export_count(still, fps as int) - 1 <= u32::MAX,
        ensures
            r@ == (ScheduleView {
                first: first as int,
                count: export_count(still, fps as int),
                written: 0,
                wait: STARTUP_WAIT as int,
                in_flight: false,
            }),
            still ==> r@.count == 1,
            !still ==> r@.count == film_frames(fps as int),
    {
        let count = if still {
            1
        } else {
            total_frames(fps)
        };
        Schedule { first, count, written: 0, wait: STARTUP_WAIT, in_flight: false }
    }

    pub fn first(&self) -> (r: u32)
        ensures
            r == self@.first,
    {
        self.first
    }

    /// How many frames the export stores.
    pub fn count(&self) -> (r: u32)
        ensures
            r == self@.count,
    {
        self.count
    }

    /// How many frames have been stored.
    pub fn written(&self) -> (r: u32)
        ensures
            r == self@.written,
    {
        self.written
    }

    /// A requested capture is awaited: one is in flight and frames remain.
    pub fn awaiting_frame(&self) -> (r: bool)
        ensures
            r == (self@.in_flight && self@.written < self@.count),
    {
        self.in_flight && self.written < self.count
    }

    /// A frame update: returns whether to capture the rendered frame now.
    /// After a capture starts, the frame it brings is awaited, so `stored`
    /// may be called for it.
    pub fn update(&mut self) -> (capture: bool)
        ensures
            (final(self)@, capture) == after_update(old(self)@),
            capture ==> final(self)@.in_flight && final(self)@.written < final(self)@.count,
    {
        proof {
            use_type_invariant(&*self);
        }
        if self.in_flight {
            return false;
        }
        if self.wait > 0 {
            self.wait = self.wait - 1;
            return false;
        }
        self.in_flight = true;
        true
    }

    /// A requested frame has been captured and stored.
    pub fn stored(&mut self) -> (next: Next)
        requires
            old(self)@.in_flight,
            old(self)@.written < old(self)@.count,
        ensures
            (final(self)@, next) == after_store(old(self)@),
    {
        proof {
            use_type_invariant(&*self);
        }
        self.written = self.written + 1;
        if self.written >= self.count {
            return Next::Finish;
        }
        self.wait = SETTLE_WAIT;
        self.in_flight = false;
        Next::Seek(self.first + self.written)
    }

    /// The export failed: no further capture is made.
    pub fn fail(&mut self)
        ensures
            final(self)@ == (ScheduleView { in_flight: true, ..old(self)@ }),
    {
        proof {
            use_type_invariant(&*self);
        }
        self.in_flight = true;
    }
}

/// The state after `n` stored frames.
pub open spec fn after_stores(s: ScheduleView, n: nat) -> ScheduleView
    decreases n,
{
    if n == 0 {
        s
    } else {
        after_store(after_stores(s, (n - 1) as nat)).0
    }
}

/// The state after `n` updates.
pub open spec fn after_updates(s: ScheduleView, n: nat) -> ScheduleView
    decreases n,
{
    if n == 0 {
        s
    } else {
        after_update(after_updates(s, (n - 1) as nat)).0
    }
}

/// Frames are exported consecutively: counting from a fresh schedule, the
/// `n`-th stored frame moves the film to frame `first + n`, until the
/// `count`-th, which finishes the export.
pub proof fn frames_are_exported_in_order(s: ScheduleView, n: nat)
    requires
        s.written == 0,
        n < s.count,
    ensures
        after_stores(s, n).written == n,
        after_stores(s, n).first == s.first,
        after_stores(s, n).count == s.count,
        after_store(after_stores(s, n)).1 == if n + 1 == s.count {
            Next::Finish
        } else {
            Next::Seek((s.first + n + 1) as u32)
        },
    decreases n,
{
    if n > 0 {
        frames_are_exported_in_order(s, (n - 1) as nat);
    }
}

/// While no capture is in flight, a schedule waiting `wait` updates lets
/// exactly that many updates pass, and the next one captures.
pub proof fn capture_follows_the_wait(s: ScheduleView, n: nat)
    requires
        !s.in_flight,
        0 <= s.wait,
        n <= s.wait,
    ensures
        after_updates(s, n) == (ScheduleView { wait: s.wait - n, ..s }),
        after_update(after_updates(s, n)).1 == (n == s.wait),
    decreases n,
{
    if n > 0 {
        capture_follows_the_wait(s, (n - 1) as nat);
    }
}

/// Once a capture is in flight, updates change nothing until it is stored.
pub proof fn one_capture_at_a_time(s: ScheduleView, n: nat)
    requires
        s.in_flight,
    ensures
        after_updates(s, n) == s,
        !after_update(after_updates(s, n)).1,
    decreases n,
{
    if n > 0 {
        one_capture_at_a_time(s, (n - 1) as nat);
    }
}

/// A still exports one frame and a video every frame of the film, whose
/// frame count at an even rate is its 42.5 seconds times the rate.
pub proof fn exports_cover_the_film(fps: int)
    requires
        0 <= fps <= MAX_FPS,
    ensures
        export_count(true, fps) == 1,
        export_count(false, fps) == film_frames(fps),
        fps % 2 == 0 ==> 2 * export_count(false, fps) == 85 * fps,
{
    crate::film::film_length_in_frames(fps);
}

} // verus!
