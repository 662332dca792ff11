//! The film's timing: fourteen chapters of fixed length, each shown as a whole
//! number of frames at the chosen frame rate.
//!
//! Chapter lengths are kept in half-seconds, so frame counts are exact integers:
//! a chapter of `h` half-seconds lasts `(h * fps + 1) / 2` frames, its length
//! in seconds times the frame rate, rounded half up.
use vstd::prelude::*;

verus! {

/// Number of chapters in the film.
pub const CHAPTER_COUNT: usize = 14;

/// Highest frame rate handled: up to it, a chapter's length in seconds (a whole
/// or half number, at most 10) times the rate is a number that single-precision
/// arithmetic represents exactly, so frame counts computed in `f32` agree.
pub const MAX_FPS: u32 = 1_677_721;

/// Length of each chapter, in half-seconds.
pub open spec fn half_seconds(chapter: int) -> int {
    if chapter == 0 {
        20
    } else if chapter == 1 {
        6
    } else if chapter == 2 {
        9
    } else if chapter == 3 {
        4
    } else if chapter == 4 {
        6
    } else if 5 <= chapter <= 8 {
        3
    } else if chapter == 9 {
        2
    } else if chapter == 10 {
        6
    } else if chapter == 11 {
        8
    } else if chapter == 12 {
        7
    } else if chapter == 13 {
        5
    } else {
        0
    }
}

/// Half-seconds in the chapters before `chapter`.
pub open spec fn half_seconds_before(chapter: int) -> int
    decreases chapter,
{
    if chapter <= 0 {
        0
    } else {
        half_seconds_before(chapter - 1) + half_seconds(chapter - 1)
    }
}

/// Frames in a chapter: its length in seconds times `fps`, rounded half up.
pub open spec fn chapter_span(chapter: int, fps: int) -> int {
    (half_seconds(chapter) * fps + 1) / 2
}

/// Frames in the chapters before `chapter`.
pub open spec fn frames_before(chapter: int, fps: int) -> int
    decreases chapter,
{
    if chapter <= 0 {
        0
    } else {
        frames_before(chapter - 1, fps) + chapter_span(chapter - 1, fps)
    }
}

/// Frames in the whole film.
pub open spec fn film_frames(fps: int) -> int {
    frames_before(CHAPTER_COUNT as int, fps)
}

/// `frame` is frame number `offset` of chapter `chapter`.
pub open spec fn locates(fps: int, frame: int, chapter: int, offset: int) -> bool {
    &&& 0 <= chapter < CHAPTER_COUNT
    &&& 0 <= offset < chapter_span(chapter, fps)
    &&& frames_before(chapter, fps) + offset == frame
}

proof fn lemma_span_bounds(chapter: int, fps: int)
    requires
        0 <= chapter < CHAPTER_COUNT,
        1 <= fps <= MAX_FPS,
    ensures
        1 <= chapter_span(chapter, fps) <= 16_777_211,
        2 <= half_seconds(chapter) <= 20,
{
    let h = half_seconds(chapter);
    assert(2 * fps <= h * fps <= 20 * fps) by (nonlinear_arith)
        requires
            2 <= h <= 20,
            1 <= fps,
    ;
}

proof fn lemma_frames_before_grows(a: int, b: int, fps: int)
    requires
        0 <= a <= b <= CHAPTER_COUNT,
        1 <= fps <= MAX_FPS,
    ensures
        frames_before(a, fps) + (b - a) <= frames_before(b, fps),
        a < b ==> frames_before(a, fps) + chapter_span(a, fps) <= frames_before(b, fps),
        frames_before(b, fps) <= b * 16_777_211,
    decreases b,
{
    if b > 0 {
        lemma_span_bounds(b - 1, fps);
        if a < b {
            lemma_frames_before_grows(a, b - 1, fps);
        } else {
            lemma_frames_before_grows(0, b - 1, fps);
        }
    }
}

/// Length of a chapter in half-seconds.
pub fn chapter_half_seconds(chapter: usize) -> (r: u32)
    requires
        chapter < CHAPTER_COUNT,
    ensures
        r == half_seconds(chapter as int),
{
    match chapter {
        0 => 20,
        1 => 6,
        2 => 9,
        3 => 4,
        4 => 6,
        5 | 6 | 7 | 8 => 3,
        9 => 2,
        10 => 6,
        11 => 8,
        12 => 7,
        _ => 5,
    }
}

/// Length of the whole film in half-seconds.
pub fn total_half_seconds() -> (r: u32)
    ensures
        r == half_seconds_before(CHAPTER_COUNT as int),
        r == 85,
{
    let mut total: u32 = 0;
    let mut c: usize = 0;
    while c < CHAPTER_COUNT
        invariant
            c <= CHAPTER_COUNT,
            total == half_seconds_before(c as int),
            total <= 20 * c,
        decreases CHAPTER_COUNT - c,
    {
        total = total + chapter_half_seconds(c);
        c += 1;
    }
    assert(half_seconds_before(CHAPTER_COUNT as int) == 85) by {
        reveal_with_fuel(half_seconds_before, 15);
    }
    total
}

/// Number of frames that chapter `chapter` takes at `fps` frames per second.
pub fn chapter_frames(chapter: usize, fps: u32) -> (r: u32)
    requires
        chapter < CHAPTER_COUNT,
        fps <= MAX_FPS,
    ensures
        r == chapter_span(chapter as int, fps as int),
        fps >= 1 ==> r >= 1,
{
    let h = chapter_half_seconds(chapter);
    proof {
        if fps >= 1 {
            lemma_span_bounds(chapter as int, fps as int);
        }
        assert(h * fps <= 20 * MAX_FPS) by (nonlinear_arith)
            requires
                h <= 20,
                fps <= MAX_FPS,
        ;
    }
    (h * fps + 1) / 2
}

/// Number of frames in the film at `fps` frames per second.
pub fn total_frames(fps: u32) -> (r: u32)
    requires
        fps <= MAX_FPS,
    ensures
        r == film_frames(fps as int),
        fps >= 1 ==> r >= CHAPTER_COUNT,
        fps == 0 ==> r == 0,
{
    let mut total: u32 = 0;
    let mut c: usize = 0;
    while c < CHAPTER_COUNT
        invariant
            fps <= MAX_FPS,
            c <= CHAPTER_COUNT,
            total == frames_before(c as int, fps as int),
            total <= c * 16_777_211,
        decreases CHAPTER_COUNT - c,
    {
        proof {
            if fps >= 1 {
                lemma_span_bounds(c as int, fps as int);
            }
        }
        total = total + chapter_frames(c, fps);
        c += 1;
    }
    proof {
        if fps >= 1 {
            lemma_frames_before_grows(0, CHAPTER_COUNT as int, fps as int);
        } else {
            lemma_no_frames_at_zero(CHAPTER_COUNT as int);
        }
    }
    total
}

proof fn lemma_no_frames_at_zero(chapter: int)
    ensures
        frames_before(chapter, 0) == 0,
    decreases chapter,
{
    if chapter > 0 {
        lemma_no_frames_at_zero(chapter - 1);
    }
}

/// A frame's place in the film.
#[derive(Clone, Copy, Debug, PartialEq, Eq)]
pub struct Position {
    /// The chapter shown.
    pub chapter: usize,
    /// The frame's number within its chapter, from 0.
    pub frame: u32,
    /// The number of frames in that chapter.
    pub frames: u32,
}

/// Finds where frame `frame` of the film falls; frames past the end are
/// taken as the last frame.
pub fn locate(frame: u32, fps: u32) -> (r: Position)
    requires
        1 <= fps <= MAX_FPS,
    ensures
        locates(
            fps as int,
            if frame < film_frames(fps as int) { frame as int } else { film_frames(fps as int) - 1 },
            r.chapter as int,
            r.frame as int,
        ),
        r.frames == chapter_span(r.chapter as int, fps as int),
{
    let total = total_frames(fps);
    let target = if frame < total {
        frame
    } else {
        total - 1
    };
    let mut remaining = target;
    let mut c: usize = 0;
    loop
        invariant
            1 <= fps <= MAX_FPS,
            total == film_frames(fps as int),
            target < total,
            target == if frame < total { frame } else { (total - 1) as u32 },
            c <= CHAPTER_COUNT,
            frames_before(c as int, fps as int) + remaining == target,
        decreases CHAPTER_COUNT - c,
    {
        if c == CHAPTER_COUNT {
            assert(false);
        }
        let span = chapter_frames(c, fps);
        if remaining < span {
            return Position { chapter: c, frame: remaining, frames: span };
        }
        remaining = remaining - span;
        c += 1;
    }
}

/// Each frame of the film lies in exactly one chapter, at exactly one offset.
pub proof fn position_is_unique(fps: int, frame: int, c1: int, o1: int, c2: int, o2: int)
    requires
        1 <= fps <= MAX_FPS,
        locates(fps, frame, c1, o1),
        locates(fps, frame, c2, o2),
    ensures
        c1 == c2,
        o1 == o2,
{
    if c1 < c2 {
        lemma_frames_before_grows(c1, c2, fps);
    } else if c2 < c1 {
        lemma_frames_before_grows(c2, c1, fps);
    }
}

/// The chapters tile the film: chapter `c` starts where the chapters before it
/// end, and every frame number within a chapter is a frame of the film.
pub proof fn chapters_tile_the_film(fps: int, chapter: int, offset: int)
    requires
        1 <= fps <= MAX_FPS,
        0 <= chapter < CHAPTER_COUNT,
        0 <= offset < chapter_span(chapter, fps),
    ensures
        locates(fps, frames_before(chapter, fps) + offset, chapter, offset),
        frames_before(chapter, fps) + offset < film_frames(fps),
{
    lemma_frames_before_grows(chapter, CHAPTER_COUNT as int, fps);
}

/// The name shown over a chapter. Both directions of a motion share one name.
#[derive(Clone, Copy, Debug, PartialEq, Eq, Structural)]
pub enum Title {
    Rotation,
    Shear,
    Translation,
    AxisAlignedScaling,
    DiagonalScaling,
    AffineScaling,
    AffineAddShear,
    AffineAddRotation,
    AffineAddTranslation,
    AffineTransformation,
    VerticalShear,
    ProjectOntoThePlane,
    Perspective,
}

/// The title of each chapter: chapter `c` has the `c`-th title, except that the
/// last two chapters both show `Perspective`.
pub open spec fn title_of(chapter: int) -> Title {
    if chapter == 0 {
        Title::Rotation
    } else if chapter == 1 {
        Title::Shear
    } else if chapter == 2 {
        Title::Translation
    } else if chapter == 3 {
        Title::AxisAlignedScaling
    } else if chapter == 4 {
        Title::DiagonalScaling
    } else if chapter == 5 {
        Title::AffineScaling
    } else if chapter == 6 {
        Title::AffineAddShear
    } else if chapter == 7 {
        Title::AffineAddRotation
    } else if chapter == 8 {
        Title::AffineAddTranslation
    } else if chapter == 9 {
        Title::AffineTransformation
    } else if chapter == 10 {
        Title::VerticalShear
    } else if chapter == 11 {
        Title::ProjectOntoThePlane
    } else {
        Title::Perspective
    }
}

/// The title shown over a chapter.
pub fn chapter_title(chapter: usize) -> (r: Title)
    requires
        chapter < CHAPTER_COUNT,
    ensures
        r == title_of(chapter as int),
{
    match chapter {
        0 => Title::Rotation,
        1 => Title::Shear,
        2 => Title::Translation,
        3 => Title::AxisAlignedScaling,
        4 => Title::DiagonalScaling,
        5 => Title::AffineScaling,
        6 => Title::AffineAddShear,
        7 => Title::AffineAddRotation,
        8 => Title::AffineAddTranslation,
        9 => Title::AffineTransformation,
        10 => Title::VerticalShear,
        11 => Title::ProjectOntoThePlane,
        _ => Title::Perspective,
    }
}

/// Whether the chapter after `chapter` exists and shows the same title, so
/// that the title stays up across the cut instead of fading out and in.
pub fn title_continues(chapter: usize) -> (r: bool)
    requires
        chapter < CHAPTER_COUNT,
    ensures
        r == (chapter + 1 < CHAPTER_COUNT && title_of(chapter as int) == title_of(chapter + 1)),
{
    chapter + 1 < CHAPTER_COUNT && chapter_title(chapter) == chapter_title(chapter + 1)
}

/// Only the two perspective chapters share a title.
pub proof fn only_perspective_continues(chapter: int)
    requires
        0 <= chapter < CHAPTER_COUNT - 1,
    ensures
        (title_of(chapter) == title_of(chapter + 1)) <==> chapter == 12,
{
}

/// The chapters last 10, 3, 4.5, 2, 3, 1.5, 1.5, 1.5, 1.5, 1, 3, 4, 3.5 and
/// 2.5 seconds: each takes that many seconds times the rate in frames,
/// rounded half up.
pub proof fn chapter_lengths_are_the_films(chapter: int, fps: int)
    requires
        0 <= chapter < CHAPTER_COUNT,
    ensures
        chapter_span(chapter, fps) == (seq![20int, 6, 9, 4, 6, 3, 3, 3, 3, 2, 6, 8, 7, 5][chapter] * fps + 1) / 2,
{
}

/// The film lasts 42.5 seconds: at an even rate it takes exactly 42.5 seconds
/// times the rate in frames, and at any rate between that and 7 frames more.
pub proof fn film_length_in_frames(fps: int)
    requires
        0 <= fps,
    ensures
        85 * fps <= 2 * film_frames(fps) <= 85 * fps + CHAPTER_COUNT,
        fps % 2 == 0 ==> 2 * film_frames(fps) == 85 * fps,
{
    lemma_frames_before_halves(CHAPTER_COUNT as int, fps);
    assert(half_seconds_before(CHAPTER_COUNT as int) == 85) by {
        reveal_with_fuel(half_seconds_before, 15);
    }
}

/// Twice the frames before a chapter is its start in half-seconds times the
/// rate, plus at most one per chapter, and exactly that at an even rate.
proof fn lemma_frames_before_halves(chapter: int, fps: int)
    requires
        0 <= chapter <= CHAPTER_COUNT,
        0 <= fps,
    ensures
        half_seconds_before(chapter) * fps <= 2 * frames_before(chapter, fps)
            <= half_seconds_before(chapter) * fps + chapter,
        fps % 2 == 0 ==> 2 * frames_before(chapter, fps) == half_seconds_before(chapter) * fps,
    decreases chapter,
{
    if chapter > 0 {
        let c = chapter - 1;
        lemma_frames_before_halves(c, fps);
        let h = half_seconds(c);
        let before = half_seconds_before(c);
        assert(h * fps >= 0) by (nonlinear_arith)
            requires
                h >= 0,
                fps >= 0,
        ;
        assert((before + h) * fps == before * fps + h * fps) by (nonlinear_arith);
        if fps % 2 == 0 {
            let k = fps / 2;
            assert(h * fps == 2 * (h * k)) by (nonlinear_arith)
                requires
                    fps == 2 * k,
            ;
        }
    }
}

/// The chapter titles, in order: Rotation, Shear, Translation, Axis-aligned
/// scaling, Diagonal scaling, Affine: scaling, Affine: add shear, Affine: add
/// rotation, Affine: add translation, Affine transformation, Vertical shear,
/// Project onto the plane, Perspective, Perspective.
pub proof fn chapter_titles_are_the_films(chapter: int)
    requires
        0 <= chapter < CHAPTER_COUNT,
    ensures
        title_of(chapter) == seq![
            Title::Rotation,
            Title::Shear,
            Title::Translation,
            Title::AxisAlignedScaling,
            Title::DiagonalScaling,
            Title::AffineScaling,
            Title::AffineAddShear,
            Title::AffineAddRotation,
            Title::AffineAddTranslation,
            Title::AffineTransformation,
            Title::VerticalShear,
            Title::ProjectOntoThePlane,
            Title::Perspective,
            Title::Perspective,
        ][chapter],
{
}

} // verus!
