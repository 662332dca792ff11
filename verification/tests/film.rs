use one_dimension_up::film::{
    chapter_frames, chapter_half_seconds, chapter_title, locate, title_continues,
    total_frames, total_half_seconds, Title, CHAPTER_COUNT, MAX_FPS,
};

#[test]
fn timing_covers_each_shot_at_supported_frame_rates() {
    for fps in 12..=60 {
        let mut start = 0;
        for chapter in 0..CHAPTER_COUNT {
            let seconds = chapter_half_seconds(chapter) as f32 / 2.;
            let span = (seconds * fps as f32).round() as u32;
            let first = locate(start, fps);
            assert_eq!(first.chapter, chapter);
            assert_eq!(first.frame as f32 / (first.frames - 1) as f32, 0.);
            let last = locate(start + span - 1, fps);
            assert_eq!(last.frame as f32 / (last.frames - 1) as f32, 1.);
            start += span;
        }
        assert_eq!(start, total_frames(fps));
    }
}

#[test]
fn frame_counts_round_half_seconds_up() {
    assert_eq!(total_frames(30), 1275);
    assert_eq!(total_frames(25), 1066);
    assert_eq!(chapter_frames(2, 25), 113);
    assert_eq!(chapter_frames(9, 1), 1);
    assert_eq!(total_half_seconds(), 85);
}

#[test]
fn seeking_past_the_end_shows_the_last_frame() {
    let end = locate(u32::MAX, 30);
    assert_eq!(end.chapter, CHAPTER_COUNT - 1);
    assert_eq!(end.frame, end.frames - 1);
    assert_eq!(locate(total_frames(30) - 1, 30), end);
    let start = locate(0, 30);
    assert_eq!((start.chapter, start.frame, start.frames), (0, 0, 300));
    let second = locate(300, 30);
    assert_eq!((second.chapter, second.frame, second.frames), (1, 0, 90));
}

#[test]
fn only_the_perspective_chapters_share_a_title() {
    for chapter in 0..CHAPTER_COUNT {
        assert_eq!(title_continues(chapter), chapter == 12, "{chapter}");
    }
    assert_eq!(chapter_title(12), Title::Perspective);
    assert_eq!(chapter_title(13), Title::Perspective);
    assert_eq!(chapter_title(0), Title::Rotation);
}

#[test]
fn frame_counts_agree_with_single_precision_spans() {
    assert_eq!(total_frames(0), 0);
    for fps in [1u32, 2, 12, 25, 60, 1000, 838_861, 1_677_720, MAX_FPS] {
        let mut total = 0u32;
        for chapter in 0..CHAPTER_COUNT {
            let seconds = chapter_half_seconds(chapter) as f32 / 2.;
            let span = (seconds * fps as f32).round() as u32;
            assert_eq!(chapter_frames(chapter, fps), span, "{fps} {chapter}");
            total += span;
        }
        assert_eq!(total_frames(fps), total);
    }
    assert_eq!(chapter_frames(0, MAX_FPS), 16_777_210);
}
