use rotatevideo::clip::plan;
use rotatevideo::config::{Anchor, Clip};
use rotatevideo::error::Fault;

#[test]
fn user_examples() {
    let (w, h, d) = (1920, 1080, 60000);
    let p = plan(Clip::Min(Anchor::Middle), w, h, Some(d), true).unwrap();
    assert_eq!((p.w, p.h, p.frames), (1080, 1080, Some(1080)));
    assert_eq!(p.crop, Some((1080, 1080)));
    assert_eq!((p.start, p.take), ((60000 - 1080) / 2, Some(1080)));
    let p = plan(Clip::Middle(Anchor::Middle), w, h, Some(d), true).unwrap();
    assert_eq!((p.w, p.h, p.frames), (1920, 1080, Some(1920)));
    assert_eq!(p.crop, None);
    assert_eq!((p.start, p.take), ((60000 - 1920) / 2, Some(1920)));
    let p = plan(Clip::Whole, w, h, Some(d), true).unwrap();
    assert_eq!((p.w, p.h, p.frames, p.nth), (1920, 1080, Some(60000), 1));
    let p = plan(Clip::Nth(Some(50)), w, h, Some(d), true).unwrap();
    assert_eq!((p.frames, p.nth, p.take), (Some(1200), 50, None));
    let p = plan(Clip::Nth(None), w, h, Some(d), true).unwrap();
    assert_eq!((p.nth, p.frames), (32, Some(1875)));
}

#[test]
fn time_anchor() {
    let (w, h, d) = (1920, 1080, 60000);
    let p = plan(Clip::Min(Anchor::Start), w, h, Some(d), true).unwrap();
    assert_eq!((p.start, p.take), (0, Some(1080)));
    let p = plan(Clip::Min(Anchor::End), w, h, Some(d), true).unwrap();
    assert_eq!((p.start, p.take), (60000 - 1080, Some(1080)));
    let p = plan(Clip::Middle(Anchor::End), w, h, Some(d), true).unwrap();
    assert_eq!((p.start, p.take, p.frames), (60000 - 1920, Some(1920), Some(1920)));
    assert!(p.desc.starts_with("middle:end"));
    let p = plan(Clip::Middle(Anchor::Start), 1920, 1080, Some(600), true).unwrap();
    assert_eq!((p.start, p.take), (0, None));
    let p = plan(Clip::Min(Anchor::End), 1920, 1080, Some(600), true).unwrap();
    assert_eq!((p.start, p.take), (0, None));
}

#[test]
fn short_video_is_not_cut_in_time() {
    let p = plan(Clip::Min(Anchor::Middle), 1920, 1080, Some(600), true).unwrap();
    assert_eq!((p.w, p.h, p.frames, p.take), (600, 600, Some(600), None));
    let p = plan(Clip::Middle(Anchor::Middle), 1920, 1080, Some(600), true).unwrap();
    assert_eq!((p.w, p.h, p.frames, p.take), (1080, 1080, Some(600), None));
    assert_eq!(p.crop, Some((1080, 1080)));
    let p = plan(Clip::Min(Anchor::Middle), 1919, 1080, Some(1081), true).unwrap();
    assert_eq!((p.w, p.h, p.frames), (1080, 1080, Some(1080)));
    let p = plan(Clip::Min(Anchor::Middle), 5, 5, Some(5), false).unwrap();
    assert_eq!(p.crop, None);
}

#[test]
fn unknown_frame_count() {
    assert!(plan(Clip::Min(Anchor::Middle), 10, 10, None, true).is_err());
    assert!(plan(Clip::Nth(None), 10, 10, None, true).is_err());
    assert_eq!(plan(Clip::Nth(Some(4)), 10, 10, None, true).unwrap().frames, None);
    assert_eq!(plan(Clip::Whole, 10, 10, None, true).unwrap().frames, None);
}

#[test]
fn clip_faults_name_what_is_missing() {
    let e = plan(Clip::Min(Anchor::Start), 10, 10, None, true).unwrap_err();
    assert_eq!(e.fault, Fault::ClipNeedsFrameCount);
    assert_eq!(e.text, "min");
    let e = plan(Clip::Middle(Anchor::Start), 10, 10, None, true).unwrap_err();
    assert_eq!(e.fault, Fault::ClipNeedsFrameCount);
    assert_eq!(e.text, "middle");
    let e = plan(Clip::Nth(None), 10, 10, None, true).unwrap_err();
    assert_eq!(e.fault, Fault::NthNeedsCount);
}

#[test]
fn min_is_a_cube_of_any_side() {
    for even in [true, false] {
        let p = plan(Clip::Min(Anchor::Middle), 101, 77, Some(1000), even).unwrap();
        assert_eq!((p.w, p.h, p.frames), (77, 77, Some(77)));
        assert_eq!(p.crop, Some((77, 77)));
        let p = plan(Clip::Min(Anchor::Middle), 5, 5, Some(5), even).unwrap();
        assert_eq!((p.w, p.h, p.frames, p.crop), (5, 5, Some(5), None));
    }
}

#[test]
fn middle_cuts_odd_sides_to_even_ones() {
    let p = plan(Clip::Middle(Anchor::Middle), 101, 77, Some(1000), true).unwrap();
    assert_eq!((p.w, p.h, p.frames), (100, 76, Some(101)));
    let p = plan(Clip::Middle(Anchor::Middle), 101, 77, Some(1000), false).unwrap();
    assert_eq!((p.w, p.h, p.frames), (101, 77, Some(101)));
}

#[test]
fn nth_never_leaves_more_frames_than_the_longer_side() {
    for d in [1usize, 7, 640, 641, 1280, 99_999] {
        let p = plan(Clip::Nth(None), 640, 480, Some(d), true).unwrap();
        assert!(p.frames.unwrap() <= 640, "{d}");
        assert!(p.nth >= 1);
    }
}
