use proyecto_opencv::tally::{
    count_at, percent_of, should_quit, total_objects, FrameStep, Tally,
};

#[test]
fn one_frame_in_skip_is_analysed() {
    let mut t = Tally::new(3, false, 8);
    let steps: Vec<FrameStep> = (0..7).map(|_| t.on_frame()).collect();
    let p = FrameStep::Process { report_progress: false };
    assert_eq!(
        steps,
        vec![FrameStep::Skip, FrameStep::Skip, p, FrameStep::Skip, FrameStep::Skip, p, FrameStep::Skip]
    );
    assert_eq!(t.frame_count(), 7);
    assert_eq!(t.processed(), 2);
}

#[test]
fn skip_one_analyses_every_frame() {
    let mut t = Tally::new(1, false, 2);
    for n in 1..=5 {
        assert_eq!(t.on_frame(), FrameStep::Process { report_progress: false });
        assert_eq!(t.processed(), n);
    }
}

#[test]
fn progress_every_hundred_analysed_frames_when_headless() {
    let mut t = Tally::new(2, true, 1);
    let mut progress_at = Vec::new();
    for _ in 0..450 {
        if let FrameStep::Process { report_progress: true } = t.on_frame() {
            progress_at.push(t.frame_count());
        }
    }
    assert_eq!(progress_at, vec![200, 400]);
    assert_eq!(t.processed(), 225);

    let mut w = Tally::new(1, false, 1);
    for _ in 0..250 {
        assert_eq!(w.on_frame(), FrameStep::Process { report_progress: false });
    }
}

#[test]
fn counts_add_up_per_colour() {
    let mut t = Tally::new(3, false, 4);
    assert_eq!(t.totals(), &vec![None, None, None, None]);
    let f1 = t.record(&vec![2, 0, 1, 0]);
    assert_eq!(f1, vec![Some(2), None, Some(1), None]);
    let f2 = t.record(&vec![1, 0, 0, 5]);
    assert_eq!(f2, vec![Some(1), None, None, Some(5)]);
    assert_eq!(t.totals(), &vec![Some(3), None, Some(1), Some(5)]);
    assert_eq!(total_objects(t.totals()), 9);
    let f3 = t.record(&vec![0, 0, 0, 0]);
    assert_eq!(f3, vec![None; 4]);
    assert_eq!(t.totals(), &vec![Some(3), None, Some(1), Some(5)]);
}

#[test]
fn quit_keys() {
    assert!(should_quit('q' as i32));
    assert!(should_quit(27));
    assert!(!should_quit('Q' as i32));
    assert!(!should_quit(-1));
    assert!(!should_quit(' ' as i32));
}

#[test]
fn percentages_round_down() {
    assert_eq!(percent_of(1, 3), 33);
    assert_eq!(percent_of(2, 3), 66);
    assert_eq!(percent_of(0, 0), 0);
    assert_eq!(percent_of(5, 5), 100);
    let shares: usize = [1usize, 1, 1].iter().map(|&c| percent_of(c, 3)).sum();
    assert!(shares <= 100);
}

#[test]
fn absent_colours_count_zero() {
    let m = vec![None, Some(0), Some(4)];
    assert_eq!(count_at(&m, 0), 0);
    assert_eq!(count_at(&m, 1), 0);
    assert_eq!(count_at(&m, 2), 4);
    assert_eq!(total_objects(&m), 4);
}
